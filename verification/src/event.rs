//! Checked decoding of raw kernel execution records, and the decoded event
//! line handed to the scoring engine.
//!
//! A raw record is a fixed layout of 24 bytes: a little-endian `u32`
//! process id, a little-endian `u32` user id, and a 16-byte command field
//! padded with NUL bytes. Decoding is bounds-checked field by field; a
//! record shorter than the layout is reported as malformed (and skipped by
//! the caller), never read out of bounds.

use vstd::prelude::*;
use crate::codec::lemma_subrange_concat;
use crate::engine::{
    command_of_log, extract_value_spec, lemma_extract_skip, lemma_token_end_unique, pid_of_log,
    token_end, token_match, word_start,
};
use crate::numfmt::{dec_rep, dec_val, is_digit, lemma_dec_roundtrip};

verus! {

/// Size in bytes of one raw kernel record.
pub const EVENT_SIZE: usize = 24;

/// Byte offset of the command field.
pub const COMM_OFFSET: usize = 8;

/// Width in bytes of the command field.
pub const COMM_WIDTH: usize = 16;

/// A decoded kernel execution record. The command holds the bytes of the
/// fixed-width field up to its first NUL.
pub struct RawEvent {
    pub pid: u32,
    pub uid: u32,
    pub comm: Vec<u8>,
}

/// The little-endian `u32` at offset `off`.
pub open spec fn le_u32(b: Seq<u8>, off: int) -> int {
    b[off] + 256 * (b[off + 1] + 256 * (b[off + 2] + 256 * b[off + 3]))
}

/// Index just past the command bytes: the position of the first NUL in the
/// command field, or the field's end when none occurs.
pub open spec fn comm_end(b: Seq<u8>, i: int) -> int
    decreases EVENT_SIZE - i,
{
    if i < COMM_OFFSET || i >= EVENT_SIZE {
        EVENT_SIZE as int
    } else if b[i] == 0 {
        i
    } else {
        comm_end(b, i + 1)
    }
}

/// The command bytes of a raw record.
pub open spec fn comm_bytes(b: Seq<u8>) -> Seq<u8> {
    b.subrange(COMM_OFFSET as int, comm_end(b, COMM_OFFSET as int))
}

impl RawEvent {
    /// Decodes one raw record; reports `None` exactly for truncated input.
    pub fn decode(data: &[u8]) -> (r: Option<RawEvent>)
        ensures
            match r {
                Some(ev) => {
                    &&& data@.len() >= EVENT_SIZE
                    &&& ev.pid as int == le_u32(data@, 0)
                    &&& ev.uid as int == le_u32(data@, 4)
                    &&& ev.comm@ == comm_bytes(data@)
                },
                None => data@.len() < EVENT_SIZE,
            },
    {
        if data.len() < EVENT_SIZE {
            return None;
        }
        let pid: u32 = read_le_u32(data, 0);
        let uid: u32 = read_le_u32(data, 4);
        let mut comm: Vec<u8> = Vec::new();
        let mut i: usize = COMM_OFFSET;
        while i < EVENT_SIZE && data[i] != 0
            invariant
                COMM_OFFSET <= i <= EVENT_SIZE,
                data@.len() >= EVENT_SIZE,
                forall|k: int| COMM_OFFSET <= k < i ==> data@[k] != 0,
                comm@ == data@.subrange(COMM_OFFSET as int, i as int),
            decreases EVENT_SIZE - i,
        {
            comm.push(data[i]);
            proof {
                assert(comm@ =~= data@.subrange(COMM_OFFSET as int, i + 1));
            }
            i = i + 1;
        }
        proof {
            lemma_comm_end_unique(data@, COMM_OFFSET as int, i as int);
        }
        Some(RawEvent { pid, uid, comm })
    }
}

/// The first NUL at or after `i` in the command field determines `comm_end`.
proof fn lemma_comm_end_unique(b: Seq<u8>, i: int, e: int)
    requires
        b.len() >= EVENT_SIZE,
        COMM_OFFSET <= i <= e <= EVENT_SIZE,
        forall|k: int| i <= k < e ==> b[k] != 0,
        e < EVENT_SIZE ==> b[e] == 0,
    ensures
        comm_end(b, i) == e,
    decreases e - i,
{
    if i < e {
        lemma_comm_end_unique(b, i + 1, e);
    }
}

/// Reads the little-endian `u32` at byte offset `off`.
fn read_le_u32(data: &[u8], off: usize) -> (v: u32)
    requires
        off + 4 <= data@.len(),
    ensures
        v as int == le_u32(data@, off as int),
{
    let b0: u32 = data[off] as u32;
    let b1: u32 = data[off + 1] as u32;
    let b2: u32 = data[off + 2] as u32;
    let b3: u32 = data[off + 3] as u32;
    b0 + 256 * (b1 + 256 * (b2 + 256 * b3))
}

/// The decoded text line for one record:
/// `execve: pid=<pid> uid=<uid> comm=<comm>`.
pub open spec fn line_spec(pid: u32, uid: u32, comm: Seq<char>) -> Seq<char> {
    "execve: pid="@ + dec_rep(pid as nat) + " uid="@ + dec_rep(uid as nat) + " comm="@ + comm
}

/// Formats the decoded line handed to the scoring engine.
pub fn format_event_line(pid: u32, uid: u32, comm: &str) -> (line: String)
    ensures
        line@ == line_spec(pid, uid, comm@),
{
    let mut line = String::from_str("execve: pid=");
    line.append(crate::numfmt::u64_to_dec(pid as u64).as_str());
    line.append(" uid=");
    line.append(crate::numfmt::u64_to_dec(uid as u64).as_str());
    line.append(" comm=");
    line.append(comm);
    proof {
        assert(line@ =~= line_spec(pid, uid, comm@));
    }
    line
}

/// A formatted event line reads back as its own fields: for any command
/// without spaces, the engine's parsers recover exactly the pid and the
/// command the sensor wrote into the line.
#[verifier::rlimit(100)]
pub proof fn lemma_line_parses_back(pid: u32, uid: u32, comm: Seq<char>)
    requires
        forall|i: int| 0 <= i < comm.len() ==> comm[i] != ' ',
    ensures
        pid_of_log(line_spec(pid, uid, comm)) == pid,
        command_of_log(line_spec(pid, uid, comm)) == comm,
{
    reveal_strlit("execve: pid=");
    reveal_strlit(" uid=");
    reveal_strlit(" comm=");
    reveal_strlit("pid=");
    reveal_strlit("comm=");
    reveal_strlit("unknown");
    let s = line_spec(pid, uid, comm);
    let lit1 = "execve: pid="@;
    let r1 = dec_rep(pid as nat);
    let lit2 = " uid="@;
    let r2 = dec_rep(uid as nat);
    let lit3 = " comm="@;
    assert(s == lit1 + r1 + lit2 + r2 + lit3 + comm);
    assert(s.subrange(0, s.len() as int) =~= s);
    lemma_subrange_concat(s, 0, lit1 + r1 + lit2 + r2 + lit3, comm);
    lemma_subrange_concat(s, 0, lit1 + r1 + lit2 + r2, lit3);
    lemma_subrange_concat(s, 0, lit1 + r1 + lit2, r2);
    lemma_subrange_concat(s, 0, lit1 + r1, lit2);
    lemma_subrange_concat(s, 0, lit1, r1);
    let a2 = 12 + r1.len() as int;
    let a3 = a2 + 5;
    let a4 = a3 + r2.len() as int;
    let a5 = a4 + 6;
    let end = s.len() as int;
    lemma_dec_roundtrip(pid as nat);
    lemma_dec_roundtrip(uid as nat);
    assert(lit1[0] == 'e' && lit1[1] == 'x' && lit1[2] == 'e' && lit1[3] == 'c' && lit1[4] == 'v'
        && lit1[5] == 'e' && lit1[6] == ':' && lit1[7] == ' ' && lit1[8] == 'p' && lit1[9] == 'i'
        && lit1[10] == 'd' && lit1[11] == '=');
    assert(lit2[0] == ' ' && lit2[1] == 'u' && lit2[2] == 'i' && lit2[3] == 'd' && lit2[4] == '=');
    assert(lit3[0] == ' ' && lit3[1] == 'c' && lit3[2] == 'o' && lit3[3] == 'm' && lit3[4] == 'm'
        && lit3[5] == '=');
    assert forall|k: int| 0 <= k < 12 implies s[k] == lit1[k] by {
        assert(s.subrange(0, 12)[k] == lit1[k]);
    }
    assert forall|k: int| 12 <= k < a2 implies is_digit(s[k]) && s[k] != ' ' by {
        assert(s.subrange(12, a2)[k - 12] == r1[k - 12]);
    }
    assert forall|k: int| a2 <= k < a3 implies s[k] == lit2[k - a2] by {
        assert(s.subrange(a2, a3)[k - a2] == lit2[k - a2]);
    }
    assert forall|k: int| a3 <= k < a4 implies is_digit(s[k]) && s[k] != ' ' by {
        assert(s.subrange(a3, a4)[k - a3] == r2[k - a3]);
    }
    assert forall|k: int| a4 <= k < a5 implies s[k] == lit3[k - a4] by {
        assert(s.subrange(a4, a5)[k - a4] == lit3[k - a4]);
    }
    assert forall|k: int| a5 <= k < end implies s[k] == comm[k - a5] && s[k] != ' ' by {
        assert(s.subrange(a5, end)[k - a5] == comm[k - a5]);
    }
    // The spaces sit exactly at 7, a2 and a4; every token between is solid.
    lemma_token_end_unique(s, 8, a2);
    lemma_token_end_unique(s, a2 + 1, a4);
    lemma_token_end_unique(s, a4 + 1, end);
    // pid: no match before position 8, a match at 8.
    assert forall|k: int| 0 <= k < 8 implies !(word_start(s, k) && token_match(
        s,
        k,
        "pid="@,
    )) by {
        if word_start(s, k) && token_match(s, k, "pid="@) {
            if k == 0 {
                assert(s.subrange(0, 4)[0] == "pid="@[0]);
            } else {
                assert(s[k - 1] == ' ');
            }
        }
    }
    lemma_extract_skip(s, "pid="@, 0, 8);
    assert(word_start(s, 8));
    assert(s.subrange(8, 12) =~= "pid="@);
    assert(token_match(s, 8, "pid="@));
    assert(extract_value_spec(s, "pid="@) == Some(s.subrange(12, a2)));
    assert(s.subrange(12, a2) == r1);
    assert(dec_val(r1) == pid as nat);
    // command: no match before position a4 + 1, a match there.
    assert forall|k: int| 0 <= k < a4 + 1 implies !(word_start(s, k) && token_match(
        s,
        k,
        "comm="@,
    )) by {
        if word_start(s, k) && token_match(s, k, "comm="@) {
            if k == 0 {
                assert(s.subrange(0, 5)[0] == "comm="@[0]);
            } else {
                assert(s[k - 1] == ' ');
                assert(k == 8 || k == a2 + 1);
                if k == 8 {
                    assert(s.subrange(8, 13)[0] == "comm="@[0]);
                } else {
                    assert(s.subrange(a2 + 1, a2 + 6)[0] == "comm="@[0]);
                }
            }
        }
    }
    lemma_extract_skip(s, "comm="@, 0, a4 + 1);
    assert(word_start(s, a4 + 1));
    assert(s.subrange(a4 + 1, a4 + 6) =~= "comm="@);
    assert(token_match(s, a4 + 1, "comm="@));
    assert(extract_value_spec(s, "comm="@) == Some(s.subrange(a5, end)));
    assert(s.subrange(a5, end) =~= comm);
}

/// Relies on `String::from_utf8_lossy`: ASCII bytes (the usual case for
/// kernel command names) convert to their characters unchanged; other
/// sequences are replaced according to that function's documentation, and
/// nothing is claimed of them here.
#[verifier::external_body]
pub fn comm_to_string(comm: &Vec<u8>) -> (s: String)
    ensures
        (forall|i: int| 0 <= i < comm@.len() ==> comm@[i] < 128) ==> s@ == Seq::new(
            comm@.len(),
            |i: int| comm@[i] as char,
        ),
{
    String::from_utf8_lossy(comm).into_owned()
}

} // verus!
