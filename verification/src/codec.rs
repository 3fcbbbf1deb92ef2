//! The control protocol's wire text.
//!
//! One request or response per connection, as one line of field-tagged
//! text. Free-form strings travel length-prefixed (`<len>:<chars>`), so no
//! escaping is needed and every string round-trips exactly; integers travel
//! in canonical decimal (no leading zeros, `-` for negative values).
//!
//! The grammar is specified by the `p_*` spec functions; the executable
//! encoders and parsers are proved against them, and the round-trip lemmas
//! tie the two directions together.

use vstd::prelude::*;
use crate::ipc::{DaemonRequest, DaemonResponse};
use crate::numfmt::{
    dec_rep, dec_rep_signed, dec_val, digit_val, is_dec, is_digit, lemma_dec_roundtrip,
    parse_u64_range, u64_to_dec, i64_to_dec,
};
use crate::report::{AnomalyReport, ReportView};
use crate::anomalies::views_of;

verus! {

// ---------------------------------------------------------------------------
// Ghost views of the messages
// ---------------------------------------------------------------------------

/// Mathematical content of a request.
pub ghost enum ReqView {
    Status,
    GetAnomalies { tail: usize },
    Investigate { id: Seq<char> },
}

/// Mathematical content of a response.
pub ghost enum RespView {
    StatusOk { uptime_seconds: u64, events_processed: u64, db_size: usize },
    AnomaliesList(Seq<ReportView>),
    InvestigationResult(Seq<char>),
    Error(Seq<char>),
}

/// The view of a request value.
pub open spec fn req_view(req: DaemonRequest) -> ReqView {
    match req {
        DaemonRequest::Status => ReqView::Status,
        DaemonRequest::GetAnomalies { tail } => ReqView::GetAnomalies { tail },
        DaemonRequest::Investigate { id } => ReqView::Investigate { id: id@ },
    }
}

/// The view of a response value.
pub open spec fn resp_view(resp: DaemonResponse) -> RespView {
    match resp {
        DaemonResponse::StatusOk { uptime_seconds, events_processed, db_size } => {
            RespView::StatusOk { uptime_seconds, events_processed, db_size }
        },
        DaemonResponse::AnomaliesList(list) => RespView::AnomaliesList(views_of(list@)),
        DaemonResponse::InvestigationResult(text) => RespView::InvestigationResult(text@),
        DaemonResponse::Error(text) => RespView::Error(text@),
    }
}

// ---------------------------------------------------------------------------
// Wire text of the messages
// ---------------------------------------------------------------------------

/// A length-prefixed string: `<len>:<chars>`.
pub open spec fn enc_str(t: Seq<char>) -> Seq<char> {
    dec_rep(t.len()) + seq![':'] + t
}

/// One record on the wire.
pub open spec fn enc_record(rv: ReportView) -> Seq<char> {
    "id="@ + enc_str(rv.id) + " ts="@ + dec_rep(rv.timestamp as nat) + " pid="@ + dec_rep(
        rv.pid as nat,
    ) + " cmd="@ + enc_str(rv.command) + " score="@ + dec_rep_signed(
        rv.similarity_score as int,
    ) + " raw="@ + enc_str(rv.raw_log)
}

/// A record list on the wire: one space before each record.
pub open spec fn enc_records(l: Seq<ReportView>) -> Seq<char>
    decreases l.len(),
{
    if l.len() == 0 {
        Seq::<char>::empty()
    } else {
        seq![' '] + enc_record(l.first()) + enc_records(l.drop_first())
    }
}

/// Wire text of a request.
pub open spec fn req_text(rv: ReqView) -> Seq<char> {
    match rv {
        ReqView::Status => "status"@,
        ReqView::GetAnomalies { tail } => "get_anomalies tail="@ + dec_rep(tail as nat),
        ReqView::Investigate { id } => "investigate id="@ + enc_str(id),
    }
}

/// Wire text of a response.
pub open spec fn resp_text(rv: RespView) -> Seq<char> {
    match rv {
        RespView::StatusOk { uptime_seconds, events_processed, db_size } => {
            "status_ok uptime="@ + dec_rep(uptime_seconds as nat) + " events="@ + dec_rep(
                events_processed as nat,
            ) + " baseline="@ + dec_rep(db_size as nat)
        },
        RespView::AnomaliesList(l) => "anomalies n="@ + dec_rep(l.len()) + enc_records(l),
        RespView::InvestigationResult(t) => "result "@ + enc_str(t),
        RespView::Error(t) => "error "@ + enc_str(t),
    }
}

// ---------------------------------------------------------------------------
// Grammar primitives
// ---------------------------------------------------------------------------

/// First index at or after `i` holding a non-digit (the length when none).
pub open spec fn digit_end(s: Seq<char>, i: int) -> int
    decreases s.len() - i,
{
    if i < 0 || i >= s.len() {
        s.len() as int
    } else if !is_digit(s[i]) {
        i
    } else {
        digit_end(s, i + 1)
    }
}

/// Matches the literal `lit` at `pos`; yields the position after it.
pub open spec fn p_lit(s: Seq<char>, pos: int, lit: Seq<char>) -> Option<int> {
    if 0 <= pos && pos + lit.len() <= s.len() && s.subrange(pos, pos + lit.len() as int) == lit {
        Some(pos + lit.len() as int)
    } else {
        None
    }
}

/// Parses a canonical unsigned decimal (no leading zero) fitting `u64`.
pub open spec fn p_dec(s: Seq<char>, pos: int) -> Option<(u64, int)> {
    let e = digit_end(s, pos);
    if pos < 0 || pos >= s.len() || e == pos {
        None
    } else if s[pos] == '0' && e > pos + 1 {
        None
    } else if dec_val(s.subrange(pos, e)) <= u64::MAX {
        Some((dec_val(s.subrange(pos, e)) as u64, e))
    } else {
        None
    }
}

/// Parses a canonical signed decimal fitting `i64` (`-0` is not canonical).
pub open spec fn p_sdec(s: Seq<char>, pos: int) -> Option<(i64, int)> {
    if 0 <= pos < s.len() && s[pos] == '-' {
        match p_dec(s, pos + 1) {
            Some((v, e)) => if 1 <= v <= 0x8000_0000_0000_0000u64 {
                Some(((-(v as int)) as i64, e))
            } else {
                None
            },
            None => None,
        }
    } else {
        match p_dec(s, pos) {
            Some((v, e)) => if v <= i64::MAX as u64 {
                Some((v as i64, e))
            } else {
                None
            },
            None => None,
        }
    }
}

/// Parses a length-prefixed string.
pub open spec fn p_lenstr(s: Seq<char>, pos: int) -> Option<(Seq<char>, int)> {
    match p_dec(s, pos) {
        Some((n, e)) => if e < s.len() && s[e] == ':' && e + 1 + n <= s.len() {
            Some((s.subrange(e + 1, e + 1 + n), e + 1 + n))
        } else {
            None
        },
        None => None,
    }
}

/// Parses a whole request line.
pub open spec fn p_request(s: Seq<char>) -> Option<ReqView> {
    if s == "status"@ {
        Some(ReqView::Status)
    } else if p_lit(s, 0, "get_anomalies tail="@) is Some {
        match p_dec(s, p_lit(s, 0, "get_anomalies tail="@).unwrap()) {
            Some((v, e)) => if e == s.len() && v <= usize::MAX as u64 {
                Some(ReqView::GetAnomalies { tail: v as usize })
            } else {
                None
            },
            None => None,
        }
    } else if p_lit(s, 0, "investigate id="@) is Some {
        match p_lenstr(s, p_lit(s, 0, "investigate id="@).unwrap()) {
            Some((id, e)) => if e == s.len() {
                Some(ReqView::Investigate { id })
            } else {
                None
            },
            None => None,
        }
    } else {
        None
    }
}

// ---------------------------------------------------------------------------
// Primitive lemmas
// ---------------------------------------------------------------------------

/// `digit_end` really is the position of the first non-digit.
pub proof fn lemma_digit_end(s: Seq<char>, i: int)
    requires
        0 <= i <= s.len(),
    ensures
        i <= digit_end(s, i) <= s.len(),
        forall|k: int| i <= k < digit_end(s, i) ==> is_digit(s[k]),
        digit_end(s, i) < s.len() ==> !is_digit(s[digit_end(s, i)]),
    decreases s.len() - i,
{
    if i < s.len() && is_digit(s[i]) {
        lemma_digit_end(s, i + 1);
    }
}

/// The position of the first non-digit determines `digit_end`.
pub proof fn lemma_digit_end_unique(s: Seq<char>, i: int, e: int)
    requires
        0 <= i <= e <= s.len(),
        forall|k: int| i <= k < e ==> is_digit(s[k]),
        e < s.len() ==> !is_digit(s[e]),
    ensures
        digit_end(s, i) == e,
    decreases e - i,
{
    if i < e {
        lemma_digit_end_unique(s, i + 1, e);
    }
}

/// Canonical decimals have no leading zero.
pub proof fn lemma_dec_rep_no_leading_zero(n: nat)
    ensures
        dec_rep(n).len() == 1 || dec_rep(n)[0] != '0',
        n >= 10 ==> dec_rep(n).len() > 1 && dec_rep(n)[0] == dec_rep(n / 10)[0],
        n < 10 ==> dec_rep(n).len() == 1,
        n == 0 ==> dec_rep(n) == seq!['0'],
        n > 0 ==> dec_rep(n)[0] != '0',
    decreases n,
{
    if n >= 10 {
        lemma_dec_rep_no_leading_zero(n / 10);
    } else {
        assert(dec_rep(n) =~= seq![crate::numfmt::digit_char(n as int)]);
    }
}

/// A canonical digit string is the canonical decimal of its value.
pub proof fn lemma_canonical_digits(s: Seq<char>)
    requires
        is_dec(s),
        s.len() == 1 || s[0] != '0',
    ensures
        dec_rep(dec_val(s)) == s,
    decreases s.len(),
{
    if s.len() == 1 {
        lemma_digit_char_inverse(s[0]);
        assert(s.drop_last() =~= Seq::<char>::empty());
        assert(dec_val(Seq::<char>::empty()) == 0);
        assert(s.last() == s[0]);
        assert(dec_val(s) == digit_val(s[0]));
        assert(dec_rep(dec_val(s)) =~= s);
    } else {
        let front = s.drop_last();
        let c = s.last();
        assert(is_dec(front)) by {
            assert(forall|i: int| 0 <= i < front.len() ==> front[i] == s[i]);
        }
        lemma_canonical_digits(front);
        lemma_dec_val_positive(front);
        lemma_digit_char_inverse(c);
        let v = dec_val(s);
        assert(v == dec_val(front) * 10 + digit_val(c));
        assert(v / 10 == dec_val(front) && v % 10 == digit_val(c)) by (nonlinear_arith)
            requires
                v == dec_val(front) * 10 + digit_val(c),
                0 <= digit_val(c) < 10,
        ;
        assert(v >= 10) by (nonlinear_arith)
            requires
                dec_val(front) >= 1,
                v == dec_val(front) * 10 + digit_val(c),
                digit_val(c) >= 0,
        ;
        assert(dec_rep(v) == dec_rep(dec_val(front)).push(crate::numfmt::digit_char(
            digit_val(c) as int,
        )));
        assert(dec_rep(v) =~= s);
    }
}

/// A non-empty digit string without a leading zero has a positive value.
pub proof fn lemma_dec_val_positive(s: Seq<char>)
    requires
        is_dec(s),
        s[0] != '0',
    ensures
        dec_val(s) >= 1,
    decreases s.len(),
{
    if s.len() == 1 {
        assert(digit_val(s[0]) >= 1);
    } else {
        let front = s.drop_last();
        assert(is_dec(front)) by {
            assert(forall|i: int| 0 <= i < front.len() ==> front[i] == s[i]);
        }
        lemma_dec_val_positive(front);
        assert(dec_val(s) == dec_val(front) * 10 + digit_val(s.last()));
        assert(dec_val(front) * 10 >= 10) by (nonlinear_arith)
            requires
                dec_val(front) >= 1,
        ;
    }
}

/// A digit character is recovered from its value.
pub proof fn lemma_digit_char_inverse(c: char)
    requires
        is_digit(c),
    ensures
        crate::numfmt::digit_char(digit_val(c) as int) == c,
{
}

// ---------------------------------------------------------------------------
// Executable primitives
// ---------------------------------------------------------------------------

/// First index at or after `pos` holding a non-digit character.
fn digit_end_exec(s: &str, pos: usize) -> (e: usize)
    requires
        pos <= s@.len(),
    ensures
        e as int == digit_end(s@, pos as int),
        pos <= e <= s@.len(),
    decreases s@.len() - pos,
{
    proof {
        lemma_digit_end(s@, pos as int);
    }
    if pos == s.unicode_len() {
        return pos;
    }
    let u: u32 = s.get_char(pos) as u32;
    if u < 48 || u > 57 {
        pos
    } else {
        digit_end_exec(s, pos + 1)
    }
}

/// Matches the literal `lit` at `pos`.
fn expect_lit(s: &str, pos: usize, lit: &str) -> (r: Option<usize>)
    requires
        pos <= s@.len(),
    ensures
        match r {
            Some(e) => p_lit(s@, pos as int, lit@) == Some(e as int) && pos <= e <= s@.len(),
            None => p_lit(s@, pos as int, lit@) is None,
        },
{
    let llen: usize = lit.unicode_len();
    let slen: usize = s.unicode_len();
    if slen - pos < llen {
        return None;
    }
    let mut j: usize = 0;
    while j < llen
        invariant
            j <= llen,
            llen == lit@.len(),
            slen == s@.len(),
            pos + llen <= slen,
            forall|k: int| 0 <= k < j ==> s@[pos + k] == lit@[k],
        decreases llen - j,
    {
        if s.get_char(pos + j) != lit.get_char(j) {
            proof {
                assert(s@.subrange(pos as int, pos + llen)[j as int] != lit@[j as int]);
            }
            return None;
        }
        j = j + 1;
    }
    proof {
        assert(s@.subrange(pos as int, pos + llen) =~= lit@);
    }
    Some(pos + llen)
}

/// Parses a canonical unsigned decimal at `pos`.
fn parse_dec(s: &str, pos: usize) -> (r: Option<(u64, usize)>)
    requires
        pos <= s@.len(),
    ensures
        match r {
            Some(v) => p_dec(s@, pos as int) == Some((v.0, v.1 as int)) && pos < v.1 <= s@.len(),
            None => p_dec(s@, pos as int) is None,
        },
{
    let e: usize = digit_end_exec(s, pos);
    proof {
        lemma_digit_end(s@, pos as int);
    }
    if e == pos {
        return None;
    }
    if s.get_char(pos) == '0' && e > pos + 1 {
        return None;
    }
    proof {
        assert(is_dec(s@.subrange(pos as int, e as int))) by {
            assert(forall|k: int|
                0 <= k < e - pos ==> s@.subrange(pos as int, e as int)[k] == s@[pos + k]);
        }
    }
    match parse_u64_range(s, pos, e) {
        Some(v) => Some((v, e)),
        None => None,
    }
}

/// Parses a canonical signed decimal at `pos`.
fn parse_sdec(s: &str, pos: usize) -> (r: Option<(i64, usize)>)
    requires
        pos <= s@.len(),
    ensures
        match r {
            Some(v) => p_sdec(s@, pos as int) == Some((v.0, v.1 as int)) && pos < v.1 <= s@.len(),
            None => p_sdec(s@, pos as int) is None,
        },
{
    if pos < s.unicode_len() && s.get_char(pos) == '-' {
        match parse_dec(s, pos + 1) {
            Some((v, e)) => {
                if 1 <= v && v <= 0x8000_0000_0000_0000u64 {
                    Some(((-(v as i128)) as i64, e))
                } else {
                    None
                }
            },
            None => None,
        }
    } else {
        match parse_dec(s, pos) {
            Some((v, e)) => {
                if v <= i64::MAX as u64 {
                    Some((v as i64, e))
                } else {
                    None
                }
            },
            None => None,
        }
    }
}

/// Parses a length-prefixed string at `pos`.
fn parse_lenstr(s: &str, pos: usize) -> (r: Option<(String, usize)>)
    requires
        pos <= s@.len(),
    ensures
        match r {
            Some(v) => {
                &&& p_lenstr(s@, pos as int) is Some
                &&& p_lenstr(s@, pos as int).unwrap().0 == v.0@
                &&& p_lenstr(s@, pos as int).unwrap().1 == v.1 as int
                &&& pos < v.1 <= s@.len()
            },
            None => p_lenstr(s@, pos as int) is None,
        },
{
    match parse_dec(s, pos) {
        Some((n, e)) => {
            let slen: usize = s.unicode_len();
            if e < slen && s.get_char(e) == ':' && n <= (slen - e - 1) as u64 {
                let from: usize = e + 1;
                let to: usize = from + n as usize;
                let sub: &str = s.substring_char(from, to);
                Some((sub.to_owned(), to))
            } else {
                None
            }
        },
        None => None,
    }
}

// ---------------------------------------------------------------------------
// Requests: encode and parse
// ---------------------------------------------------------------------------

/// Encodes a request for the wire.
pub fn encode_request(req: &DaemonRequest) -> (s: String)
    ensures
        s@ == req_text(req_view(*req)),
{
    match req {
        DaemonRequest::Status => String::from_str("status"),
        DaemonRequest::GetAnomalies { tail } => {
            let mut s = String::from_str("get_anomalies tail=");
            s.append(u64_to_dec(*tail as u64).as_str());
            s
        },
        DaemonRequest::Investigate { id } => {
            let mut s = String::from_str("investigate id=");
            append_lenstr(&mut s, id.as_str());
            s
        },
    }
}

/// Appends `<len>:<chars>` for `t` to `out`.
fn append_lenstr(out: &mut String, t: &str)
    ensures
        final(out)@ == old(out)@ + enc_str(t@),
{
    let n: u64 = t.unicode_len() as u64;
    out.append(u64_to_dec(n).as_str());
    out.append(":");
    out.append(t);
    proof {
        reveal_strlit(":");
        assert(":"@ =~= seq![':']);
        assert(final(out)@ =~= old(out)@ + enc_str(t@));
    }
}

/// Parses a request line; accepts exactly the wire text of some request.
pub fn parse_request(s: &str) -> (r: Option<DaemonRequest>)
    ensures
        match r {
            Some(req) => p_request(s@) == Some(req_view(req)),
            None => p_request(s@) is None,
        },
{
    let slen: usize = s.unicode_len();
    match expect_lit(s, 0, "status") {
        Some(e) => {
            if e == slen {
                proof {
                    assert(s@ =~= "status"@);
                }
                return Some(DaemonRequest::Status);
            }
        },
        None => {},
    }
    proof {
        if s@ == "status"@ {
            assert(s@.subrange(0, "status"@.len() as int) =~= "status"@);
            assert(false);
        }
    }
    match expect_lit(s, 0, "get_anomalies tail=") {
        Some(e) => {
            return match parse_dec(s, e) {
                Some((v, e2)) => {
                    if e2 == slen && v <= usize::MAX as u64 {
                        Some(DaemonRequest::GetAnomalies { tail: v as usize })
                    } else {
                        None
                    }
                },
                None => None,
            };
        },
        None => {},
    }
    match expect_lit(s, 0, "investigate id=") {
        Some(e) => {
            return match parse_lenstr(s, e) {
                Some((id, e2)) => {
                    if e2 == slen {
                        Some(DaemonRequest::Investigate { id })
                    } else {
                        None
                    }
                },
                None => None,
            };
        },
        None => {},
    }
    None
}

// ---------------------------------------------------------------------------
// Round trip: parsing inverts encoding
// ---------------------------------------------------------------------------

/// A match of `a + b` inside `s` splits into matches of `a` and of `b`.
pub proof fn lemma_subrange_concat(s: Seq<char>, pos: int, a: Seq<char>, b: Seq<char>)
    requires
        0 <= pos,
        pos + a.len() + b.len() <= s.len(),
        s.subrange(pos, pos + a.len() + b.len()) == a + b,
    ensures
        s.subrange(pos, pos + a.len() as int) == a,
        s.subrange(pos + a.len() as int, pos + a.len() + b.len()) == b,
{
    assert forall|i: int| 0 <= i < a.len() implies s.subrange(pos, pos + a.len() as int)[i] == a[i]
        by {
        assert(s.subrange(pos, pos + a.len() + b.len())[i] == (a + b)[i]);
    }
    assert(s.subrange(pos, pos + a.len() as int) =~= a);
    assert forall|i: int|
        0 <= i < b.len() implies s.subrange(pos + a.len() as int, pos + a.len() + b.len())[i]
        == b[i] by {
        assert(s.subrange(pos, pos + a.len() + b.len())[a.len() + i] == s[pos + a.len() + i]);
        assert((a + b)[a.len() + i] == b[i]);
        assert(s.subrange(pos, pos + a.len() + b.len())[a.len() + i] == (a + b)[a.len() + i]);
        assert(s.subrange(pos + a.len() as int, pos + a.len() + b.len())[i] == s[pos + a.len()
            + i]);
    }
    assert(s.subrange(pos + a.len() as int, pos + a.len() + b.len()) =~= b);
}

/// A canonical decimal embedded at `pos`, ended by the string's end or a
/// non-digit, parses back to its value.
proof fn lemma_p_dec_at(s: Seq<char>, pos: int, v: nat)
    requires
        0 <= pos,
        v <= u64::MAX,
        pos + dec_rep(v).len() <= s.len(),
        s.subrange(pos, pos + dec_rep(v).len() as int) == dec_rep(v),
        pos + dec_rep(v).len() == s.len() || !is_digit(s[pos + dec_rep(v).len()]),
    ensures
        p_dec(s, pos) == Some((v as u64, pos + dec_rep(v).len() as int)),
{
    lemma_dec_roundtrip(v);
    lemma_dec_rep_no_leading_zero(v);
    let rep = dec_rep(v);
    let e = pos + rep.len() as int;
    assert forall|k: int| pos <= k < e implies is_digit(s[k]) by {
        assert(s.subrange(pos, e)[k - pos] == rep[k - pos]);
    }
    lemma_digit_end_unique(s, pos, e);
    assert(s[pos] == rep[0]) by {
        assert(s.subrange(pos, e)[0] == rep[0]);
    }
    assert(dec_val(s.subrange(pos, e)) == v);
}

/// A length-prefixed string embedded at `pos` parses back to its text.
proof fn lemma_p_lenstr_at(s: Seq<char>, pos: int, t: Seq<char>)
    requires
        0 <= pos,
        t.len() <= u64::MAX,
        pos + enc_str(t).len() <= s.len(),
        s.subrange(pos, pos + enc_str(t).len() as int) == enc_str(t),
    ensures
        p_lenstr(s, pos) == Some((t, pos + enc_str(t).len() as int)),
{
    let rep = dec_rep(t.len());
    assert(enc_str(t) == (rep + seq![':']) + t);
    assert((rep + seq![':']).len() == rep.len() + 1);
    lemma_subrange_concat(s, pos, rep + seq![':'], t);
    lemma_subrange_concat(s, pos, rep, seq![':']);
    let e = pos + rep.len() as int;
    assert(s[e] == ':') by {
        assert(s.subrange(e, e + 1)[0] == seq![':'][0]);
    }
    assert(!is_digit(':'));
    lemma_p_dec_at(s, pos, t.len());
    assert(p_lenstr(s, pos) == Some((s.subrange(e + 1, e + 1 + t.len()), e + 1 + t.len())));
}

/// Parsing inverts encoding for requests: the wire text of any request
/// reads back as exactly that request.
pub proof fn lemma_req_roundtrip(rv: ReqView)
    requires
        rv matches ReqView::Investigate { id } ==> id.len() <= u64::MAX,
    ensures
        p_request(req_text(rv)) == Some(rv),
{
    reveal_strlit("status");
    reveal_strlit("get_anomalies tail=");
    reveal_strlit("investigate id=");
    let s = req_text(rv);
    match rv {
        ReqView::Status => {
        },
        ReqView::GetAnomalies { tail } => {
            let lit = "get_anomalies tail="@;
            let rep = dec_rep(tail as nat);
            assert(s.len() == lit.len() + rep.len());
            assert(s != "status"@) by {
                assert(rep.len() >= 1) by {
                    crate::codec::lemma_dec_rep_no_leading_zero(tail as nat);
                }
            }
            assert(s.subrange(0, s.len() as int) =~= s);
            lemma_subrange_concat(s, 0, lit, rep);
            assert(p_lit(s, 0, lit) == Some(lit.len() as int));
            lemma_p_dec_at(s, lit.len() as int, tail as nat);
        },
        ReqView::Investigate { id } => {
            let lit = "investigate id="@;
            let enc = enc_str(id);
            assert(s.len() == lit.len() + enc.len());
            assert(s.subrange(0, s.len() as int) =~= s);
            lemma_subrange_concat(s, 0, lit, enc);
            assert(s[0] == 'i') by {
                assert(s.subrange(0, lit.len() as int)[0] == lit[0]);
            }
            assert(s != "status"@);
            assert(p_lit(s, 0, "get_anomalies tail="@) is None) by {
                if p_lit(s, 0, "get_anomalies tail="@) is Some {
                    assert(s.subrange(0, 19)[0] == "get_anomalies tail="@[0]);
                }
            }
            assert(p_lit(s, 0, lit) == Some(lit.len() as int));
            lemma_p_lenstr_at(s, lit.len() as int, id);
        },
    }
}

// ---------------------------------------------------------------------------
// Soundness: only exact encodings are accepted
// ---------------------------------------------------------------------------

/// What `p_dec` accepts at `pos` is the canonical decimal of its value.
proof fn lemma_p_dec_sound(s: Seq<char>, pos: int)
    requires
        p_dec(s, pos) is Some,
    ensures
        ({
            let (v, e) = p_dec(s, pos).unwrap();
            &&& pos < e <= s.len()
            &&& s.subrange(pos, e) == dec_rep(v as nat)
            &&& (e == s.len() || !is_digit(s[e]))
        }),
{
    let e = digit_end(s, pos);
    lemma_digit_end(s, pos);
    let sub = s.subrange(pos, e);
    assert(is_dec(sub)) by {
        assert(forall|k: int| 0 <= k < e - pos ==> sub[k] == s[pos + k]);
    }
    assert(sub.len() == 1 || sub[0] != '0');
    lemma_canonical_digits(sub);
}

/// What `p_sdec` accepts at `pos` is the canonical signed decimal of its
/// value.
proof fn lemma_p_sdec_sound(s: Seq<char>, pos: int)
    requires
        p_sdec(s, pos) is Some,
    ensures
        ({
            let (v, e) = p_sdec(s, pos).unwrap();
            &&& pos < e <= s.len()
            &&& s.subrange(pos, e) == dec_rep_signed(v as int)
            &&& (e == s.len() || !is_digit(s[e]))
        }),
{
    let (v, e) = p_sdec(s, pos).unwrap();
    if 0 <= pos < s.len() && s[pos] == '-' {
        lemma_p_dec_sound(s, pos + 1);
        let (m, _) = p_dec(s, pos + 1).unwrap();
        assert(v as int == -(m as int));
        assert(dec_rep_signed(v as int) == seq!['-'] + dec_rep(m as nat));
        assert(s.subrange(pos, e) =~= seq!['-'] + s.subrange(pos + 1, e));
    } else {
        lemma_p_dec_sound(s, pos);
    }
}

/// What `p_lenstr` accepts at `pos` is the length-prefixed form of its
/// text.
proof fn lemma_p_lenstr_sound(s: Seq<char>, pos: int)
    requires
        p_lenstr(s, pos) is Some,
    ensures
        ({
            let (t, e2) = p_lenstr(s, pos).unwrap();
            &&& pos < e2 <= s.len()
            &&& t.len() <= u64::MAX
            &&& s.subrange(pos, e2) == enc_str(t)
        }),
{
    let (n, e) = p_dec(s, pos).unwrap();
    lemma_p_dec_sound(s, pos);
    let (t, e2) = p_lenstr(s, pos).unwrap();
    assert(t.len() == n);
    assert(s.subrange(pos, e2) =~= s.subrange(pos, e) + seq![':'] + t);
}

/// Only the wire text of a request parses as that request.
pub proof fn lemma_req_sound(s: Seq<char>)
    requires
        p_request(s) is Some,
    ensures
        s == req_text(p_request(s).unwrap()),
{
    if s == "status"@ {
    } else if p_lit(s, 0, "get_anomalies tail="@) is Some {
        let lit = "get_anomalies tail="@;
        lemma_p_dec_sound(s, lit.len() as int);
        let (v, e) = p_dec(s, lit.len() as int).unwrap();
        assert(s =~= lit + dec_rep(v as nat));
    } else {
        let lit = "investigate id="@;
        lemma_p_lenstr_sound(s, lit.len() as int);
        let (t, e2) = p_lenstr(s, lit.len() as int).unwrap();
        assert(s =~= lit + enc_str(t));
    }
}

// ---------------------------------------------------------------------------
// Responses: grammar
// ---------------------------------------------------------------------------

/// Parses one record.
pub open spec fn p_record(s: Seq<char>, pos: int) -> Option<(ReportView, int)> {
    match p_lit(s, pos, "id="@) {
        Some(p1) => match p_lenstr(s, p1) {
            Some((id, p2)) => match p_lit(s, p2, " ts="@) {
                Some(p3) => match p_dec(s, p3) {
                    Some((ts, p4)) => match p_lit(s, p4, " pid="@) {
                        Some(p5) => match p_dec(s, p5) {
                            Some((pid, p6)) => if pid <= u32::MAX as u64 {
                                match p_lit(s, p6, " cmd="@) {
                                    Some(p7) => match p_lenstr(s, p7) {
                                        Some((cmd, p8)) => match p_lit(s, p8, " score="@) {
                                            Some(p9) => match p_sdec(s, p9) {
                                                Some((score, p10)) => match p_lit(
                                                    s,
                                                    p10,
                                                    " raw="@,
                                                ) {
                                                    Some(p11) => match p_lenstr(s, p11) {
                                                        Some((raw, p12)) => Some(
                                                            (
                                                                ReportView {
                                                                    id,
                                                                    timestamp: ts,
                                                                    pid: pid as u32,
                                                                    command: cmd,
                                                                    similarity_score: score,
                                                                    raw_log: raw,
                                                                },
                                                                p12,
                                                            ),
                                                        ),
                                                        None => None,
                                                    },
                                                    None => None,
                                                },
                                                None => None,
                                            },
                                            None => None,
                                        },
                                        None => None,
                                    },
                                    None => None,
                                }
                            } else {
                                None
                            },
                            None => None,
                        },
                        None => None,
                    },
                    None => None,
                },
                None => None,
            },
            None => None,
        },
        None => None,
    }
}

/// Parses `n` records, each preceded by one space.
pub open spec fn p_records(s: Seq<char>, pos: int, n: int) -> Option<(Seq<ReportView>, int)>
    decreases n,
{
    if n <= 0 {
        Some((Seq::<ReportView>::empty(), pos))
    } else {
        match p_lit(s, pos, " "@) {
            Some(p1) => match p_record(s, p1) {
                Some((rv, p2)) => match p_records(s, p2, n - 1) {
                    Some((l, e)) => Some((seq![rv] + l, e)),
                    None => None,
                },
                None => None,
            },
            None => None,
        }
    }
}

/// Parses a whole response line.
pub open spec fn p_response(s: Seq<char>) -> Option<RespView> {
    if p_lit(s, 0, "status_ok uptime="@) is Some {
        match p_dec(s, p_lit(s, 0, "status_ok uptime="@).unwrap()) {
            Some((u, e1)) => match p_lit(s, e1, " events="@) {
                Some(e2) => match p_dec(s, e2) {
                    Some((ev, e3)) => match p_lit(s, e3, " baseline="@) {
                        Some(e4) => match p_dec(s, e4) {
                            Some((d, e5)) => if e5 == s.len() && d <= usize::MAX as u64 {
                                Some(
                                    RespView::StatusOk {
                                        uptime_seconds: u,
                                        events_processed: ev,
                                        db_size: d as usize,
                                    },
                                )
                            } else {
                                None
                            },
                            None => None,
                        },
                        None => None,
                    },
                    None => None,
                },
                None => None,
            },
            None => None,
        }
    } else if p_lit(s, 0, "anomalies n="@) is Some {
        match p_dec(s, p_lit(s, 0, "anomalies n="@).unwrap()) {
            Some((n, e1)) => match p_records(s, e1, n as int) {
                Some((l, e2)) => if e2 == s.len() {
                    Some(RespView::AnomaliesList(l))
                } else {
                    None
                },
                None => None,
            },
            None => None,
        }
    } else if p_lit(s, 0, "result "@) is Some {
        match p_lenstr(s, p_lit(s, 0, "result "@).unwrap()) {
            Some((t, e)) => if e == s.len() {
                Some(RespView::InvestigationResult(t))
            } else {
                None
            },
            None => None,
        }
    } else if p_lit(s, 0, "error "@) is Some {
        match p_lenstr(s, p_lit(s, 0, "error "@).unwrap()) {
            Some((t, e)) => if e == s.len() {
                Some(RespView::Error(t))
            } else {
                None
            },
            None => None,
        }
    } else {
        None
    }
}

// ---------------------------------------------------------------------------
// Responses: encoding
// ---------------------------------------------------------------------------

/// Appends one record's wire text to `out`.
fn append_record(out: &mut String, rep: &AnomalyReport)
    ensures
        final(out)@ == old(out)@ + enc_record(rep@),
{
    out.append("id=");
    append_lenstr(out, rep.id.as_str());
    out.append(" ts=");
    out.append(u64_to_dec(rep.timestamp).as_str());
    out.append(" pid=");
    out.append(u64_to_dec(rep.pid as u64).as_str());
    out.append(" cmd=");
    append_lenstr(out, rep.command.as_str());
    out.append(" score=");
    out.append(i64_to_dec(rep.similarity_score).as_str());
    out.append(" raw=");
    append_lenstr(out, rep.raw_log.as_str());
    proof {
        assert(final(out)@ =~= old(out)@ + enc_record(rep@));
    }
}

/// Appending one element extends a record list's wire text at the end.
proof fn lemma_enc_records_push(l: Seq<ReportView>, rv: ReportView)
    ensures
        enc_records(l.push(rv)) == enc_records(l) + seq![' '] + enc_record(rv),
    decreases l.len(),
{
    if l.len() == 0 {
        assert(l.push(rv).drop_first() =~= Seq::<ReportView>::empty());
        assert(l.push(rv).first() == rv);
        assert(enc_records(Seq::<ReportView>::empty()) == Seq::<char>::empty());
        assert(enc_records(l.push(rv)) == seq![' '] + enc_record(rv) + enc_records(
            Seq::<ReportView>::empty(),
        ));
        assert(enc_records(l.push(rv)) =~= enc_records(l) + seq![' '] + enc_record(rv));
    } else {
        assert(l.push(rv).first() == l.first());
        assert(l.push(rv).drop_first() =~= l.drop_first().push(rv));
        lemma_enc_records_push(l.drop_first(), rv);
        assert(enc_records(l.push(rv)) == seq![' '] + enc_record(l.first()) + enc_records(
            l.drop_first().push(rv),
        ));
        assert(enc_records(l) == seq![' '] + enc_record(l.first()) + enc_records(l.drop_first()));
        assert(enc_records(l.push(rv)) =~= enc_records(l) + seq![' '] + enc_record(rv));
    }
}

/// Encodes a response for the wire.
pub fn encode_response(resp: &DaemonResponse) -> (s: String)
    ensures
        s@ == resp_text(resp_view(*resp)),
{
    match resp {
        DaemonResponse::StatusOk { uptime_seconds, events_processed, db_size } => {
            let mut s = String::from_str("status_ok uptime=");
            s.append(u64_to_dec(*uptime_seconds).as_str());
            s.append(" events=");
            s.append(u64_to_dec(*events_processed).as_str());
            s.append(" baseline=");
            s.append(u64_to_dec(*db_size as u64).as_str());
            proof {
                assert(s@ =~= resp_text(resp_view(*resp)));
            }
            s
        },
        DaemonResponse::AnomaliesList(list) => {
            let mut s = String::from_str("anomalies n=");
            s.append(u64_to_dec(list.len() as u64).as_str());
            let ghost header = s@;
            let mut i: usize = 0;
            proof {
                assert(views_of(list@.take(0)) =~= Seq::<ReportView>::empty());
            }
            while i < list.len()
                invariant
                    i <= list@.len(),
                    s@ == header + enc_records(views_of(list@.take(i as int))),
                decreases list@.len() - i,
            {
                s.append(" ");
                proof {
                    reveal_strlit(" ");
                    assert(" "@ =~= seq![' ']);
                }
                append_record(&mut s, &list[i]);
                proof {
                    lemma_enc_records_push(views_of(list@.take(i as int)), list@[i as int]@);
                    assert(views_of(list@.take(i + 1)) =~= views_of(list@.take(i as int)).push(
                        list@[i as int]@,
                    ));
                    assert(s@ =~= header + enc_records(views_of(list@.take(i + 1))));
                }
                i = i + 1;
            }
            proof {
                assert(list@.take(list@.len() as int) =~= list@);
            }
            s
        },
        DaemonResponse::InvestigationResult(text) => {
            let mut s = String::from_str("result ");
            append_lenstr(&mut s, text.as_str());
            s
        },
        DaemonResponse::Error(text) => {
            let mut s = String::from_str("error ");
            append_lenstr(&mut s, text.as_str());
            s
        },
    }
}

// ---------------------------------------------------------------------------
// Responses: parsing
// ---------------------------------------------------------------------------

/// Parses one record at `pos`.
fn parse_record(s: &str, pos: usize) -> (r: Option<(AnomalyReport, usize)>)
    requires
        pos <= s@.len(),
    ensures
        match r {
            Some(v) => {
                &&& p_record(s@, pos as int) is Some
                &&& p_record(s@, pos as int).unwrap().0 == v.0@
                &&& p_record(s@, pos as int).unwrap().1 == v.1 as int
                &&& pos < v.1 <= s@.len()
            },
            None => p_record(s@, pos as int) is None,
        },
{
    let p1 = match expect_lit(s, pos, "id=") {
        Some(p) => p,
        None => {
            return None;
        },
    };
    let (id, p2) = match parse_lenstr(s, p1) {
        Some(v) => v,
        None => {
            return None;
        },
    };
    let p3 = match expect_lit(s, p2, " ts=") {
        Some(p) => p,
        None => {
            return None;
        },
    };
    let (ts, p4) = match parse_dec(s, p3) {
        Some(v) => v,
        None => {
            return None;
        },
    };
    let p5 = match expect_lit(s, p4, " pid=") {
        Some(p) => p,
        None => {
            return None;
        },
    };
    let (pid, p6) = match parse_dec(s, p5) {
        Some(v) => v,
        None => {
            return None;
        },
    };
    if pid > u32::MAX as u64 {
        return None;
    }
    let p7 = match expect_lit(s, p6, " cmd=") {
        Some(p) => p,
        None => {
            return None;
        },
    };
    let (cmd, p8) = match parse_lenstr(s, p7) {
        Some(v) => v,
        None => {
            return None;
        },
    };
    let p9 = match expect_lit(s, p8, " score=") {
        Some(p) => p,
        None => {
            return None;
        },
    };
    let (score, p10) = match parse_sdec(s, p9) {
        Some(v) => v,
        None => {
            return None;
        },
    };
    let p11 = match expect_lit(s, p10, " raw=") {
        Some(p) => p,
        None => {
            return None;
        },
    };
    let (raw, p12) = match parse_lenstr(s, p11) {
        Some(v) => v,
        None => {
            return None;
        },
    };
    Some(
        (
            AnomalyReport {
                id,
                timestamp: ts,
                pid: pid as u32,
                command: cmd,
                similarity_score: score,
                raw_log: raw,
            },
            p12,
        ),
    )
}

/// Parses a response line; accepts exactly the wire text of some response.
pub fn parse_response(s: &str) -> (r: Option<DaemonResponse>)
    ensures
        match r {
            Some(resp) => p_response(s@) == Some(resp_view(resp)),
            None => p_response(s@) is None,
        },
{
    let slen: usize = s.unicode_len();
    match expect_lit(s, 0, "status_ok uptime=") {
        Some(e) => {
            let (u, e1) = match parse_dec(s, e) {
                Some(v) => v,
                None => {
                    return None;
                },
            };
            let e2 = match expect_lit(s, e1, " events=") {
                Some(p) => p,
                None => {
                    return None;
                },
            };
            let (ev, e3) = match parse_dec(s, e2) {
                Some(v) => v,
                None => {
                    return None;
                },
            };
            let e4 = match expect_lit(s, e3, " baseline=") {
                Some(p) => p,
                None => {
                    return None;
                },
            };
            let (d, e5) = match parse_dec(s, e4) {
                Some(v) => v,
                None => {
                    return None;
                },
            };
            if e5 == slen && d <= usize::MAX as u64 {
                return Some(
                    DaemonResponse::StatusOk {
                        uptime_seconds: u,
                        events_processed: ev,
                        db_size: d as usize,
                    },
                );
            }
            return None;
        },
        None => {},
    }
    match expect_lit(s, 0, "anomalies n=") {
        Some(e) => {
            let (n, e1) = match parse_dec(s, e) {
                Some(v) => v,
                None => {
                    return None;
                },
            };
            let mut list: Vec<AnomalyReport> = Vec::new();
            let mut pos: usize = e1;
            let mut i: u64 = 0;
            proof {
                assert(views_of(list@) =~= Seq::<ReportView>::empty());
                if p_records(s@, e1 as int, n as int) is Some {
                    let (l0, e0) = p_records(s@, e1 as int, n as int).unwrap();
                    assert(views_of(list@) + l0 =~= l0);
                }
                assert(p_records(s@, e1 as int, n as int) == (match p_records(
                    s@,
                    e1 as int,
                    n as int,
                ) {
                    Some((l, e_)) => Some((views_of(list@) + l, e_)),
                    None => None::<(Seq<ReportView>, int)>,
                }));
            }
            while i < n
                invariant
                    i <= n,
                    pos <= s@.len(),
                    p_lit(s@, 0, "status_ok uptime="@) is None,
                    p_lit(s@, 0, "anomalies n="@) == Some(e as int),
                    p_dec(s@, e as int) == Some((n, e1 as int)),
                    views_of(list@).len() == i,
                    p_records(s@, e1 as int, n as int) == (match p_records(
                        s@,
                        pos as int,
                        n - i,
                    ) {
                        Some((l, e_)) => Some((views_of(list@) + l, e_)),
                        None => None::<(Seq<ReportView>, int)>,
                    }),
                decreases n - i,
            {
                let p1 = match expect_lit(s, pos, " ") {
                    Some(p) => p,
                    None => {
                        proof {
                            assert(p_records(s@, pos as int, n - i) is None);
                            assert(p_records(s@, e1 as int, n as int) is None);
                            assert(p_response(s@) is None);
                        }
                        return None;
                    },
                };
                let (rep, p2) = match parse_record(s, p1) {
                    Some(v) => v,
                    None => {
                        proof {
                            assert(p_records(s@, pos as int, n - i) is None);
                            assert(p_records(s@, e1 as int, n as int) is None);
                            assert(p_response(s@) is None);
                        }
                        return None;
                    },
                };
                let ghost old_views = views_of(list@);
                let ghost k = n - i;
                proof {
                    assert(p_records(s@, pos as int, k) == (match p_records(s@, p2 as int, k - 1) {
                        Some((l, e_)) => Some((seq![rep@] + l, e_)),
                        None => None::<(Seq<ReportView>, int)>,
                    }));
                }
                list.push(rep);
                proof {
                    assert(views_of(list@) =~= old_views.push(rep@));
                    if p_records(s@, p2 as int, k - 1) is Some {
                        let (l2, e_) = p_records(s@, p2 as int, k - 1).unwrap();
                        assert(old_views + (seq![rep@] + l2) =~= views_of(list@) + l2);
                    }
                    assert(p_records(s@, e1 as int, n as int) == (match p_records(
                        s@,
                        p2 as int,
                        k - 1,
                    ) {
                        Some((l, e_)) => Some((views_of(list@) + l, e_)),
                        None => None::<(Seq<ReportView>, int)>,
                    }));
                }
                pos = p2;
                i = i + 1;
            }
            proof {
                assert(views_of(list@) + Seq::<ReportView>::empty() =~= views_of(list@));
            }
            if pos == slen {
                return Some(DaemonResponse::AnomaliesList(list));
            }
            return None;
        },
        None => {},
    }
    match expect_lit(s, 0, "result ") {
        Some(e) => {
            return match parse_lenstr(s, e) {
                Some((t, e2)) => {
                    if e2 == slen {
                        Some(DaemonResponse::InvestigationResult(t))
                    } else {
                        None
                    }
                },
                None => None,
            };
        },
        None => {},
    }
    match expect_lit(s, 0, "error ") {
        Some(e) => {
            return match parse_lenstr(s, e) {
                Some((t, e2)) => {
                    if e2 == slen {
                        Some(DaemonResponse::Error(t))
                    } else {
                        None
                    }
                },
                None => None,
            };
        },
        None => {},
    }
    None
}

// ---------------------------------------------------------------------------
// Round trip for responses
// ---------------------------------------------------------------------------

/// Whether a record's strings fit the wire's length prefixes.
pub open spec fn wire_ok(rv: ReportView) -> bool {
    &&& rv.id.len() <= u64::MAX
    &&& rv.command.len() <= u64::MAX
    &&& rv.raw_log.len() <= u64::MAX
}

/// A canonical signed decimal embedded at `pos`, ended by the string's end
/// or a non-digit, parses back to its value.
proof fn lemma_p_sdec_at(s: Seq<char>, pos: int, v: i64)
    requires
        0 <= pos,
        pos + dec_rep_signed(v as int).len() <= s.len(),
        s.subrange(pos, pos + dec_rep_signed(v as int).len() as int) == dec_rep_signed(v as int),
        pos + dec_rep_signed(v as int).len() == s.len() || !is_digit(
            s[pos + dec_rep_signed(v as int).len()],
        ),
    ensures
        p_sdec(s, pos) == Some((v, pos + dec_rep_signed(v as int).len() as int)),
{
    if v >= 0 {
        lemma_p_dec_at(s, pos, v as nat);
        lemma_dec_roundtrip(v as nat);
        assert(is_digit(s[pos])) by {
            assert(s.subrange(pos, pos + dec_rep(v as nat).len() as int)[0] == dec_rep(
                v as nat,
            )[0]);
        }
        assert(s[pos] != '-');
    } else {
        let m = (-(v as int)) as nat;
        let rep = dec_rep(m);
        assert(dec_rep_signed(v as int) == seq!['-'] + rep);
        lemma_subrange_concat(s, pos, seq!['-'], rep);
        assert(s[pos] == '-') by {
            assert(s.subrange(pos, pos + 1)[0] == seq!['-'][0]);
        }
        assert(m <= 0x8000_0000_0000_0000) by {
            assert(v as int >= i64::MIN);
        }
        lemma_p_dec_at(s, pos + 1, m);
        assert(m >= 1);
    }
}

/// A record embedded at `pos` parses back to its view.
proof fn lemma_p_record_at(s: Seq<char>, pos: int, rv: ReportView)
    requires
        0 <= pos,
        wire_ok(rv),
        pos + enc_record(rv).len() <= s.len(),
        s.subrange(pos, pos + enc_record(rv).len() as int) == enc_record(rv),
    ensures
        p_record(s, pos) == Some((rv, pos + enc_record(rv).len() as int)),
{
    reveal_strlit("id=");
    reveal_strlit(" ts=");
    reveal_strlit(" pid=");
    reveal_strlit(" cmd=");
    reveal_strlit(" score=");
    reveal_strlit(" raw=");
    let l1 = "id="@;
    let e_id = enc_str(rv.id);
    let l2 = " ts="@;
    let r_ts = dec_rep(rv.timestamp as nat);
    let l3 = " pid="@;
    let r_pid = dec_rep(rv.pid as nat);
    let l4 = " cmd="@;
    let e_cmd = enc_str(rv.command);
    let l5 = " score="@;
    let r_sc = dec_rep_signed(rv.similarity_score as int);
    let l6 = " raw="@;
    let e_raw = enc_str(rv.raw_log);
    let part10 = l1 + e_id + l2 + r_ts + l3 + r_pid + l4 + e_cmd + l5 + r_sc;
    let part9 = l1 + e_id + l2 + r_ts + l3 + r_pid + l4 + e_cmd + l5;
    let part8 = l1 + e_id + l2 + r_ts + l3 + r_pid + l4 + e_cmd;
    let part7 = l1 + e_id + l2 + r_ts + l3 + r_pid + l4;
    let part6 = l1 + e_id + l2 + r_ts + l3 + r_pid;
    let part5 = l1 + e_id + l2 + r_ts + l3;
    let part4 = l1 + e_id + l2 + r_ts;
    let part3 = l1 + e_id + l2;
    let part2 = l1 + e_id;
    assert(enc_record(rv) == part10 + l6 + e_raw);
    lemma_subrange_concat(s, pos, part10 + l6, e_raw);
    lemma_subrange_concat(s, pos, part10, l6);
    lemma_subrange_concat(s, pos, part9, r_sc);
    lemma_subrange_concat(s, pos, part8, l5);
    lemma_subrange_concat(s, pos, part7, e_cmd);
    lemma_subrange_concat(s, pos, part6, l4);
    lemma_subrange_concat(s, pos, part5, r_pid);
    lemma_subrange_concat(s, pos, part4, l3);
    lemma_subrange_concat(s, pos, part3, r_ts);
    lemma_subrange_concat(s, pos, part2, l2);
    lemma_subrange_concat(s, pos, l1, e_id);
    let p1 = pos + l1.len() as int;
    assert(p_lit(s, pos, l1) == Some(p1));
    lemma_p_lenstr_at(s, p1, rv.id);
    let p2 = p1 + e_id.len() as int;
    assert(s.subrange(p2, p2 + l2.len() as int) == l2);
    assert(p_lit(s, p2, l2) == Some(p2 + l2.len() as int));
    let p3 = p2 + l2.len() as int;
    assert(s[p3 + r_ts.len()] == ' ') by {
        assert(s.subrange(p3 + r_ts.len() as int, p3 + r_ts.len() + l3.len())[0] == l3[0]);
    }
    lemma_p_dec_at(s, p3, rv.timestamp as nat);
    let p4 = p3 + r_ts.len() as int;
    assert(p_lit(s, p4, l3) == Some(p4 + l3.len() as int));
    let p5 = p4 + l3.len() as int;
    assert(s[p5 + r_pid.len()] == ' ') by {
        assert(s.subrange(p5 + r_pid.len() as int, p5 + r_pid.len() + l4.len())[0] == l4[0]);
    }
    lemma_p_dec_at(s, p5, rv.pid as nat);
    let p6 = p5 + r_pid.len() as int;
    assert(p_lit(s, p6, l4) == Some(p6 + l4.len() as int));
    let p7 = p6 + l4.len() as int;
    lemma_p_lenstr_at(s, p7, rv.command);
    let p8 = p7 + e_cmd.len() as int;
    assert(p_lit(s, p8, l5) == Some(p8 + l5.len() as int));
    let p9 = p8 + l5.len() as int;
    assert(s[p9 + r_sc.len()] == ' ') by {
        assert(s.subrange(p9 + r_sc.len() as int, p9 + r_sc.len() + l6.len())[0] == l6[0]);
    }
    lemma_p_sdec_at(s, p9, rv.similarity_score);
    let p10 = p9 + r_sc.len() as int;
    assert(p_lit(s, p10, l6) == Some(p10 + l6.len() as int));
    let p11 = p10 + l6.len() as int;
    lemma_p_lenstr_at(s, p11, rv.raw_log);
    let p12 = p11 + e_raw.len() as int;
    assert(p12 == pos + enc_record(rv).len());
    assert(p_record(s, pos) == Some((rv, p12)));
}

/// A record list embedded at `pos` parses back to its views.
#[verifier::rlimit(100)]
proof fn lemma_p_records_at(s: Seq<char>, pos: int, l: Seq<ReportView>)
    requires
        0 <= pos,
        forall|i: int| 0 <= i < l.len() ==> wire_ok(#[trigger] l[i]),
        pos + enc_records(l).len() <= s.len(),
        s.subrange(pos, pos + enc_records(l).len() as int) == enc_records(l),
    ensures
        p_records(s, pos, l.len() as int) == Some((l, pos + enc_records(l).len() as int)),
    decreases l.len(),
{
    reveal_strlit(" ");
    if l.len() == 0 {
        assert(l =~= Seq::<ReportView>::empty());
    } else {
        let rec = enc_record(l.first());
        let rest = enc_records(l.drop_first());
        assert(enc_records(l) == seq![' '] + rec + rest);
        lemma_subrange_concat(s, pos, seq![' '] + rec, rest);
        lemma_subrange_concat(s, pos, seq![' '], rec);
        assert(" "@ =~= seq![' ']);
        assert(p_lit(s, pos, " "@) == Some(pos + 1));
        assert(wire_ok(l.first()));
        lemma_p_record_at(s, pos + 1, l.first());
        let p2 = pos + 1 + rec.len() as int;
        assert(forall|i: int|
            0 <= i < l.drop_first().len() ==> wire_ok(#[trigger] l.drop_first()[i]));
        lemma_p_records_at(s, p2, l.drop_first());
        assert(seq![l.first()] + l.drop_first() =~= l);
        assert(p2 + rest.len() == pos + enc_records(l).len());
    }
}

/// Parsing inverts encoding for responses: the wire text of any response
/// reads back as exactly that response.
pub proof fn lemma_resp_roundtrip(rv: RespView)
    requires
        rv matches RespView::AnomaliesList(l) ==> l.len() <= u64::MAX && (forall|i: int|
            0 <= i < l.len() ==> wire_ok(#[trigger] l[i])),
        rv matches RespView::InvestigationResult(t) ==> t.len() <= u64::MAX,
        rv matches RespView::Error(t) ==> t.len() <= u64::MAX,
    ensures
        p_response(resp_text(rv)) == Some(rv),
{
    reveal_strlit("status_ok uptime=");
    reveal_strlit(" events=");
    reveal_strlit(" baseline=");
    reveal_strlit("anomalies n=");
    reveal_strlit("result ");
    reveal_strlit("error ");
    let s = resp_text(rv);
    match rv {
        RespView::StatusOk { uptime_seconds, events_processed, db_size } => {
            let l1 = "status_ok uptime="@;
            let r1 = dec_rep(uptime_seconds as nat);
            let l2 = " events="@;
            let r2 = dec_rep(events_processed as nat);
            let l3 = " baseline="@;
            let r3 = dec_rep(db_size as nat);
            assert(s == l1 + r1 + l2 + r2 + l3 + r3);
            assert(s.subrange(0, s.len() as int) =~= s);
            lemma_subrange_concat(s, 0, l1 + r1 + l2 + r2 + l3, r3);
            lemma_subrange_concat(s, 0, l1 + r1 + l2 + r2, l3);
            lemma_subrange_concat(s, 0, l1 + r1 + l2, r2);
            lemma_subrange_concat(s, 0, l1 + r1, l2);
            lemma_subrange_concat(s, 0, l1, r1);
            assert(p_lit(s, 0, l1) == Some(l1.len() as int));
            let p1 = l1.len() as int;
            assert(s[p1 + r1.len()] == ' ') by {
                assert(s.subrange(p1 + r1.len() as int, p1 + r1.len() + l2.len())[0] == l2[0]);
            }
            lemma_p_dec_at(s, p1, uptime_seconds as nat);
            let p2 = p1 + r1.len() as int;
            assert(p_lit(s, p2, l2) == Some(p2 + l2.len() as int));
            let p3 = p2 + l2.len() as int;
            assert(s[p3 + r2.len()] == ' ') by {
                assert(s.subrange(p3 + r2.len() as int, p3 + r2.len() + l3.len())[0] == l3[0]);
            }
            lemma_p_dec_at(s, p3, events_processed as nat);
            let p4 = p3 + r2.len() as int;
            assert(p_lit(s, p4, l3) == Some(p4 + l3.len() as int));
            let p5 = p4 + l3.len() as int;
            lemma_p_dec_at(s, p5, db_size as nat);
        },
        RespView::AnomaliesList(l) => {
            let l1 = "anomalies n="@;
            let r1 = dec_rep(l.len());
            let recs = enc_records(l);
            assert(s == l1 + r1 + recs);
            assert(s.subrange(0, s.len() as int) =~= s);
            lemma_subrange_concat(s, 0, l1 + r1, recs);
            lemma_subrange_concat(s, 0, l1, r1);
            assert(s[0] == 'a') by {
                assert(s.subrange(0, l1.len() as int)[0] == l1[0]);
            }
            assert(p_lit(s, 0, "status_ok uptime="@) is None) by {
                if p_lit(s, 0, "status_ok uptime="@) is Some {
                    assert(s.subrange(0, 17)[0] == "status_ok uptime="@[0]);
                }
            }
            assert(p_lit(s, 0, l1) == Some(l1.len() as int));
            let p1 = l1.len() as int;
            let p2 = p1 + r1.len() as int;
            if l.len() == 0 {
                assert(recs.len() == 0);
                assert(p2 == s.len());
            } else {
                assert(s[p2] == ' ') by {
                    assert(recs[0] == ' ') by {
                        assert(recs == seq![' '] + enc_record(l.first()) + enc_records(
                            l.drop_first(),
                        ));
                    }
                    assert(s.subrange(p2, p2 + recs.len() as int)[0] == recs[0]);
                }
            }
            lemma_p_dec_at(s, p1, l.len());
            lemma_p_records_at(s, p2, l);
        },
        RespView::InvestigationResult(t) => {
            let l1 = "result "@;
            let enc = enc_str(t);
            assert(s == l1 + enc);
            assert(s.subrange(0, s.len() as int) =~= s);
            lemma_subrange_concat(s, 0, l1, enc);
            assert(s[0] == 'r') by {
                assert(s.subrange(0, l1.len() as int)[0] == l1[0]);
            }
            assert(p_lit(s, 0, "status_ok uptime="@) is None) by {
                if p_lit(s, 0, "status_ok uptime="@) is Some {
                    assert(s.subrange(0, 17)[0] == "status_ok uptime="@[0]);
                }
            }
            assert(p_lit(s, 0, "anomalies n="@) is None) by {
                if p_lit(s, 0, "anomalies n="@) is Some {
                    assert(s.subrange(0, 12)[0] == "anomalies n="@[0]);
                }
            }
            assert(p_lit(s, 0, l1) == Some(l1.len() as int));
            lemma_p_lenstr_at(s, l1.len() as int, t);
        },
        RespView::Error(t) => {
            let l1 = "error "@;
            let enc = enc_str(t);
            assert(s == l1 + enc);
            assert(s.subrange(0, s.len() as int) =~= s);
            lemma_subrange_concat(s, 0, l1, enc);
            assert(s[0] == 'e') by {
                assert(s.subrange(0, l1.len() as int)[0] == l1[0]);
            }
            assert(p_lit(s, 0, "status_ok uptime="@) is None) by {
                if p_lit(s, 0, "status_ok uptime="@) is Some {
                    assert(s.subrange(0, 17)[0] == "status_ok uptime="@[0]);
                }
            }
            assert(p_lit(s, 0, "anomalies n="@) is None) by {
                if p_lit(s, 0, "anomalies n="@) is Some {
                    assert(s.subrange(0, 12)[0] == "anomalies n="@[0]);
                }
            }
            assert(p_lit(s, 0, "result "@) is None) by {
                if p_lit(s, 0, "result "@) is Some {
                    assert(s.subrange(0, 7)[0] == "result "@[0]);
                }
            }
            assert(p_lit(s, 0, l1) == Some(l1.len() as int));
            lemma_p_lenstr_at(s, l1.len() as int, t);
        },
    }
}

/// What `p_record` accepts at `pos` is the wire text of its record.
#[verifier::rlimit(100)]
proof fn lemma_p_record_sound(s: Seq<char>, pos: int)
    requires
        p_record(s, pos) is Some,
    ensures
        ({
            let (rv, e) = p_record(s, pos).unwrap();
            &&& pos < e <= s.len()
            &&& wire_ok(rv)
            &&& s.subrange(pos, e) == enc_record(rv)
        }),
{
    let p1 = p_lit(s, pos, "id="@).unwrap();
    let (id, p2) = p_lenstr(s, p1).unwrap();
    let p3 = p_lit(s, p2, " ts="@).unwrap();
    let (ts, p4) = p_dec(s, p3).unwrap();
    let p5 = p_lit(s, p4, " pid="@).unwrap();
    let (pid, p6) = p_dec(s, p5).unwrap();
    let p7 = p_lit(s, p6, " cmd="@).unwrap();
    let (cmd, p8) = p_lenstr(s, p7).unwrap();
    let p9 = p_lit(s, p8, " score="@).unwrap();
    let (score, p10) = p_sdec(s, p9).unwrap();
    let p11 = p_lit(s, p10, " raw="@).unwrap();
    let (raw, p12) = p_lenstr(s, p11).unwrap();
    lemma_p_lenstr_sound(s, p1);
    lemma_p_dec_sound(s, p3);
    lemma_p_dec_sound(s, p5);
    lemma_p_lenstr_sound(s, p7);
    lemma_p_sdec_sound(s, p9);
    lemma_p_lenstr_sound(s, p11);
    let (rv, e) = p_record(s, pos).unwrap();
    assert(rv.pid as nat == pid as nat);
    assert(s.subrange(pos, p2) =~= "id="@ + enc_str(id));
    assert(s.subrange(pos, p3) =~= s.subrange(pos, p2) + " ts="@);
    assert(s.subrange(pos, p4) =~= s.subrange(pos, p3) + dec_rep(ts as nat));
    assert(s.subrange(pos, p5) =~= s.subrange(pos, p4) + " pid="@);
    assert(s.subrange(pos, p6) =~= s.subrange(pos, p5) + dec_rep(pid as nat));
    assert(s.subrange(pos, p7) =~= s.subrange(pos, p6) + " cmd="@);
    assert(s.subrange(pos, p8) =~= s.subrange(pos, p7) + enc_str(cmd));
    assert(s.subrange(pos, p9) =~= s.subrange(pos, p8) + " score="@);
    assert(s.subrange(pos, p10) =~= s.subrange(pos, p9) + dec_rep_signed(score as int));
    assert(s.subrange(pos, p11) =~= s.subrange(pos, p10) + " raw="@);
    assert(s.subrange(pos, p12) =~= s.subrange(pos, p11) + enc_str(raw));
    assert(s.subrange(pos, e) == enc_record(rv));
}

/// What `p_records` accepts at `pos` is the wire text of its record list.
proof fn lemma_p_records_sound(s: Seq<char>, pos: int, n: int)
    requires
        p_records(s, pos, n) is Some,
        0 <= pos <= s.len(),
    ensures
        ({
            let (l, e) = p_records(s, pos, n).unwrap();
            &&& pos <= e <= s.len()
            &&& (forall|i: int| 0 <= i < l.len() ==> wire_ok(#[trigger] l[i]))
            &&& s.subrange(pos, e) == enc_records(l)
        }),
    decreases n,
{
    reveal_strlit(" ");
    if n <= 0 {
        assert(s.subrange(pos, pos) =~= enc_records(Seq::<ReportView>::empty()));
    } else {
        let p1 = p_lit(s, pos, " "@).unwrap();
        let (rv, p2) = p_record(s, p1).unwrap();
        let (rest, e) = p_records(s, p2, n - 1).unwrap();
        lemma_p_record_sound(s, p1);
        lemma_p_records_sound(s, p2, n - 1);
        let l = seq![rv] + rest;
        assert(l.first() == rv);
        assert(l.drop_first() =~= rest);
        assert(enc_records(l) == seq![' '] + enc_record(rv) + enc_records(rest));
        assert(s.subrange(pos, p1) == " "@);
        assert(" "@ =~= seq![' ']);
        assert(s.subrange(pos, e) =~= s.subrange(pos, p1) + s.subrange(p1, p2) + s.subrange(
            p2,
            e,
        ));
        assert(forall|i: int| 0 <= i < l.len() ==> wire_ok(#[trigger] l[i])) by {
            assert(forall|i: int| 1 <= i < l.len() ==> l[i] == rest[i - 1]);
            assert(l[0] == rv);
        }
    }
}

/// Only the wire text of a response parses as that response.
#[verifier::rlimit(100)]
pub proof fn lemma_resp_sound(s: Seq<char>)
    requires
        p_response(s) is Some,
    ensures
        s == resp_text(p_response(s).unwrap()),
{
    if p_lit(s, 0, "status_ok uptime="@) is Some {
        let l1 = "status_ok uptime="@;
        let e0 = l1.len() as int;
        let (u, e1) = p_dec(s, e0).unwrap();
        let e2 = p_lit(s, e1, " events="@).unwrap();
        let (ev, e3) = p_dec(s, e2).unwrap();
        let e4 = p_lit(s, e3, " baseline="@).unwrap();
        let (d, e5) = p_dec(s, e4).unwrap();
        lemma_p_dec_sound(s, e0);
        lemma_p_dec_sound(s, e2);
        lemma_p_dec_sound(s, e4);
        assert(s =~= l1 + dec_rep(u as nat) + " events="@ + dec_rep(ev as nat) + " baseline="@
            + dec_rep(d as nat));
    } else if p_lit(s, 0, "anomalies n="@) is Some {
        let l1 = "anomalies n="@;
        let e0 = l1.len() as int;
        let (n, e1) = p_dec(s, e0).unwrap();
        let (l, e2) = p_records(s, e1, n as int).unwrap();
        lemma_p_dec_sound(s, e0);
        lemma_p_records_sound(s, e1, n as int);
        assert(l.len() == n as nat) by {
            lemma_p_records_len(s, e1, n as int);
        }
        assert(s =~= l1 + dec_rep(n as nat) + enc_records(l));
    } else if p_lit(s, 0, "result "@) is Some {
        let l1 = "result "@;
        let (t, e2) = p_lenstr(s, l1.len() as int).unwrap();
        lemma_p_lenstr_sound(s, l1.len() as int);
        assert(s =~= l1 + enc_str(t));
    } else {
        let l1 = "error "@;
        let (t, e2) = p_lenstr(s, l1.len() as int).unwrap();
        lemma_p_lenstr_sound(s, l1.len() as int);
        assert(s =~= l1 + enc_str(t));
    }
}

/// A parsed record list has exactly the asked-for length.
proof fn lemma_p_records_len(s: Seq<char>, pos: int, n: int)
    requires
        p_records(s, pos, n) is Some,
    ensures
        p_records(s, pos, n).unwrap().0.len() == if n <= 0 {
            0int
        } else {
            n
        },
    decreases n,
{
    if n > 0 {
        let p1 = p_lit(s, pos, " "@).unwrap();
        let (rv, p2) = p_record(s, p1).unwrap();
        lemma_p_records_len(s, p2, n - 1);
    }
}

} // verus!
