//! The scoring engine: parses a decoded event line, checks the command's
//! vector against the baseline, always overwrites the baseline entry with
//! the newly observed vector, and emits a report for anomalous events.

use vstd::prelude::*;
use crate::baseline::{VectorStore, check_spec};
use crate::numfmt::{is_dec, dec_val};
use crate::report::AnomalyReport;
use crate::vector::{EmbedVector, SCALE};

verus! {

/// First index at or after `i` where a space ends the token (the line's
/// length when none does).
pub open spec fn token_end(s: Seq<char>, i: int) -> int
    decreases s.len() - i,
{
    if i < 0 || i >= s.len() {
        s.len() as int
    } else if s[i] == ' ' {
        i
    } else {
        token_end(s, i + 1)
    }
}

/// Whether a token begins at `i`: a non-space either at the start of the
/// line or right after a space.
pub open spec fn word_start(s: Seq<char>, i: int) -> bool {
    &&& 0 <= i < s.len()
    &&& s[i] != ' '
    &&& (i == 0 || s[i - 1] == ' ')
}

/// Whether the token at `i` starts with `key`.
pub open spec fn token_match(s: Seq<char>, i: int, key: Seq<char>) -> bool {
    &&& i + key.len() <= token_end(s, i)
    &&& s.subrange(i, i + key.len() as int) == key
}

/// Scanning from `i`: the remainder of the first token that starts with
/// `key`, with the key removed.
pub open spec fn extract_from(s: Seq<char>, key: Seq<char>, i: int) -> Option<Seq<char>>
    decreases s.len() - i,
{
    if i < 0 || i >= s.len() {
        None
    } else if word_start(s, i) && token_match(s, i, key) {
        Some(s.subrange(i + key.len() as int, token_end(s, i)))
    } else {
        extract_from(s, key, i + 1)
    }
}

/// The value carried by the first space-separated token of `s` that starts
/// with `key`, with the key prefix removed.
pub open spec fn extract_value_spec(s: Seq<char>, key: Seq<char>) -> Option<Seq<char>> {
    extract_from(s, key, 0)
}

/// The process id a line reports: the decimal value of its `pid=` token,
/// or 0 when the token is missing or not a `u32`.
pub open spec fn pid_of_log(s: Seq<char>) -> u32 {
    match extract_value_spec(s, "pid="@) {
        Some(tok) => if is_dec(tok) && dec_val(tok) <= u32::MAX {
            dec_val(tok) as u32
        } else {
            0u32
        },
        None => 0u32,
    }
}

/// The command a line reports: its `comm=` token's value, or the literal
/// `unknown` when the token is missing.
pub open spec fn command_of_log(s: Seq<char>) -> Seq<char> {
    match extract_value_spec(s, "comm="@) {
        Some(tok) => tok,
        None => "unknown"@,
    }
}

/// `token_end` really is the position of the first space at or after `i`.
pub proof fn lemma_token_end(s: Seq<char>, i: int)
    requires
        0 <= i <= s.len(),
    ensures
        i <= token_end(s, i) <= s.len(),
        forall|k: int| i <= k < token_end(s, i) ==> s[k] != ' ',
        token_end(s, i) < s.len() ==> s[token_end(s, i)] == ' ',
    decreases s.len() - i,
{
    if i < s.len() && s[i] != ' ' {
        lemma_token_end(s, i + 1);
    }
}

/// The position of the first space at or after `i` determines `token_end`.
pub proof fn lemma_token_end_unique(s: Seq<char>, i: int, e: int)
    requires
        0 <= i <= e <= s.len(),
        forall|k: int| i <= k < e ==> s[k] != ' ',
        e < s.len() ==> s[e] == ' ',
    ensures
        token_end(s, i) == e,
    decreases e - i,
{
    if i < e {
        lemma_token_end_unique(s, i + 1, e);
    }
}

/// Scanning passes over a stretch with no matching token start.
pub proof fn lemma_extract_skip(s: Seq<char>, key: Seq<char>, i: int, j: int)
    requires
        0 <= i <= j <= s.len(),
        forall|k: int| i <= k < j ==> !(word_start(s, k) && token_match(s, k, key)),
    ensures
        extract_from(s, key, i) == extract_from(s, key, j),
    decreases j - i,
{
    if i < j {
        lemma_extract_skip(s, key, i + 1, j);
    }
}

/// First index at or after `i` holding a space, or the line's length.
fn token_end_exec(s: &str, i: usize) -> (e: usize)
    requires
        i <= s@.len(),
    ensures
        e as int == token_end(s@, i as int),
        i <= e <= s@.len(),
    decreases s@.len() - i,
{
    proof {
        lemma_token_end(s@, i as int);
    }
    if i == s.unicode_len() {
        i
    } else if s.get_char(i) == ' ' {
        i
    } else {
        token_end_exec(s, i + 1)
    }
}

/// Whether the token at `i` starts with `key`.
fn key_match_at(s: &str, i: usize, key: &str) -> (b: bool)
    requires
        i <= s@.len(),
    ensures
        b == token_match(s@, i as int, key@),
{
    let e: usize = token_end_exec(s, i);
    let klen: usize = key.unicode_len();
    if e - i < klen {
        proof {
            assert(!token_match(s@, i as int, key@));
        }
        return false;
    }
    let mut j: usize = 0;
    while j < klen
        invariant
            j <= klen,
            klen == key@.len(),
            i <= e <= s@.len(),
            i + klen <= e,
            e as int == token_end(s@, i as int),
            forall|k: int| 0 <= k < j ==> s@[i + k] == key@[k],
        decreases klen - j,
    {
        if s.get_char(i + j) != key.get_char(j) {
            proof {
                assert(s@.subrange(i as int, i + klen)[j as int] != key@[j as int]);
            }
            return false;
        }
        j = j + 1;
    }
    proof {
        assert(s@.subrange(i as int, i + klen) =~= key@);
    }
    true
}

/// Finds the first space-separated token of `log` that starts with `key`
/// and returns the rest of that token after the key prefix.
pub fn extract_value(log: &str, key: &str) -> (r: Option<String>)
    ensures
        match r {
            Some(v) => extract_value_spec(log@, key@) == Some(v@),
            None => extract_value_spec(log@, key@) is None,
        },
{
    let n: usize = log.unicode_len();
    let klen: usize = key.unicode_len();
    let mut i: usize = 0;
    let mut prev_space: bool = true;
    while i < n
        invariant
            i <= n,
            n == log@.len(),
            klen == key@.len(),
            prev_space == (i == 0 || log@[i - 1] == ' '),
            extract_from(log@, key@, 0) == extract_from(log@, key@, i as int),
        decreases n - i,
    {
        let c: char = log.get_char(i);
        if c != ' ' && prev_space {
            if key_match_at(log, i, key) {
                let e: usize = token_end_exec(log, i);
                let from: usize = i + klen;
                let sub: &str = log.substring_char(from, e);
                let v: String = sub.to_owned();
                proof {
                    assert(word_start(log@, i as int));
                    assert(extract_from(log@, key@, i as int) == Some(
                        log@.subrange(from as int, e as int),
                    ));
                }
                return Some(v);
            }
        }
        prev_space = c == ' ';
        i = i + 1;
    }
    None
}

/// Process id of a decoded line (0 when absent or malformed).
pub fn parse_pid(log: &str) -> (pid: u32)
    ensures
        pid == pid_of_log(log@),
{
    match extract_value(log, "pid=") {
        Some(tok) => {
            let len: usize = tok.as_str().unicode_len();
            proof {
                assert(tok@.subrange(0, len as int) =~= tok@);
            }
            match crate::numfmt::parse_u64_range(tok.as_str(), 0, len) {
                Some(v) => {
                    if v <= u32::MAX as u64 {
                        v as u32
                    } else {
                        0
                    }
                },
                None => 0,
            }
        },
        None => 0,
    }
}

/// Relies on `uuid::Uuid::new_v4` and its hyphenated `Display` form: a
/// fresh random identifier, rendered as 36 characters.
#[verifier::external_body]
fn new_id() -> (r: String)
    ensures
        r@.len() == 36,
{
    uuid::Uuid::new_v4().to_string()
}

/// Relies on `std::time::SystemTime::now` and
/// `duration_since(std::time::UNIX_EPOCH)`: whole seconds of the system
/// clock since the Unix epoch, 0 when the clock reads earlier than the
/// epoch.
#[verifier::external_body]
pub fn current_timestamp() -> (r: u64)
{
    match std::time::SystemTime::now().duration_since(std::time::UNIX_EPOCH) {
        Ok(d) => d.as_secs(),
        Err(_) => 0,
    }
}

/// The engine: the per-command baseline plus the count of events processed.
pub struct RagEngine {
    pub store: VectorStore,
    pub events_processed: u64,
}

impl RagEngine {
    /// A fresh engine with an empty baseline and the given fixed-point
    /// anomaly threshold.
    pub fn new(threshold: i64) -> (e: RagEngine)
        ensures
            e.store.wf(),
            e.store@ == Map::<Seq<char>, Seq<i64>>::empty(),
            e.store.anomaly_threshold == threshold,
            e.events_processed == 0,
    {
        RagEngine { store: VectorStore::new(threshold), events_processed: 0 }
    }

    /// Seeds the baseline with a known-benign command before any events are
    /// processed; does not count as an event.
    pub fn seed_baseline(&mut self, command: &str, vector: EmbedVector)
        requires
            old(self).store.wf(),
            vector.wf(),
        ensures
            final(self).store.wf(),
            final(self).store@ == old(self).store@.insert(command@, vector@),
            final(self).store.anomaly_threshold == old(self).store.anomaly_threshold,
            final(self).events_processed == old(self).events_processed,
    {
        self.store.add_to_baseline(command, vector);
    }

    /// Processes one decoded event line whose command embeds to `vector`:
    /// parses `pid=` and `comm=` tokens, classifies the command against the
    /// baseline (an unseen command is always anomalous with score 0), then
    /// overwrites the command's baseline entry with `vector` whatever the
    /// decision was, and counts the event. Returns a report exactly when the
    /// event is anomalous.
    pub fn process_log(&mut self, raw_log: &str, vector: EmbedVector) -> (r: Option<
        AnomalyReport,
    >)
        requires
            old(self).store.wf(),
            vector.wf(),
            old(self).events_processed < u64::MAX,
        ensures
            final(self).store.wf(),
            final(self).store@ == old(self).store@.insert(command_of_log(raw_log@), vector@),
            final(self).store.anomaly_threshold == old(self).store.anomaly_threshold,
            final(self).events_processed == old(self).events_processed + 1,
            ({
                let chk = check_spec(
                    old(self).store@,
                    old(self).store.anomaly_threshold,
                    command_of_log(raw_log@),
                    vector@,
                );
                match r {
                    Some(rep) => {
                        &&& chk.0
                        &&& rep.similarity_score as int == chk.1
                        &&& -SCALE <= rep.similarity_score <= SCALE
                        &&& rep.command@ == command_of_log(raw_log@)
                        &&& rep.pid == pid_of_log(raw_log@)
                        &&& rep.raw_log@ == raw_log@
                        &&& rep.id@.len() == 36
                    },
                    None => !chk.0,
                }
            }),
    {
        let command: String = match extract_value(raw_log, "comm=") {
            Some(c) => c,
            None => String::from_str("unknown"),
        };
        let pid: u32 = parse_pid(raw_log);
        let (is_anomaly, score) = self.store.check_anomaly(command.as_str(), &vector);
        self.store.add_to_baseline(command.as_str(), vector);
        self.events_processed = self.events_processed + 1;
        if is_anomaly {
            Some(
                AnomalyReport {
                    id: new_id(),
                    timestamp: current_timestamp(),
                    pid,
                    command,
                    similarity_score: score,
                    raw_log: raw_log.to_owned(),
                },
            )
        } else {
            None
        }
    }
}

} // verus!
