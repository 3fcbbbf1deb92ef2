//! Control protocol messages and the server's dispatch logic.
//!
//! A connection carries one request and one response. Dispatch is pure:
//! given the request, a snapshot of the anomaly log, and the daemon's
//! counters, it either produces the reply directly or asks the caller to
//! run an investigation with a fully built prompt. The remote call itself
//! happens outside the library; `investigation_response` turns its outcome
//! back into a reply.

use vstd::prelude::*;
use crate::anomalies::{AnomalyStore, resolves_to, tail_spec, views_of};
use crate::numfmt::{dec_rep, score_text, format_score, u64_to_dec};
use crate::report::{AnomalyReport, ReportView};

verus! {

/// All requests the control client can send.
pub enum DaemonRequest {
    /// Health and counters.
    Status,
    /// The most recent anomalies.
    GetAnomalies { tail: usize },
    /// A natural-language analysis of one anomaly.
    Investigate { id: String },
}

/// All responses the daemon can send back.
pub enum DaemonResponse {
    /// Daemon is healthy and reporting stats.
    StatusOk { uptime_seconds: u64, events_processed: u64, db_size: usize },
    /// A list of anomaly records.
    AnomaliesList(Vec<AnomalyReport>),
    /// The analyzer's plain-text analysis.
    InvestigationResult(String),
    /// Something went wrong on the daemon side.
    Error(String),
}

/// What the server must do for a request: reply at once, or run the
/// investigation the prompt describes and reply with its outcome.
pub enum ServerAction {
    Reply(DaemonResponse),
    RunInvestigation { prompt: String },
}

/// The forensic prompt built from a record's fields.
pub open spec fn prompt_spec(rv: ReportView) -> Seq<char> {
    "You are a strict Linux kernel security analyzer. Analyze the intercepted process execution below and explain the threat.\nCommand: "@
        + rv.command + "\nPid: "@ + dec_rep(rv.pid as nat) + "\nTimestamp: "@ + dec_rep(
        rv.timestamp as nat,
    ) + "\nSimilarity score: "@ + score_text(rv.similarity_score) + "\nRaw log: "@ + rv.raw_log
        + "\nOnly analyze the exact characters present. Be concise and factual.\nProvide your forensic analysis now."@
}

/// Builds the forensic prompt for one record.
pub fn build_security_prompt(rep: &AnomalyReport) -> (s: String)
    ensures
        s@ == prompt_spec(rep@),
{
    let mut s = String::from_str(
        "You are a strict Linux kernel security analyzer. Analyze the intercepted process execution below and explain the threat.\nCommand: ",
    );
    s.append(rep.command.as_str());
    s.append("\nPid: ");
    s.append(u64_to_dec(rep.pid as u64).as_str());
    s.append("\nTimestamp: ");
    s.append(u64_to_dec(rep.timestamp).as_str());
    s.append("\nSimilarity score: ");
    s.append(format_score(rep.similarity_score).as_str());
    s.append("\nRaw log: ");
    s.append(rep.raw_log.as_str());
    s.append("\nOnly analyze the exact characters present. Be concise and factual.\nProvide your forensic analysis now.");
    proof {
        assert(s@ =~= prompt_spec(rep@));
    }
    s
}

/// Dispatches one decoded request against the anomaly log and counters.
pub fn process_request(
    req: &DaemonRequest,
    store: &AnomalyStore,
    uptime_seconds: u64,
    events_processed: u64,
    db_size: usize,
) -> (a: ServerAction)
    ensures
        match *req {
            DaemonRequest::Status => a == ServerAction::Reply(
                DaemonResponse::StatusOk { uptime_seconds, events_processed, db_size },
            ),
            DaemonRequest::GetAnomalies { tail } => match a {
                ServerAction::Reply(DaemonResponse::AnomaliesList(list)) => views_of(list@)
                    == tail_spec(store@, tail as int),
                _ => false,
            },
            DaemonRequest::Investigate { .. } => match a {
                ServerAction::RunInvestigation { prompt } => exists|rv: ReportView|
                    resolves_to(store@, req.investigate_id(), rv) && prompt@ == prompt_spec(rv),
                ServerAction::Reply(DaemonResponse::Error(_)) => store@.len() == 0,
                _ => false,
            },
        },
{
    match req {
        DaemonRequest::Status => ServerAction::Reply(
            DaemonResponse::StatusOk { uptime_seconds, events_processed, db_size },
        ),
        DaemonRequest::GetAnomalies { tail } => ServerAction::Reply(
            DaemonResponse::AnomaliesList(store.snapshot_tail(*tail)),
        ),
        DaemonRequest::Investigate { id } => match store.find_for_investigation(id.as_str()) {
            Some(rep) => ServerAction::RunInvestigation { prompt: build_security_prompt(&rep) },
            None => ServerAction::Reply(
                DaemonResponse::Error(String::from_str("no anomalies recorded")),
            ),
        },
    }
}

impl DaemonRequest {
    /// The id field of an investigation request (empty otherwise).
    pub open spec fn investigate_id(&self) -> Seq<char> {
        match *self {
            DaemonRequest::Investigate { id } => id@,
            _ => Seq::<char>::empty(),
        }
    }
}

/// Serves one connection's request text: malformed bytes get an `Error`
/// reply (and touch nothing else), well-formed requests are dispatched.
pub fn handle_request_line(
    line: &str,
    store: &AnomalyStore,
    uptime_seconds: u64,
    events_processed: u64,
    db_size: usize,
) -> (a: ServerAction)
    ensures
        match crate::codec::p_request(line@) {
            None => match a {
                ServerAction::Reply(DaemonResponse::Error(m)) => m@ == "invalid request"@,
                _ => false,
            },
            Some(rv) => match rv {
                crate::codec::ReqView::Status => a == ServerAction::Reply(
                    DaemonResponse::StatusOk { uptime_seconds, events_processed, db_size },
                ),
                crate::codec::ReqView::GetAnomalies { tail } => match a {
                    ServerAction::Reply(DaemonResponse::AnomaliesList(list)) => views_of(list@)
                        == tail_spec(store@, tail as int),
                    _ => false,
                },
                crate::codec::ReqView::Investigate { id } => match a {
                    ServerAction::RunInvestigation { prompt } => exists|rv2: ReportView|
                        resolves_to(store@, id, rv2) && prompt@ == prompt_spec(rv2),
                    ServerAction::Reply(DaemonResponse::Error(_)) => store@.len() == 0,
                    _ => false,
                },
            },
        },
{
    match crate::codec::parse_request(line) {
        Some(req) => process_request(&req, store, uptime_seconds, events_processed, db_size),
        None => ServerAction::Reply(DaemonResponse::Error(String::from_str("invalid request"))),
    }
}

/// Turns the outcome of the external analysis call into the reply: its
/// text on success, the fixed failure notice otherwise.
pub fn investigation_response(result: Option<String>) -> (resp: DaemonResponse)
    ensures
        match resp {
            DaemonResponse::InvestigationResult(t) => result is Some && t@ == result.unwrap()@,
            DaemonResponse::Error(m) => result is None && m@ == "LLM Analysis failed."@,
            _ => false,
        },
{
    match result {
        Some(text) => DaemonResponse::InvestigationResult(text),
        None => DaemonResponse::Error(String::from_str("LLM Analysis failed.")),
    }
}

} // verus!
