//! The record emitted for a flagged event, and its mathematical view.

use vstd::prelude::*;

verus! {

/// A flagged process-execution event. `similarity_score` is fixed-point:
/// `vector::SCALE` stands for a similarity of 1.0.
pub struct AnomalyReport {
    /// Unique identifier of the record.
    pub id: String,
    /// Unix seconds at detection time.
    pub timestamp: u64,
    /// Process id parsed from the event line.
    pub pid: u32,
    /// The command the event reported.
    pub command: String,
    /// Fixed-point cosine similarity against the baseline entry.
    pub similarity_score: i64,
    /// The decoded event line the record was built from.
    pub raw_log: String,
}

/// The mathematical content of an `AnomalyReport`.
pub ghost struct ReportView {
    pub id: Seq<char>,
    pub timestamp: u64,
    pub pid: u32,
    pub command: Seq<char>,
    pub similarity_score: i64,
    pub raw_log: Seq<char>,
}

impl View for AnomalyReport {
    type V = ReportView;

    open spec fn view(&self) -> ReportView {
        ReportView {
            id: self.id@,
            timestamp: self.timestamp,
            pid: self.pid,
            command: self.command@,
            similarity_score: self.similarity_score,
            raw_log: self.raw_log@,
        }
    }
}

impl AnomalyReport {
    /// A copy with the same content.
    pub fn duplicate(&self) -> (r: AnomalyReport)
        ensures
            r@ == self@,
    {
        AnomalyReport {
            id: self.id.clone(),
            timestamp: self.timestamp,
            pid: self.pid,
            command: self.command.clone(),
            similarity_score: self.similarity_score,
            raw_log: self.raw_log.clone(),
        }
    }
}

} // verus!
