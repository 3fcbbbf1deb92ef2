//! The append-only anomaly log: records are only ever added at the end, and
//! a tail snapshot returns the most recent records in insertion order.

use vstd::prelude::*;
use crate::report::{AnomalyReport, ReportView};

verus! {

/// Content of a record sequence.
pub open spec fn views_of(records: Seq<AnomalyReport>) -> Seq<ReportView> {
    records.map_values(|r: AnomalyReport| r@)
}

/// Which record an investigation for `id` resolves to: a record carrying
/// `id` when the log holds one, else the most recent record.
pub open spec fn resolves_to(log: Seq<ReportView>, id: Seq<char>, rv: ReportView) -> bool {
    &&& log.len() > 0
    &&& if exists|i: int| 0 <= i < log.len() && (#[trigger] log[i]).id == id {
        exists|i: int| 0 <= i < log.len() && #[trigger] log[i] == rv && rv.id == id
    } else {
        rv == log.last()
    }
}

/// The most recent `n` elements of `s` (all of them when `s` is shorter),
/// in insertion order.
pub open spec fn tail_spec(s: Seq<ReportView>, n: int) -> Seq<ReportView> {
    if s.len() <= n {
        s
    } else {
        s.subrange(s.len() - n, s.len() as int)
    }
}

/// Append-only log of emitted anomalies.
pub struct AnomalyStore {
    pub records: Vec<AnomalyReport>,
}

impl View for AnomalyStore {
    type V = Seq<ReportView>;

    open spec fn view(&self) -> Seq<ReportView> {
        views_of(self.records@)
    }
}

impl AnomalyStore {
    /// An empty log.
    pub fn new() -> (s: AnomalyStore)
        ensures
            s@ == Seq::<ReportView>::empty(),
    {
        let s = AnomalyStore { records: Vec::new() };
        proof {
            assert(s@ =~= Seq::<ReportView>::empty());
        }
        s
    }

    /// Number of records ever appended.
    pub fn len(&self) -> (n: usize)
        ensures
            n == self@.len(),
    {
        self.records.len()
    }

    /// Appends one record at the end; the log grows by exactly that record,
    /// so its length never decreases.
    pub fn append(&mut self, record: AnomalyReport)
        ensures
            final(self)@ == old(self)@.push(record@),
    {
        self.records.push(record);
        proof {
            assert(self@ =~= old(self)@.push(self.records@.last()@));
        }
    }

    /// The most recent `n` records in insertion order: never more than `n`,
    /// and all of the log when it holds fewer.
    pub fn snapshot_tail(&self, n: usize) -> (tail: Vec<AnomalyReport>)
        ensures
            views_of(tail@) == tail_spec(self@, n as int),
            tail@.len() <= n,
    {
        let len: usize = self.records.len();
        let start: usize = if len <= n {
            0
        } else {
            len - n
        };
        let mut tail: Vec<AnomalyReport> = Vec::new();
        let mut i: usize = start;
        while i < len
            invariant
                start <= i <= len,
                len == self.records@.len(),
                start == if len <= n {
                    0int
                } else {
                    len - n
                },
                tail@.len() == i - start,
                forall|j: int| 0 <= j < tail@.len() ==> #[trigger] tail@[j]@ == self.records@[
                    start + j]@,
            decreases len - i,
        {
            tail.push(self.records[i].duplicate());
            i = i + 1;
        }
        proof {
            assert(views_of(tail@) =~= tail_spec(self@, n as int));
        }
        tail
    }

    /// The record with identifier `id`, if the log holds one; otherwise the
    /// most recent record, if any. This is the record an investigation
    /// request resolves to.
    pub fn find_for_investigation(&self, id: &str) -> (r: Option<AnomalyReport>)
        ensures
            match r {
                Some(rep) => resolves_to(self@, id@, rep@),
                None => self@.len() == 0,
            },
    {
        let len: usize = self.records.len();
        let owned: String = String::from_str(id);
        let mut i: usize = 0;
        while i < len
            invariant
                i <= len,
                len == self.records@.len(),
                owned@ == id@,
                forall|j: int| 0 <= j < i ==> (#[trigger] self@[j]).id != id@,
            decreases len - i,
        {
            if self.records[i].id == owned {
                proof {
                    assert(self@[i as int] == self.records@[i as int]@);
                }
                return Some(self.records[i].duplicate());
            }
            i = i + 1;
        }
        if len > 0 {
            Some(self.records[len - 1].duplicate())
        } else {
            None
        }
    }
}

} // verus!
