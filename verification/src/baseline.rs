//! The per-command baseline: one representative embedding vector per
//! distinct command, with last-write-wins updates.
//!
//! The store is viewed as a map from command text to vector contents. An
//! unseen command always checks as anomalous with similarity 0 (cold-start
//! policy); a seen command is anomalous exactly when its cosine similarity
//! against the baseline entry falls below the threshold.

use vstd::prelude::*;
use crate::vector::{EmbedVector, SCALE, sim_spec, cosine_similarity};

verus! {

/// Holds the baseline entries and the anomaly threshold (fixed-point, a
/// score of `SCALE` standing for 1.0).
pub struct VectorStore {
    pub baseline: Vec<(String, EmbedVector)>,
    pub anomaly_threshold: i64,
}

/// The map described by an entry list: later entries win.
pub open spec fn map_of(entries: Seq<(String, EmbedVector)>) -> Map<Seq<char>, Seq<i64>>
    decreases entries.len(),
{
    if entries.len() == 0 {
        Map::empty()
    } else {
        map_of(entries.drop_last()).insert(entries.last().0@, entries.last().1@)
    }
}

/// No command occurs twice in the entry list.
pub open spec fn distinct_keys(entries: Seq<(String, EmbedVector)>) -> bool {
    forall|i: int, j: int|
        0 <= i < j < entries.len() ==> #[trigger] entries[i].0@ != #[trigger] entries[j].0@
}

/// What a baseline check reports for command `cmd` with new vector `v`:
/// whether the event is anomalous, and the similarity score.
pub open spec fn check_spec(
    m: Map<Seq<char>, Seq<i64>>,
    tau: i64,
    cmd: Seq<char>,
    v: Seq<i64>,
) -> (bool, int) {
    if !m.contains_key(cmd) {
        (true, 0)
    } else {
        let s = sim_spec(m[cmd], v);
        (s < tau, s)
    }
}

/// Cold-start policy: a command the baseline has never seen always checks
/// as anomalous, with similarity reported as 0 — for every threshold and
/// every observed vector.
pub proof fn lemma_cold_start(m: Map<Seq<char>, Seq<i64>>, tau: i64, cmd: Seq<char>, v: Seq<i64>)
    requires
        !m.contains_key(cmd),
    ensures
        check_spec(m, tau, cmd, v) == (true, 0int),
{
}

impl View for VectorStore {
    type V = Map<Seq<char>, Seq<i64>>;

    open spec fn view(&self) -> Map<Seq<char>, Seq<i64>> {
        map_of(self.baseline@)
    }
}

impl VectorStore {
    /// Well-formed: distinct command keys, well-formed vectors.
    pub open spec fn wf(&self) -> bool {
        &&& distinct_keys(self.baseline@)
        &&& forall|i: int| 0 <= i < self.baseline@.len() ==> (#[trigger] self.baseline@[i].1).wf()
    }

    /// An empty baseline with the given anomaly threshold.
    pub fn new(threshold: i64) -> (s: VectorStore)
        ensures
            s.wf(),
            s@ == Map::<Seq<char>, Seq<i64>>::empty(),
            s.anomaly_threshold == threshold,
    {
        VectorStore { baseline: Vec::new(), anomaly_threshold: threshold }
    }

    /// Index of the entry for `cmd`, if one exists.
    fn find(&self, command: &String) -> (r: Option<usize>)
        requires
            self.wf(),
        ensures
            match r {
                Some(i) => {
                    &&& i < self.baseline@.len()
                    &&& self.baseline@[i as int].0@ == command@
                },
                None => forall|i: int|
                    0 <= i < self.baseline@.len() ==> self.baseline@[i].0@ != command@,
            },
    {
        let mut i: usize = 0;
        let n: usize = self.baseline.len();
        while i < n
            invariant
                i <= n,
                n == self.baseline@.len(),
                forall|j: int| 0 <= j < i ==> self.baseline@[j].0@ != command@,
            decreases n - i,
        {
            if self.baseline[i].0 == *command {
                return Some(i);
            }
            i = i + 1;
        }
        None
    }

    /// Records `vector` as the baseline for `command`, overwriting any
    /// earlier entry (last-write-wins).
    pub fn add_to_baseline(&mut self, command: &str, vector: EmbedVector)
        requires
            old(self).wf(),
            vector.wf(),
        ensures
            final(self).wf(),
            final(self)@ == old(self)@.insert(command@, vector@),
            final(self).anomaly_threshold == old(self).anomaly_threshold,
    {
        let owned: String = String::from_str(command);
        match self.find(&owned) {
            Some(i) => {
                proof {
                    lemma_map_of_update(self.baseline@, i as int, owned@, vector@);
                }
                self.baseline.set(i, (owned, vector));
            },
            None => {
                proof {
                    lemma_map_of_contains(self.baseline@, owned@);
                    assert(self.baseline@.push((owned, vector)).drop_last() =~= self.baseline@);
                }
                self.baseline.push((owned, vector));
            },
        }
    }

    /// Checks `new_vector` for command `command` against the baseline:
    /// an unseen command is anomalous with score 0; a seen one is anomalous
    /// exactly when its similarity falls below the threshold.
    pub fn check_anomaly(&self, command: &str, new_vector: &EmbedVector) -> (r: (bool, i64))
        requires
            self.wf(),
            new_vector.wf(),
        ensures
            r.0 == check_spec(self@, self.anomaly_threshold, command@, new_vector@).0,
            r.1 as int == check_spec(self@, self.anomaly_threshold, command@, new_vector@).1,
            -SCALE <= r.1 <= SCALE,
    {
        let owned: String = String::from_str(command);
        match self.find(&owned) {
            Some(i) => {
                proof {
                    lemma_map_of_get(self.baseline@, i as int);
                }
                let score = cosine_similarity(&self.baseline[i].1, new_vector);
                (score < self.anomaly_threshold, score)
            },
            None => {
                proof {
                    lemma_map_of_contains(self.baseline@, owned@);
                }
                (true, 0)
            },
        }
    }

    /// Number of distinct commands in the baseline.
    pub fn len(&self) -> (n: usize)
        requires
            self.wf(),
        ensures
            n == self@.dom().len(),
            n == self.baseline@.len(),
    {
        proof {
            lemma_map_of_len(self.baseline@);
        }
        self.baseline.len()
    }
}

/// A key is in the map exactly when some entry carries it.
pub proof fn lemma_map_of_contains(entries: Seq<(String, EmbedVector)>, k: Seq<char>)
    ensures
        map_of(entries).contains_key(k) <==> exists|i: int|
            0 <= i < entries.len() && #[trigger] entries[i].0@ == k,
    decreases entries.len(),
{
    if entries.len() > 0 {
        lemma_map_of_contains(entries.drop_last(), k);
        if entries.last().0@ == k {
            assert(entries[entries.len() - 1].0@ == k);
        } else if map_of(entries).contains_key(k) {
            let i = choose|i: int| 0 <= i < entries.drop_last().len() && #[trigger] entries.drop_last()[i].0@ == k;
            assert(entries[i].0@ == k);
        } else {
            assert forall|i: int| 0 <= i < entries.len() && #[trigger] entries[i].0@ == k implies false by {
                if i < entries.len() - 1 {
                    assert(entries.drop_last()[i].0@ == k);
                }
            }
        }
    }
}

/// With distinct keys, entry `i` is the map's value at its key.
pub proof fn lemma_map_of_get(entries: Seq<(String, EmbedVector)>, i: int)
    requires
        distinct_keys(entries),
        0 <= i < entries.len(),
    ensures
        map_of(entries).contains_key(entries[i].0@),
        map_of(entries)[entries[i].0@] == entries[i].1@,
    decreases entries.len(),
{
    if i == entries.len() - 1 {
    } else {
        assert(entries[i].0@ != entries[entries.len() - 1].0@);
        assert(entries.drop_last()[i] == entries[i]);
        lemma_map_of_get(entries.drop_last(), i);
    }
}

/// Overwriting the entry that carries key `k` inserts into the map.
pub proof fn lemma_map_of_update(
    entries: Seq<(String, EmbedVector)>,
    i: int,
    k: Seq<char>,
    v: Seq<i64>,
)
    requires
        distinct_keys(entries),
        0 <= i < entries.len(),
        entries[i].0@ == k,
    ensures
        forall|p: (String, EmbedVector)|
            p.0@ == k && p.1@ == v ==> map_of(#[trigger] entries.update(i, p)) == map_of(
                entries,
            ).insert(k, v),
    decreases entries.len(),
{
    assert forall|p: (String, EmbedVector)|
        p.0@ == k && p.1@ == v implies map_of(#[trigger] entries.update(i, p)) == map_of(
        entries,
    ).insert(k, v) by {
        let upd = entries.update(i, p);
        if i == entries.len() - 1 {
            assert(upd.drop_last() =~= entries.drop_last());
            assert(upd.last() == p);
            assert(map_of(upd) == map_of(entries.drop_last()).insert(k, v));
            assert(map_of(entries).insert(k, v) =~= map_of(entries.drop_last()).insert(k, v));
        } else {
            assert(upd.drop_last() =~= entries.drop_last().update(i, p));
            assert(upd.last() == entries.last());
            assert(distinct_keys(entries.drop_last())) by {
                assert forall|a: int, b: int|
                    0 <= a < b < entries.drop_last().len() implies #[trigger] entries.drop_last()[a].0@
                    != #[trigger] entries.drop_last()[b].0@ by {
                    assert(entries[a].0@ != entries[b].0@);
                }
            }
            assert(entries.drop_last()[i] == entries[i]);
            lemma_map_of_update(entries.drop_last(), i, k, v);
            assert(map_of(upd) == map_of(entries.drop_last()).insert(k, v).insert(
                entries.last().0@,
                entries.last().1@,
            ));
            assert(entries[i].0@ != entries[entries.len() - 1].0@);
            assert(map_of(entries.drop_last()).insert(k, v).insert(
                entries.last().0@,
                entries.last().1@,
            ) =~= map_of(entries.drop_last()).insert(entries.last().0@, entries.last().1@).insert(
                k,
                v,
            ));
        }
    }
}

/// With distinct keys, the map has exactly one entry per list element.
pub proof fn lemma_map_of_len(entries: Seq<(String, EmbedVector)>)
    requires
        distinct_keys(entries),
    ensures
        map_of(entries).dom().finite(),
        map_of(entries).dom().len() == entries.len(),
    decreases entries.len(),
{
    if entries.len() == 0 {
        assert(map_of(entries).dom() =~= Set::<Seq<char>>::empty());
    } else {
        assert(distinct_keys(entries.drop_last())) by {
            assert forall|a: int, b: int|
                0 <= a < b < entries.drop_last().len() implies #[trigger] entries.drop_last()[a].0@
                != #[trigger] entries.drop_last()[b].0@ by {
                assert(entries[a].0@ != entries[b].0@);
            }
        }
        lemma_map_of_len(entries.drop_last());
        lemma_map_of_contains(entries.drop_last(), entries.last().0@);
        assert(forall|i: int|
            0 <= i < entries.drop_last().len() ==> #[trigger] entries.drop_last()[i].0@
                == entries[i].0@);
        assert(!map_of(entries.drop_last()).contains_key(entries.last().0@)) by {
            if map_of(entries.drop_last()).contains_key(entries.last().0@) {
                let i = choose|i: int|
                    0 <= i < entries.drop_last().len() && #[trigger] entries.drop_last()[i].0@
                        == entries.last().0@;
                assert(entries[i].0@ == entries[entries.len() - 1].0@);
            }
        }
        assert(map_of(entries).dom() =~= map_of(entries.drop_last()).dom().insert(
            entries.last().0@,
        ));
        vstd::set::axiom_set_insert_len(map_of(entries.drop_last()).dom(), entries.last().0@);
    }
}

} // verus!
