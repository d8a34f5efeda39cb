use vstd::prelude::*;
use crate::error::StoreError;

verus! {

/// The largest snapshot id.
pub const MAX_ID: u32 = 4294967295;

/// One captured state: its id, the digest of its manifest and when it was
/// taken, in seconds since the Unix epoch.
pub struct Snapshot {
    pub id: u32,
    pub manifest_digest: String,
    pub created_at: u64,
}

/// Ids are at least one and strictly increasing in order of appending.
pub open spec fn ids_increasing(s: Seq<Snapshot>) -> bool {
    &&& forall|i: int| 0 <= i < s.len() ==> (#[trigger] s[i]).id >= 1
    &&& forall|i: int, j: int| 0 <= i < j < s.len() ==> s[i].id < s[j].id
}

/// The largest id in `s`, or zero when `s` is empty.
pub open spec fn max_id(s: Seq<Snapshot>) -> int
    decreases s.len(),
{
    if s.len() == 0 {
        0
    } else {
        let m = max_id(s.drop_last());
        if s.last().id > m {
            s.last().id as int
        } else {
            m
        }
    }
}

/// The id that the next appended snapshot receives.
pub open spec fn next_id(s: Seq<Snapshot>) -> int {
    max_id(s) + 1
}

/// Whether a snapshot with `id` is recorded in `s`.
pub open spec fn has_id(s: Seq<Snapshot>, id: u32) -> bool {
    exists|i: int| 0 <= i < s.len() && (#[trigger] s[i]).id == id
}

/// In a log with increasing ids the last id is the largest.
pub proof fn lemma_max_id_is_last(s: Seq<Snapshot>)
    requires
        ids_increasing(s),
    ensures
        s.len() == 0 ==> max_id(s) == 0,
        s.len() > 0 ==> max_id(s) == s.last().id,
        forall|i: int| 0 <= i < s.len() ==> (#[trigger] s[i]).id <= max_id(s),
    decreases s.len(),
{
    if s.len() > 0 {
        let t = s.drop_last();
        assert(ids_increasing(t)) by {
            assert forall|i: int| 0 <= i < t.len() implies (#[trigger] t[i]).id >= 1 by {
                assert(t[i] == s[i]);
            }
            assert forall|i: int, j: int| 0 <= i < j < t.len() implies t[i].id < t[j].id by {
                assert(t[i] == s[i] && t[j] == s[j]);
            }
        }
        lemma_max_id_is_last(t);
        if t.len() > 0 {
            assert(t.last() == s[s.len() - 2]);
        }
        assert forall|i: int| 0 <= i < s.len() implies (#[trigger] s[i]).id <= max_id(s) by {
            if i < s.len() - 1 {
                assert(s[i] == t[i]);
            }
        }
    }
}

/// The append-only log of snapshots, ascending by id.
pub struct History {
    snapshots: Vec<Snapshot>,
}

impl View for History {
    type V = Seq<Snapshot>;

    closed spec fn view(&self) -> Seq<Snapshot> {
        self.snapshots@
    }
}

impl History {
    /// The log's invariant: ids are at least one and strictly increasing.
    pub closed spec fn wf(&self) -> bool {
        ids_increasing(self.snapshots@)
    }

    /// A well-formed log has ids that are at least one and strictly increasing.
    pub proof fn lemma_ids_increasing(&self)
        requires
            self.wf(),
        ensures
            ids_increasing(self@),
    {
    }

    /// An empty log, as on first use.
    pub fn new() -> (r: History)
        ensures
            r.wf(),
            r@ == Seq::<Snapshot>::empty(),
    {
        History { snapshots: Vec::new() }
    }

    /// A log from records read back from storage; `Corrupt` unless the ids
    /// are at least one and strictly increasing.
    pub fn from_snapshots(snapshots: Vec<Snapshot>) -> (r: Result<History, StoreError>)
        ensures
            r is Ok <==> ids_increasing(snapshots@),
            r is Ok ==> r->Ok_0.wf() && r->Ok_0@ == snapshots@,
            r is Err ==> r->Err_0 == StoreError::Corrupt,
    {
        let mut i: usize = 0;
        while i < snapshots.len()
            invariant
                0 <= i <= snapshots@.len(),
                forall|j: int| 0 <= j < i ==> (#[trigger] snapshots@[j]).id >= 1,
                forall|a: int, b: int| 0 <= a < b < i ==> snapshots@[a].id < snapshots@[b].id,
            decreases snapshots@.len() - i,
        {
            if snapshots[i].id == 0 {
                return Err(StoreError::Corrupt);
            }
            if i > 0 && snapshots[i - 1].id >= snapshots[i].id {
                assert(!(snapshots@[i - 1].id < snapshots@[i as int].id));
                return Err(StoreError::Corrupt);
            }
            assert forall|a: int, b: int| 0 <= a < b < i + 1 implies snapshots@[a].id
                < snapshots@[b].id by {
                if b == i && a < i - 1 {
                    assert(snapshots@[a].id < snapshots@[i - 1].id);
                }
            }
            i += 1;
        }
        Ok(History { snapshots })
    }

    /// Whether one more snapshot can be appended without running out of ids.
    pub fn can_append(&self) -> (r: bool)
        requires
            self.wf(),
        ensures
            r == (next_id(self@) <= MAX_ID),
    {
        proof {
            lemma_max_id_is_last(self@);
        }
        if self.snapshots.len() == 0 {
            true
        } else {
            self.snapshots[self.snapshots.len() - 1].id < MAX_ID
        }
    }

    /// Appends a snapshot with id one more than the largest id so far (one
    /// for an empty log), and returns it.
    pub fn append(&mut self, manifest_digest: String, created_at: u64) -> (r: Snapshot)
        requires
            old(self).wf(),
            next_id(old(self)@) <= MAX_ID,
        ensures
            final(self).wf(),
            r.id == next_id(old(self)@),
            r.manifest_digest@ == manifest_digest@,
            r.created_at == created_at,
            final(self)@ == old(self)@.push(r),
    {
        proof {
            lemma_max_id_is_last(self@);
        }
        let id: u32 = if self.snapshots.len() == 0 {
            1
        } else {
            self.snapshots[self.snapshots.len() - 1].id + 1
        };
        let kept = Snapshot { id, manifest_digest: manifest_digest.clone(), created_at };
        self.snapshots.push(kept);
        Snapshot { id, manifest_digest, created_at }
    }

    /// The snapshot with `id`; `NotFound` when there is none.
    pub fn get_snapshot(&self, id: u32) -> (r: Result<&Snapshot, StoreError>)
        requires
            self.wf(),
        ensures
            r is Ok <==> has_id(self@, id),
            r is Ok ==> exists|i: int|
                0 <= i < self@.len() && self@[i] == *r->Ok_0 && (#[trigger] self@[i]).id == id,
            r is Err ==> r->Err_0 == StoreError::NotFound,
    {
        let mut i: usize = 0;
        while i < self.snapshots.len()
            invariant
                0 <= i <= self.snapshots@.len(),
                forall|j: int| 0 <= j < i ==> (#[trigger] self.snapshots@[j]).id != id,
            decreases self.snapshots@.len() - i,
        {
            if self.snapshots[i].id == id {
                return Ok(&self.snapshots[i]);
            }
            i += 1;
        }
        Err(StoreError::NotFound)
    }

    /// All snapshots, ascending by id.
    pub fn all(&self) -> (r: &Vec<Snapshot>)
        ensures
            r@ == self@,
    {
        &self.snapshots
    }
}

/// Appending assigns the largest existing id plus one, and one to the first
/// snapshot of an empty log; the log stays strictly increasing.
pub proof fn lemma_append_monotonic(s: Seq<Snapshot>, snap: Snapshot)
    requires
        ids_increasing(s),
        snap.id == next_id(s),
    ensures
        s.len() == 0 ==> snap.id == 1,
        forall|i: int| 0 <= i < s.len() ==> (#[trigger] s[i]).id < snap.id,
        ids_increasing(s.push(snap)),
{
    lemma_max_id_is_last(s);
    let t = s.push(snap);
    assert forall|i: int, j: int| 0 <= i < j < t.len() implies t[i].id < t[j].id by {
        assert(t[i] == s[i]);
        if j < s.len() {
            assert(t[j] == s[j]);
        }
    }
    assert forall|i: int| 0 <= i < t.len() implies (#[trigger] t[i]).id >= 1 by {
        if i < s.len() {
            assert(t[i] == s[i]);
        }
    }
}

} // verus!
