//! A bounded cache of the most recent snapshots, keyed by version.
//!
//! Newer snapshots stand later. Pushing admits only the version right
//! after the latest one (pre-genesis wrapping to zero); at capacity the
//! oldest snapshot is evicted.

use vstd::prelude::*;

use crate::errors::StorageError;
use crate::codec::PRE_GENESIS_VERSION;
use crate::snapshot::{snapshot_wf, wrap_inc, ContentsView, Snapshot};

verus! {

/// The view of a list of snapshots.
pub open spec fn snapshots_view(v: Seq<Snapshot>) -> Seq<(u64, ContentsView)> {
    Seq::new(v.len(), |i: int| v[i]@)
}

/// A bounded ring of recent snapshots.
pub struct SnapshotCache {
    /// Cached snapshots, oldest first.
    pub entries: Vec<Snapshot>,
    /// The fixed bound on how many are kept.
    pub capacity: usize,
}

impl View for SnapshotCache {
    type V = Seq<(u64, ContentsView)>;

    open spec fn view(&self) -> Seq<(u64, ContentsView)> {
        snapshots_view(self.entries@)
    }
}

impl SnapshotCache {
    /// At least one snapshot is always cached, at most `capacity`, and
    /// each is well formed.
    pub open spec fn wf(&self) -> bool {
        &&& self.capacity >= 1
        &&& 1 <= self.entries@.len() <= self.capacity
        &&& forall|i: int| 0 <= i < self.entries@.len() ==> snapshot_wf(#[trigger] self.entries@[i])
    }

    /// A cache seeded with one snapshot.
    pub fn new(initial: Snapshot, capacity: usize) -> (r: SnapshotCache)
        requires
            capacity >= 1,
            snapshot_wf(initial),
        ensures
            r.wf(),
            r@ =~= seq![initial@],
            r.capacity == capacity,
    {
        let mut entries: Vec<Snapshot> = Vec::new();
        entries.push(initial);
        let r = SnapshotCache { entries, capacity };
        proof {
            assert(r@ =~= seq![r.entries@[0]@]);
        }
        r
    }

    /// A fresh copy of the most recent snapshot.
    pub fn latest(&self) -> (r: Snapshot)
        requires
            self.wf(),
        ensures
            r@ == self@.last(),
            snapshot_wf(r),
    {
        let n = self.entries.len();
        let r = self.entries[n - 1].duplicate();
        proof {
            assert(self.entries@[n - 1]@ == self@.last());
            assert(snapshot_wf(self.entries@[n - 1]));
            assert(snapshot_wf(r)) by {
                assert(r.contents@ == self.entries@[n - 1].contents@);
            }
        }
        r
    }

    /// Looks up the cached snapshot pinned to `version`, if any.
    pub fn get(&self, version: u64) -> (r: Option<Snapshot>)
        requires
            self.wf(),
        ensures
            r is Some <==> exists|i: int| 0 <= i < self@.len() && (#[trigger] self@[i]).0 == version,
            r is Some ==> exists|i: int|
                0 <= i < self@.len() && #[trigger] self@[i] == (r->Some_0)@ && self@[i].0 == version,
            r is Some ==> snapshot_wf((r->Some_0)),
    {
        let mut i: usize = 0;
        while i < self.entries.len()
            invariant
                i <= self.entries@.len(),
                self.wf(),
                forall|j: int| 0 <= j < i ==> (#[trigger] snapshots_view(self.entries@)[j]).0 != version,
            decreases self.entries@.len() - i,
        {
            if self.entries[i].version() == version {
                let r = self.entries[i].duplicate();
                proof {
                    assert(snapshots_view(self.entries@)[i as int] == r@);
                    assert(snapshot_wf(self.entries@[i as int]));
                    assert(snapshot_wf(r)) by {
                        assert(r.contents@ == self.entries@[i as int].contents@);
                    }
                    assert((i as int) < self@.len());
                    assert(self@[i as int].0 == version);
                    assert(self@[i as int] == r@);
                }
                return Some(r);
            }
            i = i + 1;
        }
        None
    }

    /// Admits `snapshot` as the new latest, only when its version is
    /// exactly the one after the current latest; evicts the oldest at
    /// capacity.
    pub fn try_push(&mut self, snapshot: Snapshot) -> (r: Result<(), StorageError>)
        requires
            old(self).wf(),
            snapshot_wf(snapshot),
        ensures
            final(self).wf(),
            final(self).capacity == old(self).capacity,
            r is Ok <==> snapshot.version == wrap_inc(old(self)@.last().0),
            r is Err ==> final(self)@ == old(self)@ && r matches Err(
                StorageError::VersionMismatch { expected: _, found: _ },
            ),
            r is Ok ==> final(self)@ =~= (if old(self)@.len() == old(self).capacity {
                old(self)@.drop_first().push(snapshot@)
            } else {
                old(self)@.push(snapshot@)
            }),
    {
        let n = self.entries.len();
        let latest_version = self.entries[n - 1].version();
        let expected: u64 = if latest_version == PRE_GENESIS_VERSION {
            0
        } else {
            latest_version + 1
        };
        proof {
            assert(self@.last().0 == latest_version);
            assert(expected == wrap_inc(old(self)@.last().0));
        }
        if snapshot.version() != expected {
            return Err(
                StorageError::VersionMismatch { expected, found: snapshot.version },
            );
        }
        let ghost pre = self@;
        if self.entries.len() == self.capacity {
            self.entries.remove(0);
            proof {
                assert(snapshots_view(self.entries@) =~= pre.drop_first());
            }
        }
        self.entries.push(snapshot);
        proof {
            if pre.len() == old(self).capacity {
                assert(self@ =~= pre.drop_first().push(snapshot@));
            } else {
                assert(self@ =~= pre.push(snapshot@));
            }
        }
        Ok(())
    }
}

} // verus!
