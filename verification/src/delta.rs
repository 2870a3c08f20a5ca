//! A pending delta: staged mutations over a base snapshot.
//!
//! Reads through a delta see the staged changes shadowed over the base.
//! Flattening hands the base and the staged cache back and consumes the
//! delta; committing is the only consumer.

use vstd::prelude::*;

use crate::cache::Cache;
use crate::history::value_at;
use crate::kvmap::{has_key, opt_view, value_of};
use crate::snapshot::{snapshot_wf, Snapshot};
use crate::tree::sha256_of;

verus! {

/// Staged mutations on top of a base snapshot.
pub struct StateDelta {
    /// The snapshot this delta was forked from.
    pub base: Snapshot,
    /// The staged changes.
    pub cache: Cache,
}

impl StateDelta {
    /// A delta is well formed when its base and cache are.
    pub open spec fn wf(&self) -> bool {
        snapshot_wf(self.base) && self.cache.wf()
    }

    /// A fresh delta over `base` with nothing staged.
    pub fn new(base: Snapshot) -> (r: StateDelta)
        requires
            snapshot_wf(base),
        ensures
            r.wf(),
            r.base@ == base@,
            r.cache@.changes.len() == 0,
            r.cache@.nonconsensus.len() == 0,
    {
        StateDelta { base, cache: Cache::new() }
    }

    /// Stages an authenticated write.
    pub fn put(&mut self, key: Vec<u8>, value: Vec<u8>)
        requires
            old(self).wf(),
        ensures
            final(self).wf(),
            final(self).base@ == old(self).base@,
            final(self).cache@.nonconsensus == old(self).cache@.nonconsensus,
            has_key(final(self).cache@.changes, key@),
            value_of(final(self).cache@.changes, key@) == Some(value@),
    {
        let ghost pre = self.cache@.changes;
        self.cache.put(key, value);
        proof {
            crate::kvmap::lemma_set_semantics(pre, key@, Some(value@));
        }
    }

    /// Stages deletion of an authenticated key.
    pub fn delete(&mut self, key: Vec<u8>)
        requires
            old(self).wf(),
        ensures
            final(self).wf(),
            final(self).base@ == old(self).base@,
            final(self).cache@.nonconsensus == old(self).cache@.nonconsensus,
            has_key(final(self).cache@.changes, key@),
            value_of(final(self).cache@.changes, key@) == Option::<Seq<u8>>::None,
    {
        let ghost pre = self.cache@.changes;
        self.cache.delete(key);
        proof {
            crate::kvmap::lemma_set_semantics(pre, key@, Option::<Seq<u8>>::None);
        }
    }

    /// Stages a nonconsensus write.
    pub fn nonconsensus_put(&mut self, key: Vec<u8>, value: Vec<u8>)
        requires
            old(self).wf(),
        ensures
            final(self).wf(),
            final(self).base@ == old(self).base@,
            final(self).cache@.changes == old(self).cache@.changes,
            has_key(final(self).cache@.nonconsensus, key@),
            value_of(final(self).cache@.nonconsensus, key@) == Some(value@),
    {
        let ghost pre = self.cache@.nonconsensus;
        self.cache.nonconsensus_put(key, value);
        proof {
            crate::kvmap::lemma_set_semantics(pre, key@, Some(value@));
        }
    }

    /// Stages a nonconsensus deletion.
    pub fn nonconsensus_delete(&mut self, key: Vec<u8>)
        requires
            old(self).wf(),
        ensures
            final(self).wf(),
            final(self).base@ == old(self).base@,
            final(self).cache@.changes == old(self).cache@.changes,
            has_key(final(self).cache@.nonconsensus, key@),
            value_of(final(self).cache@.nonconsensus, key@) == Option::<Seq<u8>>::None,
    {
        let ghost pre = self.cache@.nonconsensus;
        self.cache.nonconsensus_delete(key);
        proof {
            crate::kvmap::lemma_set_semantics(pre, key@, Option::<Seq<u8>>::None);
        }
    }

    /// Reads `key` with staged changes shadowing the base snapshot.
    pub fn get(&self, key: &Vec<u8>) -> (r: Option<Vec<u8>>)
        requires
            self.wf(),
        ensures
            opt_view(r) == (if has_key(self.cache@.changes, key@) {
                value_of(self.cache@.changes, key@)
            } else {
                value_at(self.base.contents@.log, sha256_of(key@), self.base.version)
            }),
    {
        match self.cache.get_staged(key) {
            Some(staged) => staged,
            None => self.base.get(key),
        }
    }

    /// Hands back the base snapshot and the staged changes, consuming
    /// the delta.
    pub fn flatten(self) -> (r: (Snapshot, Cache))
        ensures
            r.0@ == self.base@,
            r.1@ == self.cache@,
    {
        (self.base, self.cache)
    }
}

} // verus!
