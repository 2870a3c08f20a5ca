//! Writer-side staging of pending mutations.
//!
//! A [`Cache`] holds the authenticated and nonconsensus changes of one
//! delta before they are committed. Within a delta each key is unique
//! and the last write wins.

use vstd::prelude::*;

use crate::kvmap::{
    has_key, keys_unique, opt_map_get, opt_map_set, opt_pairs_view, opt_view, value_of,
};

verus! {

/// The mathematical content of one delta: ordered lists of (key,
/// optional value) writes, absent values meaning deletion.
pub ghost struct DeltaView {
    pub changes: Seq<(Seq<u8>, Option<Seq<u8>>)>,
    pub nonconsensus: Seq<(Seq<u8>, Option<Seq<u8>>)>,
}

/// Pending mutations staged on top of a base snapshot.
pub struct Cache {
    /// Authenticated writes: key to optional value, absence meaning
    /// deletion of the key.
    pub unwritten_changes: Vec<(Vec<u8>, Option<Vec<u8>>)>,
    /// Nonconsensus writes: raw key to optional value.
    pub nonconsensus_changes: Vec<(Vec<u8>, Option<Vec<u8>>)>,
}

impl View for Cache {
    type V = DeltaView;

    open spec fn view(&self) -> DeltaView {
        DeltaView {
            changes: opt_pairs_view(self.unwritten_changes@),
            nonconsensus: opt_pairs_view(self.nonconsensus_changes@),
        }
    }
}

impl Cache {
    /// Each key occurs at most once in each staged list.
    pub open spec fn wf(&self) -> bool {
        keys_unique(self@.changes) && keys_unique(self@.nonconsensus)
    }

    /// A cache with nothing staged.
    pub fn new() -> (r: Cache)
        ensures
            r.wf(),
            r@.changes.len() == 0,
            r@.nonconsensus.len() == 0,
    {
        Cache { unwritten_changes: Vec::new(), nonconsensus_changes: Vec::new() }
    }

    /// Stages an authenticated write of `value` under `key`.
    pub fn put(&mut self, key: Vec<u8>, value: Vec<u8>)
        requires
            old(self).wf(),
        ensures
            final(self).wf(),
            final(self)@.changes == (if has_key(old(self)@.changes, key@) {
                old(self)@.changes.update(
                    crate::kvmap::find_key(old(self)@.changes, key@),
                    (key@, Some(value@)),
                )
            } else {
                old(self)@.changes.push((key@, Some(value@)))
            }),
            final(self)@.nonconsensus == old(self)@.nonconsensus,
    {
        opt_map_set(&mut self.unwritten_changes, key, Some(value));
    }

    /// Stages deletion of the authenticated `key`.
    pub fn delete(&mut self, key: Vec<u8>)
        requires
            old(self).wf(),
        ensures
            final(self).wf(),
            final(self)@.changes == (if has_key(old(self)@.changes, key@) {
                old(self)@.changes.update(
                    crate::kvmap::find_key(old(self)@.changes, key@),
                    (key@, None),
                )
            } else {
                old(self)@.changes.push((key@, Option::<Seq<u8>>::None))
            }),
            final(self)@.nonconsensus == old(self)@.nonconsensus,
    {
        opt_map_set(&mut self.unwritten_changes, key, None);
    }

    /// Stages a nonconsensus write of `value` under `key`.
    pub fn nonconsensus_put(&mut self, key: Vec<u8>, value: Vec<u8>)
        requires
            old(self).wf(),
        ensures
            final(self).wf(),
            final(self)@.nonconsensus == (if has_key(old(self)@.nonconsensus, key@) {
                old(self)@.nonconsensus.update(
                    crate::kvmap::find_key(old(self)@.nonconsensus, key@),
                    (key@, Some(value@)),
                )
            } else {
                old(self)@.nonconsensus.push((key@, Some(value@)))
            }),
            final(self)@.changes == old(self)@.changes,
    {
        opt_map_set(&mut self.nonconsensus_changes, key, Some(value));
    }

    /// Stages deletion of the nonconsensus `key`.
    pub fn nonconsensus_delete(&mut self, key: Vec<u8>)
        requires
            old(self).wf(),
        ensures
            final(self).wf(),
            final(self)@.nonconsensus == (if has_key(old(self)@.nonconsensus, key@) {
                old(self)@.nonconsensus.update(
                    crate::kvmap::find_key(old(self)@.nonconsensus, key@),
                    (key@, None),
                )
            } else {
                old(self)@.nonconsensus.push((key@, Option::<Seq<u8>>::None))
            }),
            final(self)@.changes == old(self)@.changes,
    {
        opt_map_set(&mut self.nonconsensus_changes, key, None);
    }

    /// Reads a staged authenticated change, if `key` has one.
    pub fn get_staged(&self, key: &Vec<u8>) -> (r: Option<Option<Vec<u8>>>)
        requires
            self.wf(),
        ensures
            r is Some <==> has_key(self@.changes, key@),
            r is Some ==> opt_view((r->Some_0)) == value_of(self@.changes, key@),
    {
        opt_map_get(&self.unwritten_changes, key)
    }
}

} // verus!
