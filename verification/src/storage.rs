//! The storage engine: lifecycle, the commit pipeline, snapshot
//! publication and subscription fan-out.
//!
//! A commit flattens its delta, rejects a stale base, applies the value
//! set to the authenticated tree at the next version, updates the key
//! index, the leaf history and the nonconsensus store, installs a fresh
//! snapshot in the cache and notifies subscribers.

use vstd::prelude::*;

use crate::bytes::{copy_bytes, copy_opt_bytes};
use crate::cache::DeltaView;
use crate::codec::{KeyHash, RootHash, PRE_GENESIS_VERSION};
use crate::delta::StateDelta;
use crate::errors::StorageError;
use crate::history::{keyed, lemma_value_at_entries, lemma_value_at_extend, lemma_value_at_monotone, log_view, value_at};
use crate::index::{
    find_hash, has_hash, index_insert, index_remove_key, index_wf, insert_spec, key_of_hash,
    lemma_find_hash, lemma_insert_preserves_wf, lemma_remove_preserves_wf, lemma_removed_key_gone,
    remove_hash_spec, remove_key_spec,
};
use crate::kvmap::{
    find_key, has_key, keys_unique, lemma_find_key, map_remove, map_set, opt_pairs_view, opt_view,
    pairs_view, value_of,
};
use crate::snapshot::{
    apply_delta, contents_wf, empty_contents, hash_changes, index_after, log_entries,
    nonconsensus_after, replay, roots_view, snapshot_wf, wrap_inc, ContentsView, Snapshot,
    StoreContents,
};
use crate::snapshot_cache::SnapshotCache;
use crate::tree::{
    bus_new, bus_send, bus_subscribe, hash_key, hashed_changes_view, jmt_root_of, leaves_after,
    sha256_of, tree_apply, tree_get_with_proof, tree_new, MerkleProof,
};

verus! {

/// Every pair of the index binds a key to its own digest.
pub open spec fn index_hashes_ok(s: Seq<(Seq<u8>, Seq<u8>)>) -> bool {
    forall|i: int| 0 <= i < s.len() ==> (#[trigger] s[i]).1 == sha256_of(s[i].0)
}

/// The next version the tree will accept, as an unbounded integer.
pub open spec fn next_version_int(c: ContentsView) -> int {
    if c.tip == PRE_GENESIS_VERSION {
        0
    } else {
        c.tip + 1
    }
}

struct StoreInner {
    contents: StoreContents,
    tree: jmt::mock::MockTreeStore,
    cache: SnapshotCache,
    bus: tokio::sync::watch::Sender<Snapshot>,
}

spec fn inner_inv(inner: StoreInner) -> bool {
    &&& contents_wf(inner.contents@)
    &&& crate::tree::tree_leaves(inner.tree) == inner.contents@.leaves
    &&& crate::tree::tree_next_version(inner.tree) == next_version_int(inner.contents@)
    &&& inner.contents@ == replay(inner.contents@.deltas)
    &&& inner.contents@.deltas.len() == inner.contents@.roots.len()
    &&& inner.cache.wf()
    &&& inner.cache@.len() >= 1
    &&& inner.cache@.last() == (inner.contents@.tip, inner.contents@)
}

/// A handle for one storage instance.
pub struct Storage {
    inner: StoreInner,
}

impl View for Storage {
    type V = ContentsView;

    closed spec fn view(&self) -> ContentsView {
        self.inner.contents@
    }
}

impl Storage {
    #[verifier::type_invariant]
    spec fn inv(self) -> bool {
        inner_inv(self.inner)
    }

    /// The versions currently held by the snapshot cache, with the
    /// contents each snapshot is pinned to.
    pub closed spec fn cached(&self) -> Seq<(u64, ContentsView)> {
        self.inner.cache@
    }

    /// The fixed bound on how many snapshots the cache keeps.
    pub closed spec fn cache_capacity(&self) -> int {
        self.inner.cache.capacity as int
    }

    fn fresh_inner() -> (r: StoreInner)
        ensures
            inner_inv(r),
            r.contents@ == empty_contents(),
            r.cache@ =~= seq![(PRE_GENESIS_VERSION, empty_contents())],
            r.cache.capacity == 10,
    {
        let contents = StoreContents::new();
        let tree = tree_new();
        let snap = Snapshot { version: PRE_GENESIS_VERSION, contents: contents.duplicate() };
        let bus = bus_new(snap.duplicate());
        let cache = SnapshotCache::new(snap, 10);
        let r = StoreInner { contents, tree, cache, bus };
        proof {
            assert(r.contents@.deltas.len() == 0);
            assert(replay(r.contents@.deltas) == empty_contents());
            assert(r.cache@ =~= seq![(PRE_GENESIS_VERSION, empty_contents())]);
        }
        r
    }

    /// Opens a fresh, empty store: no commits, the pre-genesis version
    /// at the tip, and the snapshot cache seeded with one pre-genesis
    /// snapshot under its default bound of ten.
    pub fn new() -> (r: Storage)
        ensures
            r@ == empty_contents(),
            r.cached() == seq![(PRE_GENESIS_VERSION, empty_contents())],
            r.cache_capacity() == 10,
    {
        Storage { inner: Storage::fresh_inner() }
    }

    /// The latest committed version, or the pre-genesis sentinel when
    /// nothing was committed.
    pub fn latest_version(&self) -> (r: u64)
        ensures
            r == self@.tip,
    {
        self.inner.contents.tip
    }

    /// A snapshot of the latest version.
    pub fn latest_snapshot(&self) -> (r: Snapshot)
        ensures
            r@ == (self@.tip, self@),
            snapshot_wf(r),
    {
        proof {
            use_type_invariant(&*self);
        }
        self.inner.cache.latest()
    }

    /// The cached snapshot pinned to `version`, or nothing on a cache
    /// miss.
    pub fn snapshot(&self, version: u64) -> (r: Option<Snapshot>)
        ensures
            r is Some <==> exists|i: int|
                0 <= i < self.cached().len() && (#[trigger] self.cached()[i]).0 == version,
            r is Some ==> (r->Some_0)@.0 == version && snapshot_wf((r->Some_0)),
            r is Some ==> exists|i: int|
                0 <= i < self.cached().len() && #[trigger] self.cached()[i] == (r->Some_0)@,
    {
        proof {
            use_type_invariant(&*self);
        }
        let r = self.inner.cache.get(version);
        proof {
            assert(self.cached() == self.inner.cache@);
            if r is Some {
                let i = choose|i: int|
                    0 <= i < self.inner.cache@.len() && #[trigger] self.inner.cache@[i] == (
                    r->Some_0)@ && self.inner.cache@[i].0 == version;
                assert(self.cached()[i] == (r->Some_0)@);
                assert(self.cached()[i].0 == version);
            }
            if exists|i: int|
                0 <= i < self.cached().len() && (#[trigger] self.cached()[i]).0 == version {
                let i = choose|i: int|
                    0 <= i < self.cached().len() && (#[trigger] self.cached()[i]).0 == version;
                assert(self.inner.cache@[i].0 == version);
            }
        }
        r
    }

    /// A receiver that observes every snapshot published after this
    /// call, seeing at least the most recent one.
    pub fn subscribe(&self) -> tokio::sync::watch::Receiver<Snapshot> {
        bus_subscribe(&self.inner.bus)
    }

    /// The authenticated value of `key` at the tip, with a Merkle proof
    /// for it. Before the first commit no tree exists and the read
    /// fails; at any committed tip it succeeds.
    pub fn get_with_proof(&self, key: &Vec<u8>) -> (r: Result<
        (Option<Vec<u8>>, MerkleProof),
        StorageError,
    >)
        ensures
            self@.tip != PRE_GENESIS_VERSION ==> r is Ok,
            (self@.tip != PRE_GENESIS_VERSION && r is Ok) ==> opt_view((r->Ok_0).0) == (if
            self@.leaves.contains_key(sha256_of(key@)) {
                Some(self@.leaves[sha256_of(key@)])
            } else {
                Option::<Seq<u8>>::None
            }),
    {
        proof {
            use_type_invariant(&*self);
        }
        let kh = hash_key(key);
        match tree_get_with_proof(&self.inner.tree, &kh, self.inner.contents.tip) {
            Ok(found) => Ok(found),
            Err(e) => Err(StorageError::Tree(e)),
        }
    }


    /// The digest bound to `key` in the forward index; present exactly
    /// when the key is live in the authenticated namespace.
    pub fn index_key_hash(&self, key: &Vec<u8>) -> (r: Option<Vec<u8>>)
        ensures
            r is Some <==> has_key(self@.index, key@),
            r is Some ==> (r->Some_0)@ == value_of(self@.index, key@),
    {
        proof {
            use_type_invariant(&*self);
        }
        crate::kvmap::map_get(&self.inner.contents.index, key)
    }

    /// The key preimage bound to `hash` in the reverse index, if any.
    pub fn index_key_of_hash(&self, hash: &Vec<u8>) -> (r: Option<Vec<u8>>)
        ensures
            r is Some <==> has_hash(self@.index, hash@),
            r is Some ==> (r->Some_0)@ == key_of_hash(self@.index, hash@),
    {
        proof {
            use_type_invariant(&*self);
        }
        crate::index::index_get_by_hash(&self.inner.contents.index, hash)
    }

    /// Commits `delta` as the next version. The commit is rejected,
    /// and the store left unchanged, exactly when the delta's base is
    /// not the current tip (or, one step before the sentinel, when the
    /// version space is exhausted); otherwise the staged changes are
    /// applied at the next version, the new snapshot is installed in
    /// the cache, and the new root hash is returned.
    pub fn commit(&mut self, delta: StateDelta) -> (r: Result<RootHash, StorageError>)
        requires
            delta.wf(),
        ensures
            (delta.base@.0 != old(self)@.tip) <==> r matches Err(
                StorageError::VersionMismatch { expected: _, found: _ },
            ),
            r is Err ==> final(self)@ == old(self)@ && final(self).cached() == old(self).cached(),
            (delta.base@.0 == old(self)@.tip && old(self)@.tip == PRE_GENESIS_VERSION - 1) <==> r
                matches Err(StorageError::VersionLimit),
            (delta.base@.0 == old(self)@.tip && old(self)@.tip != PRE_GENESIS_VERSION - 1) ==> r
                is Ok,
            r is Ok ==> final(self)@ == apply_delta(old(self)@, delta.cache@),
            r is Ok ==> final(self).cached() == (if old(self).cached().len() == old(
                self,
            ).cache_capacity() {
                old(self).cached().drop_first()
            } else {
                old(self).cached()
            }).push((wrap_inc(old(self)@.tip), apply_delta(old(self)@, delta.cache@))),
            final(self).cache_capacity() == old(self).cache_capacity(),
            r is Ok ==> final(self)@.tip == wrap_inc(old(self)@.tip),
            r is Ok ==> final(self)@.deltas == old(self)@.deltas.push(delta.cache@),
            r is Ok ==> (r->Ok_0)@ == jmt_root_of(final(self)@.leaves) && (r->Ok_0).wf(),
    {
        proof {
            use_type_invariant(&*self);
        }
        let mut inner = Storage::fresh_inner();
        core::mem::swap(&mut self.inner, &mut inner);
        let ghost pre = inner.contents@;
        let (base, cache) = delta.flatten();
        let old_version = inner.contents.tip;
        if base.version() != old_version {
            let found = base.version();
            core::mem::swap(&mut self.inner, &mut inner);
            return Err(StorageError::VersionMismatch { expected: old_version, found });
        }
        if old_version == PRE_GENESIS_VERSION - 1 {
            core::mem::swap(&mut self.inner, &mut inner);
            return Err(StorageError::VersionLimit);
        }
        let new_version: u64 = if old_version == PRE_GENESIS_VERSION {
            0
        } else {
            old_version + 1
        };
        let ghost d = DeltaView {
            changes: opt_pairs_view(cache.unwritten_changes@),
            nonconsensus: opt_pairs_view(cache.nonconsensus_changes@),
        };
        proof {
            assert(d == cache@);
            assert(new_version == wrap_inc(pre.tip));
            assert(new_version != PRE_GENESIS_VERSION);
        }
        // Hash every staged key once.
        let mut hashed: Vec<(KeyHash, Option<Vec<u8>>)> = Vec::new();
        let mut i: usize = 0;
        while i < cache.unwritten_changes.len()
            invariant
                i <= cache.unwritten_changes@.len(),
                d.changes == opt_pairs_view(cache.unwritten_changes@),
                d.changes.len() == cache.unwritten_changes@.len(),
                hashed@.len() == i,
                forall|j: int|
                    0 <= j < i ==> #[trigger] hashed_changes_view(hashed@)[j] == (
                        sha256_of(d.changes[j].0),
                        d.changes[j].1,
                    ),
                forall|j: int| 0 <= j < i ==> (#[trigger] hashed@[j]).0.wf(),
            decreases cache.unwritten_changes@.len() - i,
        {
            let ghost hashed_before = hashed@;
            let entry = &cache.unwritten_changes[i];
            let kh = hash_key(&entry.0);
            hashed.push((kh, copy_opt_bytes(&entry.1)));
            i = i + 1;
            proof {
                assert(d.changes[i as int - 1] == (entry.0@, opt_view(entry.1)));
                assert forall|j: int|
                    0 <= j < i implies #[trigger] hashed_changes_view(hashed@)[j] == (
                    sha256_of(d.changes[j].0),
                    d.changes[j].1,
                ) && hashed@[j].0.wf() by {
                    if j < i - 1 {
                        assert(hashed@[j] == hashed_before[j]);
                        assert(hashed_changes_view(hashed_before)[j] == (
                            sha256_of(d.changes[j].0),
                            d.changes[j].1,
                        ));
                        assert(hashed_changes_view(hashed@)[j] == (
                            hashed@[j].0@,
                            opt_view(hashed@[j].1),
                        ));
                    } else {
                        assert(hashed_changes_view(hashed@)[j] == (
                            hashed@[j].0@,
                            opt_view(hashed@[j].1),
                        ));
                        assert(hashed@[j].0@ == sha256_of(entry.0@));
                    }
                }
            }
        }
        proof {
            assert(hashed_changes_view(hashed@) =~= hash_changes(d.changes));
        }
        // Ask the tree for the new root; nothing else has changed yet,
        // so a failure aborts the commit with the store intact.
        let root = match tree_apply(&mut inner.tree, &hashed, new_version) {
            Ok(root) => root,
            Err(e) => {
                core::mem::swap(&mut self.inner, &mut inner);
                return Err(StorageError::Tree(e));
            },
        };
        proof {
            assert(crate::tree::tree_leaves(inner.tree) == leaves_after(
                pre.leaves,
                hash_changes(d.changes),
            ));
        }
        // Update the key index and append the leaf history.
        let ghost tree_now = inner.tree;
        let ghost cache_now = inner.cache;
        let ghost bus_now = inner.bus;
        let mut i: usize = 0;
        while i < cache.unwritten_changes.len()
            invariant
                i <= cache.unwritten_changes@.len(),
                d.changes == opt_pairs_view(cache.unwritten_changes@),
                d.changes.len() == cache.unwritten_changes@.len(),
                pairs_view(inner.contents.index@) == index_after(
                    pre.index,
                    d.changes.take(i as int),
                ),
                index_wf(pairs_view(inner.contents.index@)),
                log_view(inner.contents.log@) == pre.log + log_entries(
                    hash_changes(d.changes.take(i as int)),
                    new_version,
                ),
                pairs_view(inner.contents.nonconsensus@) == pre.nonconsensus,
                roots_view(inner.contents.roots@) == pre.roots,
                inner.contents.tip == pre.tip,
                inner.contents.leaves@ == pre.leaves,
                inner.contents.deltas@ == pre.deltas,
                index_wf(pre.index),
                inner.tree == tree_now,
                inner.cache == cache_now,
                inner.bus == bus_now,
            decreases cache.unwritten_changes@.len() - i,
        {
            let ghost index_before = pairs_view(inner.contents.index@);
            let ghost log_before = log_view(inner.contents.log@);
            let entry = &cache.unwritten_changes[i];
            let kh = hash_key(&entry.0);
            let ghost khv = kh@;
            let kh_for_index = copy_bytes(&kh.bytes);
            proof {
                assert(kh_for_index@ == khv);
                assert(khv == sha256_of(entry.0@));
            }
            inner.contents.log.push((kh.bytes, new_version, copy_opt_bytes(&entry.1)));
            match &entry.1 {
                Some(_) => {
                    index_insert(&mut inner.contents.index, copy_bytes(&entry.0), kh_for_index);
                },
                None => {
                    index_remove_key(&mut inner.contents.index, &entry.0);
                    proof {
                        lemma_find_key(index_before, entry.0@);
                        if has_key(index_before, entry.0@) {
                            lemma_remove_preserves_wf(index_before, find_key(
                                index_before,
                                entry.0@,
                            ));
                        }
                    }
                },
            }
            i = i + 1;
            proof {
                let ci = d.changes.take(i as int);
                let prev_ci = d.changes.take(i as int - 1);
                assert(ci.drop_last() =~= prev_ci);
                assert(ci.last() == d.changes[i as int - 1]);
                assert(d.changes[i as int - 1] == (entry.0@, opt_view(entry.1)));
                assert(index_after(pre.index, ci.drop_last()) == index_after(pre.index, prev_ci));
                assert(index_after(pre.index, ci) == (match ci.last().1 {
                    Some(_) => insert_spec(
                        index_after(pre.index, ci.drop_last()),
                        ci.last().0,
                        sha256_of(ci.last().0),
                    ),
                    None => remove_key_spec(index_after(pre.index, ci.drop_last()), ci.last().0),
                }));
                assert(index_before == index_after(pre.index, prev_ci));
                if entry.1 is Some {
                    assert(ci.last().1 is Some);
                    assert(ci.last().0 == entry.0@);
                    assert(pairs_view(inner.contents.index@) == insert_spec(
                        index_before,
                        entry.0@,
                        kh_for_index@,
                    ));
                    assert(kh_for_index@ == sha256_of(entry.0@));
                } else {
                    assert(ci.last().1 is None);
                    assert(pairs_view(inner.contents.index@) == remove_key_spec(
                        index_before,
                        entry.0@,
                    ));
                }
                assert(pairs_view(inner.contents.index@) == index_after(pre.index, ci));
                let lhs = log_view(inner.contents.log@);
                let rhs = pre.log + log_entries(hash_changes(ci), new_version);
                assert(prev_ci.len() == i - 1);
                assert(log_entries(hash_changes(prev_ci), new_version).len() == i - 1);
                assert(log_before.len() == pre.log.len() + (i - 1));
                assert(lhs.len() == log_before.len() + 1);
                assert(ci.len() == i);
                assert(rhs.len() == pre.log.len() + i);
                assert(lhs.len() == pre.log.len() + i);
                assert forall|j: int| 0 <= j < lhs.len() implies lhs[j] == rhs[j] by {
                    if j < pre.log.len() + i - 1 {
                        assert(lhs[j] == log_before[j]);
                        assert(log_before[j] == (pre.log + log_entries(
                            hash_changes(prev_ci),
                            new_version,
                        ))[j]);
                    } else {
                        assert(lhs[j] == (khv, new_version, opt_view(entry.1)));
                        assert(rhs[j] == (
                            sha256_of(d.changes[i as int - 1].0),
                            new_version,
                            d.changes[i as int - 1].1,
                        ));
                    }
                }
                assert(lhs =~= rhs);
            }
        }
        proof {
            assert(d.changes.take(d.changes.len() as int) =~= d.changes);
        }
        // Apply the nonconsensus writes and deletions.
        let mut i: usize = 0;
        while i < cache.nonconsensus_changes.len()
            invariant
                i <= cache.nonconsensus_changes@.len(),
                d.nonconsensus == opt_pairs_view(cache.nonconsensus_changes@),
                d.nonconsensus.len() == cache.nonconsensus_changes@.len(),
                pairs_view(inner.contents.nonconsensus@) == nonconsensus_after(
                    pre.nonconsensus,
                    d.nonconsensus.take(i as int),
                ),
                keys_unique(pairs_view(inner.contents.nonconsensus@)),
                pairs_view(inner.contents.index@) == index_after(pre.index, d.changes),
                index_wf(pairs_view(inner.contents.index@)),
                log_view(inner.contents.log@) == pre.log + log_entries(
                    hash_changes(d.changes),
                    new_version,
                ),
                roots_view(inner.contents.roots@) == pre.roots,
                inner.contents.tip == pre.tip,
                inner.contents.leaves@ == pre.leaves,
                inner.contents.deltas@ == pre.deltas,
                keys_unique(pre.nonconsensus),
                inner.tree == tree_now,
                inner.cache == cache_now,
                inner.bus == bus_now,
            decreases cache.nonconsensus_changes@.len() - i,
        {
            let entry = &cache.nonconsensus_changes[i];
            match &entry.1 {
                Some(v) => {
                    map_set(&mut inner.contents.nonconsensus, copy_bytes(&entry.0), copy_bytes(v));
                },
                None => {
                    map_remove(&mut inner.contents.nonconsensus, &entry.0);
                },
            }
            i = i + 1;
            proof {
                let ci = d.nonconsensus.take(i as int);
                assert(ci.drop_last() =~= d.nonconsensus.take(i as int - 1));
                assert(ci.last() == d.nonconsensus[i as int - 1]);
                assert(d.nonconsensus[i as int - 1] == (entry.0@, opt_view(entry.1)));
                assert(pairs_view(inner.contents.nonconsensus@) == nonconsensus_after(
                    pre.nonconsensus,
                    ci,
                ));
            }
        }
        proof {
            assert(d.nonconsensus.take(d.nonconsensus.len() as int) =~= d.nonconsensus);
        }
        // Record the new root, advance the tip, and update the shadow
        // state.
        inner.contents.roots.push(root.duplicate());
        inner.contents.tip = new_version;
        inner.contents.leaves = Ghost(leaves_after(pre.leaves, hash_changes(d.changes)));
        inner.contents.deltas = Ghost(pre.deltas.push(d));
        proof {
            assert(roots_view(inner.contents.roots@) =~= pre.roots.push(
                jmt_root_of(leaves_after(pre.leaves, hash_changes(d.changes))),
            ));
            assert(inner.contents@ =~= apply_delta(pre, d));
            assert(pre.deltas.push(d).drop_last() =~= pre.deltas);
            assert(replay(pre.deltas.push(d)) == apply_delta(pre, d));
            assert(contents_wf(inner.contents@)) by {
                assert(pre.tip != PRE_GENESIS_VERSION ==> new_version == pre.tip + 1);
                assert forall|j: int|
                    0 <= j < inner.contents@.log.len() implies (#[trigger] inner.contents@.log[j]).1
                    <= inner.contents@.tip by {
                    if j < pre.log.len() {
                        assert(inner.contents@.log[j] == pre.log[j]);
                    } else {
                        assert(inner.contents@.log[j].1 == new_version);
                    }
                }
            }
        }
        // Install the new snapshot and notify subscribers.
        let snap = Snapshot { version: new_version, contents: inner.contents.duplicate() };
        let published = snap.duplicate();
        proof {
            assert(snapshot_wf(snap));
            assert(inner.cache@.last() == (pre.tip, pre));
        }
        match inner.cache.try_push(snap) {
            Ok(_) => {},
            Err(_) => {
                proof {
                    assert(false);
                }
            },
        }
        bus_send(&inner.bus, published);
        core::mem::swap(&mut self.inner, &mut inner);
        Ok(root)
    }
}


/// The version to resume from, given the version of the rightmost leaf
/// of a persisted tree: the leaf's version, or the pre-genesis sentinel
/// when the tree is empty. The store adapter reads the leaf; this
/// decides the initial version.
pub fn latest_version(rightmost_leaf_version: Option<u64>) -> (r: u64)
    ensures
        rightmost_leaf_version is Some ==> r == rightmost_leaf_version->Some_0,
        rightmost_leaf_version is None ==> r == PRE_GENESIS_VERSION,
{
    match rightmost_leaf_version {
        Some(v) => v,
        None => PRE_GENESIS_VERSION,
    }
}


/// Looking one key up after applying changes to the leaf map: the last
/// change for that key decides, else the old binding stands.
proof fn lemma_leaves_after_lookup(
    m: Map<Seq<u8>, Seq<u8>>,
    h: Seq<(Seq<u8>, Option<Seq<u8>>)>,
    kh: Seq<u8>,
)
    ensures
        has_key(h, kh) ==> (match value_of(h, kh) {
            Some(v) => leaves_after(m, h).contains_key(kh) && leaves_after(m, h)[kh] == v,
            None => !leaves_after(m, h).contains_key(kh),
        }),
        !has_key(h, kh) ==> leaves_after(m, h).contains_key(kh) == m.contains_key(kh) && (
        m.contains_key(kh) ==> leaves_after(m, h)[kh] == m[kh]),
    decreases h.len(),
{
    if h.len() > 0 {
        let prev = h.drop_last();
        lemma_leaves_after_lookup(m, prev, kh);
        lemma_find_key(prev, kh);
        if h.last().0 == kh {
            assert(find_key(h, kh) == h.len() - 1);
            assert(value_of(h, kh) == h.last().1);
        } else {
            assert(find_key(h, kh) == find_key(prev, kh));
            if has_key(prev, kh) {
                let fk = find_key(prev, kh);
                assert(h[fk] == prev[fk]);
                assert(value_of(h, kh) == value_of(prev, kh));
            }
        }
    }
}

/// After replaying any delta sequence, reads at the tip agree with the
/// live leaf map, and every history entry is at or below the tip.
proof fn lemma_replay_coherent(ds: Seq<DeltaView>)
    requires
        ds.len() <= 0xffff_ffff_ffff_ffff,
    ensures
        ds.len() == 0 ==> replay(ds).tip == PRE_GENESIS_VERSION && replay(ds).log.len() == 0,
        ds.len() > 0 ==> replay(ds).tip == ds.len() - 1,
        forall|i: int|
            0 <= i < replay(ds).log.len() ==> (#[trigger] replay(ds).log[i]).1 <= replay(ds).tip,
        forall|kh: Seq<u8>|
            #![auto]
            value_at(replay(ds).log, kh, replay(ds).tip) == (if replay(ds).leaves.contains_key(kh) {
                Some(replay(ds).leaves[kh])
            } else {
                Option::<Seq<u8>>::None
            }),
    decreases ds.len(),
{
    if ds.len() == 0 {
        assert forall|kh: Seq<u8>|
            #![auto]
            value_at(replay(ds).log, kh, replay(ds).tip) == (if replay(ds).leaves.contains_key(
                kh,
            ) {
                Some(replay(ds).leaves[kh])
            } else {
                Option::<Seq<u8>>::None
            }) by {
            assert(!crate::tree::empty_leaves().contains_key(kh));
        }
    } else {
        lemma_replay_coherent(ds.drop_last());
        let c = replay(ds.drop_last());
        let d = ds.last();
        let c2 = replay(ds);
        assert(c2 == apply_delta(c, d));
        let ver = wrap_inc(c.tip);
        let h = hash_changes(d.changes);
        let entries = log_entries(h, ver);
        assert(forall|i: int| 0 <= i < entries.len() ==> (#[trigger] entries[i]).1 == ver);
        assert(c2.tip == ver && c2.log == c.log + entries);
        if c.tip != PRE_GENESIS_VERSION {
            assert(c.tip == ds.len() - 2);
            assert(c.tip < ver);
        }
        assert forall|i: int|
            0 <= i < c2.log.len() implies (#[trigger] c2.log[i]).1 <= c2.tip by {
            if i < c.log.len() {
                assert(c2.log[i] == c.log[i]);
            } else {
                assert(c2.log[i] == entries[i - c.log.len()]);
            }
        }
        assert forall|kh: Seq<u8>|
            #![auto]
            value_at(c2.log, kh, c2.tip) == (if c2.leaves.contains_key(kh) {
                Some(c2.leaves[kh])
            } else {
                Option::<Seq<u8>>::None
            }) by {
            if c.tip == PRE_GENESIS_VERSION {
                assert(c.log.len() == 0);
                assert(c.log =~= Seq::<(Seq<u8>, u64, Option<Seq<u8>>)>::empty());
                assert(value_at(c.log, kh, ver) == value_at(c.log, kh, c.tip));
            } else {
                lemma_value_at_monotone(c.log, kh, c.tip, ver);
            }
            lemma_value_at_entries(c.log, entries, ver, kh);
            assert(keyed(entries) =~= h);
            lemma_leaves_after_lookup(c.leaves, h, kh);
        }
    }
}

/// Reads at the tip agree with the live leaf map the root hash
/// summarizes: a live key's newest history entry holds its leaf value,
/// and a key absent from the leaves reads as nothing.
pub fn lemma_reads_match_leaves(s: &Storage)
    ensures
        forall|kh: Seq<u8>|
            #![auto]
            value_at(s@.log, kh, s@.tip) == (if s@.leaves.contains_key(kh) {
                Some(s@.leaves[kh])
            } else {
                Option::<Seq<u8>>::None
            }),
{
    proof {
        use_type_invariant(&*s);
        assert(s@.deltas.len() == s@.roots.len());
        assert(s@.roots.len() <= 0xffff_ffff_ffff_ffff) by {
            if s@.tip != PRE_GENESIS_VERSION {
                assert(s@.tip <= 0xffff_ffff_ffff_fffe);
            }
        }
        lemma_replay_coherent(s@.deltas);
    }
}

/// Replaying any delta sequence keeps the key index well formed with
/// every key bound to its own digest.
proof fn lemma_index_after_ok(s: Seq<(Seq<u8>, Seq<u8>)>, changes: Seq<(Seq<u8>, Option<Seq<u8>>)>)
    requires
        index_wf(s),
        index_hashes_ok(s),
    ensures
        index_wf(index_after(s, changes)),
        index_hashes_ok(index_after(s, changes)),
    decreases changes.len(),
{
    if changes.len() > 0 {
        lemma_index_after_ok(s, changes.drop_last());
        let prev = index_after(s, changes.drop_last());
        let last = changes.last();
        if last.1 is Some {
            lemma_insert_preserves_wf(prev, last.0, sha256_of(last.0));
            lemma_hashes_ok_insert(prev, last.0);
        } else {
            lemma_find_key(prev, last.0);
            if has_key(prev, last.0) {
                lemma_remove_preserves_wf(prev, find_key(prev, last.0));
                lemma_hashes_ok_remove(prev, find_key(prev, last.0));
            }
        }
    }
}

/// Removing a pair keeps every remaining key bound to its digest.
proof fn lemma_hashes_ok_remove(s: Seq<(Seq<u8>, Seq<u8>)>, i: int)
    requires
        index_hashes_ok(s),
        0 <= i < s.len(),
    ensures
        index_hashes_ok(s.remove(i)),
{
    let r = s.remove(i);
    assert forall|a: int| 0 <= a < r.len() implies (#[trigger] r[a]).1 == sha256_of(r[a].0) by {
        let a0 = if a < i {
            a
        } else {
            a + 1
        };
        assert(r[a] == s[a0]);
        assert(s[a0].1 == sha256_of(s[a0].0));
    }
}

/// Binding a key to its digest keeps every key bound to its digest.
proof fn lemma_hashes_ok_insert(s: Seq<(Seq<u8>, Seq<u8>)>, k: Seq<u8>)
    requires
        index_hashes_ok(s),
    ensures
        index_hashes_ok(insert_spec(s, k, sha256_of(k))),
{
    let s1 = remove_key_spec(s, k);
    lemma_find_key(s, k);
    if has_key(s, k) {
        lemma_hashes_ok_remove(s, find_key(s, k));
    }
    let s2 = remove_hash_spec(s1, sha256_of(k));
    lemma_find_hash(s1, sha256_of(k));
    if has_hash(s1, sha256_of(k)) {
        lemma_hashes_ok_remove(s1, find_hash(s1, sha256_of(k)));
    }
    let out = s2.push((k, sha256_of(k)));
    assert forall|a: int| 0 <= a < out.len() implies (#[trigger] out[a]).1 == sha256_of(
        out[a].0,
    ) by {
        if a < s2.len() {
            assert(out[a] == s2[a]);
        }
    }
}

/// The index of any reachable store state is well formed and binds
/// every key to its digest.
proof fn lemma_replay_index_ok(ds: Seq<DeltaView>)
    ensures
        index_wf(replay(ds).index),
        index_hashes_ok(replay(ds).index),
    decreases ds.len(),
{
    if ds.len() == 0 {
        assert(replay(ds).index =~= Seq::<(Seq<u8>, Seq<u8>)>::empty());
    } else {
        lemma_replay_index_ok(ds.drop_last());
        lemma_index_after_ok(replay(ds.drop_last()).index, ds.last().changes);
    }
}

/// Versions advance one by one: after n commits the tip is n - 1, with
/// one root hash recorded per version.
proof fn lemma_replay_shape(ds: Seq<DeltaView>)
    requires
        ds.len() <= 0xffff_ffff_ffff_ffff,
    ensures
        ds.len() == 0 ==> replay(ds).tip == PRE_GENESIS_VERSION,
        ds.len() > 0 ==> replay(ds).tip == ds.len() - 1,
        replay(ds).roots.len() == ds.len(),
        replay(ds).deltas == ds,
    decreases ds.len(),
{
    if ds.len() > 0 {
        lemma_replay_shape(ds.drop_last());
        assert(ds.drop_last().push(ds.last()) =~= ds);
    }
}


/// Applying any change list keeps a well-formed index well formed.
pub proof fn lemma_index_after_wf(
    s: Seq<(Seq<u8>, Seq<u8>)>,
    changes: Seq<(Seq<u8>, Option<Seq<u8>>)>,
)
    requires
        index_wf(s),
    ensures
        index_wf(index_after(s, changes)),
    decreases changes.len(),
{
    if changes.len() > 0 {
        lemma_index_after_wf(s, changes.drop_last());
        let prev = index_after(s, changes.drop_last());
        let last = changes.last();
        if last.1 is Some {
            lemma_insert_preserves_wf(prev, last.0, sha256_of(last.0));
        } else {
            lemma_find_key(prev, last.0);
            if has_key(prev, last.0) {
                lemma_remove_preserves_wf(prev, find_key(prev, last.0));
            }
        }
    }
}

/// A key whose staged changes end in a deletion is absent from the
/// index after they are applied: the deleted-key half of index
/// mutuality, for the forward direction.
pub proof fn lemma_index_after_deleted_key(
    s: Seq<(Seq<u8>, Seq<u8>)>,
    changes: Seq<(Seq<u8>, Option<Seq<u8>>)>,
    k: Seq<u8>,
)
    requires
        index_wf(s),
        keys_unique(changes),
        has_key(changes, k),
        value_of(changes, k) is None,
    ensures
        !has_key(index_after(s, changes), k),
    decreases changes.len(),
{
    let prev_changes = changes.drop_last();
    let prev = index_after(s, prev_changes);
    let last = changes.last();
    lemma_find_key(changes, k);
    lemma_index_after_wf(s, prev_changes);
    if last.0 == k {
        // The deletion itself is the final change: it removes the pair.
        assert(find_key(changes, k) == changes.len() - 1);
        assert(last.1 is None);
        lemma_find_key(prev, k);
        let res = remove_key_spec(prev, k);
        if has_key(prev, k) {
            lemma_removed_key_gone(prev, k);
        }
        lemma_find_key(res, k);
        if has_key(res, k) {
            assert(res[find_key(res, k)].0 == k);
            assert(false);
        }
    } else {
        // The deletion lies in the prefix; the final change touches a
        // different key and cannot reintroduce this one.
        assert(forall|i: int|
            0 <= i < prev_changes.len() ==> #[trigger] prev_changes[i] == changes[i]);
        assert(keys_unique(prev_changes));
        let fk = find_key(changes, k);
        assert(fk == find_key(prev_changes, k));
        assert(changes[fk] == prev_changes[fk]);
        assert(value_of(prev_changes, k) == value_of(changes, k));
        lemma_index_after_deleted_key(s, prev_changes, k);
        lemma_find_key(prev, k);
        assert(forall|i: int| 0 <= i < prev.len() ==> (#[trigger] prev[i]).0 != k);
        let out = index_after(s, changes);
        assert forall|i: int| 0 <= i < out.len() implies (#[trigger] out[i]).0 != k by {
            if last.1 is Some {
                let s1 = remove_key_spec(prev, last.0);
                let s2 = remove_hash_spec(s1, sha256_of(last.0));
                lemma_find_key(prev, last.0);
                lemma_find_hash(s1, sha256_of(last.0));
                assert(forall|j: int| 0 <= j < s1.len() ==> (#[trigger] s1[j]).0 != k) by {
                    if has_key(prev, last.0) {
                        let rk = find_key(prev, last.0);
                        assert forall|j: int| 0 <= j < s1.len() implies (#[trigger] s1[j]).0
                            != k by {
                            let j0 = if j < rk {
                                j
                            } else {
                                j + 1
                            };
                            assert(s1[j] == prev[j0]);
                        }
                    }
                }
                assert(forall|j: int| 0 <= j < s2.len() ==> (#[trigger] s2[j]).0 != k) by {
                    if has_hash(s1, sha256_of(last.0)) {
                        let rh = find_hash(s1, sha256_of(last.0));
                        assert forall|j: int| 0 <= j < s2.len() implies (#[trigger] s2[j]).0
                            != k by {
                            let j0 = if j < rh {
                                j
                            } else {
                                j + 1
                            };
                            assert(s2[j] == s1[j0]);
                        }
                    }
                }
                assert(out == s2.push((last.0, sha256_of(last.0))));
                if i < s2.len() {
                    assert(out[i] == s2[i]);
                } else {
                    assert(out[i].0 == last.0);
                }
            } else {
                let res = remove_key_spec(prev, last.0);
                lemma_find_key(prev, last.0);
                assert(out == res);
                if has_key(prev, last.0) {
                    let rk = find_key(prev, last.0);
                    let i0 = if i < rk {
                        i
                    } else {
                        i + 1
                    };
                    assert(out[i] == prev[i0]);
                } else {
                    assert(out[i] == prev[i]);
                }
            }
        }
        lemma_find_key(out, k);
        if has_key(out, k) {
            assert(out[find_key(out, k)].0 == k);
            assert(false);
        }
    }
}

/// After any sequence of commits, the two key indexes are mutual
/// inverses: each live key maps to its digest, and the digest maps back
/// to the key.
pub fn lemma_index_mutuality(s: &Storage)
    ensures
        index_wf(s@.index),
        index_hashes_ok(s@.index),
        forall|k: Seq<u8>|
            #[trigger] has_key(s@.index, k) ==> value_of(s@.index, k) == sha256_of(k),
        forall|k: Seq<u8>|
            #[trigger] has_key(s@.index, k) ==> has_hash(s@.index, sha256_of(k)) && key_of_hash(
                s@.index,
                sha256_of(k),
            ) == k,
{
    proof {
        use_type_invariant(&*s);
        lemma_replay_index_ok(s@.deltas);
        crate::index::lemma_index_mutual(s@.index);
        assert forall|k: Seq<u8>| #[trigger] has_key(s@.index, k) implies value_of(s@.index, k)
            == sha256_of(k) && has_hash(s@.index, sha256_of(k)) && key_of_hash(
            s@.index,
            sha256_of(k),
        ) == k by {
            lemma_find_key(s@.index, k);
            let fk = find_key(s@.index, k);
            assert(s@.index[fk].1 == sha256_of(s@.index[fk].0));
            assert(value_of(s@.index, k) == sha256_of(k));
        }
    }
}


/// Every reachable store state is the replay of its own delta
/// sequence: the public anchor for arguing about stores by their
/// committed deltas alone.
pub fn lemma_replay_characterization(s: &Storage)
    ensures
        s@ == replay(s@.deltas),
{
    proof {
        use_type_invariant(&*s);
    }
}

/// Replay ignores nonconsensus changes everywhere but in the
/// nonconsensus store itself: two delta sequences equal in their
/// authenticated changes give the same roots, tip, leaves, history and
/// index.
pub proof fn lemma_replay_ignores_nonconsensus(ds1: Seq<DeltaView>, ds2: Seq<DeltaView>)
    requires
        ds1.len() == ds2.len(),
        forall|i: int| 0 <= i < ds1.len() ==> (#[trigger] ds1[i]).changes == ds2[i].changes,
    ensures
        replay(ds1).roots == replay(ds2).roots,
        replay(ds1).tip == replay(ds2).tip,
        replay(ds1).leaves == replay(ds2).leaves,
        replay(ds1).log == replay(ds2).log,
        replay(ds1).index == replay(ds2).index,
    decreases ds1.len(),
{
    if ds1.len() > 0 {
        let p1 = ds1.drop_last();
        let p2 = ds2.drop_last();
        assert(forall|i: int| 0 <= i < p1.len() ==> (#[trigger] p1[i]) == ds1[i]);
        assert(forall|i: int| 0 <= i < p2.len() ==> (#[trigger] p2[i]) == ds2[i]);
        assert(forall|i: int| 0 <= i < p1.len() ==> (#[trigger] p1[i]).changes == p2[i].changes);
        lemma_replay_ignores_nonconsensus(p1, p2);
        assert(ds1.last().changes == ds2.last().changes);
    }
}

/// Nonconsensus writes never affect the authenticated state: two
/// stores whose committed deltas agree on their authenticated changes
/// hold the same root hashes at every version, the same tip, leaves,
/// history and index.
pub fn lemma_nonconsensus_noninterference(a: &Storage, b: &Storage)
    requires
        a@.deltas.len() == b@.deltas.len(),
        forall|i: int|
            0 <= i < a@.deltas.len() ==> (#[trigger] a@.deltas[i]).changes == b@.deltas[i].changes,
    ensures
        a@.roots == b@.roots,
        a@.tip == b@.tip,
        a@.leaves == b@.leaves,
        a@.log == b@.log,
        a@.index == b@.index,
{
    proof {
        use_type_invariant(&*a);
        use_type_invariant(&*b);
        lemma_replay_ignores_nonconsensus(a@.deltas, b@.deltas);
    }
}

/// Two stores that have committed the same ordered deltas hold the
/// same contents: the same root hashes, indexes, histories and tip.
pub fn lemma_determinism(a: &Storage, b: &Storage)
    requires
        a@.deltas == b@.deltas,
    ensures
        a@ == b@,
{
    proof {
        use_type_invariant(&*a);
        use_type_invariant(&*b);
    }
}

/// The published versions are exactly 0, 1, 2, ... in commit order:
/// the tip is the number of commits minus one (the pre-genesis
/// sentinel before the first), with one root recorded per commit.
pub fn lemma_monotonic_versions(s: &Storage)
    ensures
        s@.deltas.len() == 0 ==> s@.tip == PRE_GENESIS_VERSION,
        s@.deltas.len() > 0 ==> s@.tip == s@.deltas.len() - 1,
        s@.roots.len() == s@.deltas.len(),
{
    proof {
        use_type_invariant(&*s);
        assert(s@.deltas.len() == s@.roots.len());
        assert(s@.roots.len() <= 0xffff_ffff_ffff_ffff) by {
            if s@.tip == PRE_GENESIS_VERSION {
            } else {
                assert(s@.tip <= 0xffff_ffff_ffff_fffe);
            }
        }
        lemma_replay_shape(s@.deltas);
    }
}

/// Snapshot stability: a commit never changes what is read at any
/// version at or below the old tip.
pub proof fn lemma_snapshot_stability(c: ContentsView, d: DeltaView, kh: Seq<u8>, ver: u64)
    requires
        c.tip != PRE_GENESIS_VERSION,
        ver <= c.tip,
    ensures
        value_at(apply_delta(c, d).log, kh, ver) == value_at(c.log, kh, ver),
{
    let ext = log_entries(hash_changes(d.changes), wrap_inc(c.tip));
    assert(forall|i: int| 0 <= i < ext.len() ==> (#[trigger] ext[i]).1 > ver);
    lemma_value_at_extend(c.log, ext, kh, ver);
}

} // verus!
