//! The committed contents of the store, and read-only snapshots of it.
//!
//! A [`Snapshot`] couples a pinned version with the contents as of that
//! version. Snapshots are immutable: later commits work on their own
//! copy, so everything a snapshot can read stays as it was.

use vstd::prelude::*;

use crate::bytes::{copy_bytes, copy_opt_bytes, bytes_eq, bytes_lex_le, lemma_lex_le_antisym, lemma_lex_le_refl, lemma_lex_le_total, lemma_lex_le_trans, lex_le};
use vstd::relations::{sorted_by, total_ordering};
use vstd::seq_lib::lemma_sorted_unique;
use crate::cache::DeltaView;
use crate::codec::{RootHash, PRE_GENESIS_VERSION};
use crate::history::{log_value_at, log_view, value_at};
use crate::index::{index_wf, insert_spec, remove_key_spec};
use crate::kvmap::{
    keys_unique, map_get, map_remove_spec, map_set_spec, opt_view, pairs_view, value_of, has_key,
};
use crate::tree::{empty_leaves, empty_root, hash_key, jmt_root_of, leaves_after, sha256_of};

verus! {

/// The mathematical content of the store at some version.
#[verifier::ext_equal]
pub ghost struct ContentsView {
    /// Authenticated leaf history: (key hash, version, optional value).
    pub log: Seq<(Seq<u8>, u64, Option<Seq<u8>>)>,
    /// Two-way key index: (key preimage, key hash), live keys only.
    pub index: Seq<(Seq<u8>, Seq<u8>)>,
    /// Nonconsensus store: (raw key, value), latest values only.
    pub nonconsensus: Seq<(Seq<u8>, Seq<u8>)>,
    /// Root hash of each committed version, in order.
    pub roots: Seq<Seq<u8>>,
    /// The current tip version; the pre-genesis sentinel before any
    /// commit.
    pub tip: u64,
    /// The live authenticated leaves: key hash to value.
    pub leaves: Map<Seq<u8>, Seq<u8>>,
    /// Every delta committed so far, oldest first.
    pub deltas: Seq<DeltaView>,
}

/// The view of a list of root hashes.
pub open spec fn roots_view(v: Seq<RootHash>) -> Seq<Seq<u8>> {
    Seq::new(v.len(), |i: int| v[i]@)
}

/// The contents of a store that has seen no commit.
pub open spec fn empty_contents() -> ContentsView {
    ContentsView {
        log: Seq::empty(),
        index: Seq::empty(),
        nonconsensus: Seq::empty(),
        roots: Seq::empty(),
        tip: PRE_GENESIS_VERSION,
        leaves: empty_leaves(),
        deltas: Seq::empty(),
    }
}

/// The version after `v`: one more, wrapping the pre-genesis sentinel
/// to zero.
pub open spec fn wrap_inc(v: u64) -> u64 {
    if v == PRE_GENESIS_VERSION {
        0
    } else {
        (v + 1) as u64
    }
}

/// The changes of a delta with each key replaced by its hash.
pub open spec fn hash_changes(changes: Seq<(Seq<u8>, Option<Seq<u8>>)>) -> Seq<
    (Seq<u8>, Option<Seq<u8>>),
> {
    Seq::new(changes.len(), |i: int| (sha256_of(changes[i].0), changes[i].1))
}

/// The history entries one commit appends: one per change, at `ver`.
pub open spec fn log_entries(
    hashed: Seq<(Seq<u8>, Option<Seq<u8>>)>,
    ver: u64,
) -> Seq<(Seq<u8>, u64, Option<Seq<u8>>)> {
    Seq::new(hashed.len(), |i: int| (hashed[i].0, ver, hashed[i].1))
}

/// The key index after applying `changes` in order: a write binds the
/// key to its hash, a deletion removes the pair.
pub open spec fn index_after(
    s: Seq<(Seq<u8>, Seq<u8>)>,
    changes: Seq<(Seq<u8>, Option<Seq<u8>>)>,
) -> Seq<(Seq<u8>, Seq<u8>)>
    decreases changes.len(),
{
    if changes.len() == 0 {
        s
    } else {
        let rest = index_after(s, changes.drop_last());
        let last = changes.last();
        match last.1 {
            Some(_) => insert_spec(rest, last.0, sha256_of(last.0)),
            None => remove_key_spec(rest, last.0),
        }
    }
}

/// The nonconsensus store after applying its changes in order.
pub open spec fn nonconsensus_after(
    s: Seq<(Seq<u8>, Seq<u8>)>,
    changes: Seq<(Seq<u8>, Option<Seq<u8>>)>,
) -> Seq<(Seq<u8>, Seq<u8>)>
    decreases changes.len(),
{
    if changes.len() == 0 {
        s
    } else {
        let rest = nonconsensus_after(s, changes.drop_last());
        let last = changes.last();
        match last.1 {
            Some(v) => map_set_spec(rest, last.0, v),
            None => map_remove_spec(rest, last.0),
        }
    }
}

/// The whole store after committing one delta: the single step that
/// every commit takes.
pub open spec fn apply_delta(c: ContentsView, d: DeltaView) -> ContentsView {
    let ver = wrap_inc(c.tip);
    let hashed = hash_changes(d.changes);
    let new_leaves = leaves_after(c.leaves, hashed);
    ContentsView {
        log: c.log + log_entries(hashed, ver),
        index: index_after(c.index, d.changes),
        nonconsensus: nonconsensus_after(c.nonconsensus, d.nonconsensus),
        roots: c.roots.push(jmt_root_of(new_leaves)),
        tip: ver,
        leaves: new_leaves,
        deltas: c.deltas.push(d),
    }
}

/// The store contents determined by a sequence of deltas, replayed in
/// order from the empty store.
pub open spec fn replay(deltas: Seq<DeltaView>) -> ContentsView
    decreases deltas.len(),
{
    if deltas.len() == 0 {
        empty_contents()
    } else {
        apply_delta(replay(deltas.drop_last()), deltas.last())
    }
}

/// The committed contents of the store.
pub struct StoreContents {
    /// Authenticated leaf history, tombstones included.
    pub log: Vec<(Vec<u8>, u64, Option<Vec<u8>>)>,
    /// Two-way key index of the live authenticated keys.
    pub index: Vec<(Vec<u8>, Vec<u8>)>,
    /// The nonconsensus store.
    pub nonconsensus: Vec<(Vec<u8>, Vec<u8>)>,
    /// Root hash per committed version.
    pub roots: Vec<RootHash>,
    /// The tip version.
    pub tip: u64,
    /// The live leaves, kept alongside as the mathematical shadow of
    /// the authenticated tree.
    pub leaves: Ghost<Map<Seq<u8>, Seq<u8>>>,
    /// The deltas committed so far.
    pub deltas: Ghost<Seq<DeltaView>>,
}

impl View for StoreContents {
    type V = ContentsView;

    open spec fn view(&self) -> ContentsView {
        ContentsView {
            log: log_view(self.log@),
            index: pairs_view(self.index@),
            nonconsensus: pairs_view(self.nonconsensus@),
            roots: roots_view(self.roots@),
            tip: self.tip,
            leaves: self.leaves@,
            deltas: self.deltas@,
        }
    }
}

/// Structural well-formedness of store contents.
pub open spec fn contents_wf(c: ContentsView) -> bool {
    &&& index_wf(c.index)
    &&& keys_unique(c.nonconsensus)
    &&& (c.tip == PRE_GENESIS_VERSION ==> c.roots.len() == 0 && c.log.len() == 0)
    &&& (c.tip != PRE_GENESIS_VERSION ==> c.roots.len() == c.tip + 1)
    &&& (forall|i: int| 0 <= i < c.log.len() ==> (#[trigger] c.log[i]).1 <= c.tip)
    &&& (forall|i: int| 0 <= i < c.roots.len() ==> (#[trigger] c.roots[i]).len() == 32)
}

impl StoreContents {
    /// Contents with no commits.
    pub fn new() -> (r: StoreContents)
        ensures
            r@ == empty_contents(),
            contents_wf(r@),
    {
        let r = StoreContents {
            log: Vec::new(),
            index: Vec::new(),
            nonconsensus: Vec::new(),
            roots: Vec::new(),
            tip: PRE_GENESIS_VERSION,
            leaves: Ghost(empty_leaves()),
            deltas: Ghost(Seq::empty()),
        };
        proof {
            assert(r@ =~= empty_contents());
        }
        r
    }

    /// Returns a fresh copy with the same contents.
    pub fn duplicate(&self) -> (r: StoreContents)
        ensures
            r@ == self@,
    {
        let mut log: Vec<(Vec<u8>, u64, Option<Vec<u8>>)> = Vec::new();
        let mut i: usize = 0;
        while i < self.log.len()
            invariant
                i <= self.log@.len(),
                log@.len() == i,
                forall|j: int|
                    0 <= j < i ==> log_view(log@)[j] == #[trigger] log_view(self.log@)[j],
            decreases self.log@.len() - i,
        {
            let entry = &self.log[i];
            log.push((copy_bytes(&entry.0), entry.1, copy_opt_bytes(&entry.2)));
            i = i + 1;
        }
        let mut index: Vec<(Vec<u8>, Vec<u8>)> = Vec::new();
        let mut i: usize = 0;
        while i < self.index.len()
            invariant
                i <= self.index@.len(),
                index@.len() == i,
                forall|j: int|
                    0 <= j < i ==> pairs_view(index@)[j] == #[trigger] pairs_view(self.index@)[j],
            decreases self.index@.len() - i,
        {
            let entry = &self.index[i];
            index.push((copy_bytes(&entry.0), copy_bytes(&entry.1)));
            i = i + 1;
        }
        let mut nonconsensus: Vec<(Vec<u8>, Vec<u8>)> = Vec::new();
        let mut i: usize = 0;
        while i < self.nonconsensus.len()
            invariant
                i <= self.nonconsensus@.len(),
                nonconsensus@.len() == i,
                forall|j: int|
                    0 <= j < i ==> pairs_view(nonconsensus@)[j] == #[trigger] pairs_view(
                        self.nonconsensus@,
                    )[j],
            decreases self.nonconsensus@.len() - i,
        {
            let entry = &self.nonconsensus[i];
            nonconsensus.push((copy_bytes(&entry.0), copy_bytes(&entry.1)));
            i = i + 1;
        }
        let mut roots: Vec<RootHash> = Vec::new();
        let mut i: usize = 0;
        while i < self.roots.len()
            invariant
                i <= self.roots@.len(),
                roots@.len() == i,
                forall|j: int|
                    0 <= j < i ==> roots_view(roots@)[j] == #[trigger] roots_view(self.roots@)[j],
            decreases self.roots@.len() - i,
        {
            roots.push(self.roots[i].duplicate());
            i = i + 1;
        }
        let r = StoreContents {
            log,
            index,
            nonconsensus,
            roots,
            tip: self.tip,
            leaves: Ghost(self.leaves@),
            deltas: Ghost(self.deltas@),
        };
        proof {
            assert(log_view(r.log@) =~= log_view(self.log@));
            assert(pairs_view(r.index@) =~= pairs_view(self.index@));
            assert(pairs_view(r.nonconsensus@) =~= pairs_view(self.nonconsensus@));
            assert(roots_view(r.roots@) =~= roots_view(self.roots@));
            assert(r@ =~= self@);
        }
        r
    }
}

/// Whether `p` is a prefix of `v`.
pub open spec fn is_prefix(p: Seq<u8>, v: Seq<u8>) -> bool {
    p.len() <= v.len() && v.subrange(0, p.len() as int) == p
}

/// The nonconsensus pairs whose key starts with `p`, in stored order.
pub open spec fn with_prefix(s: Seq<(Seq<u8>, Seq<u8>)>, p: Seq<u8>) -> Seq<(Seq<u8>, Seq<u8>)>
    decreases s.len(),
{
    if s.len() == 0 {
        Seq::empty()
    } else {
        let rest = with_prefix(s.drop_last(), p);
        if is_prefix(p, s.last().0) {
            rest.push(s.last())
        } else {
            rest
        }
    }
}

/// Order on nonconsensus pairs: by key, then by value. Keys are
/// unique in the store, so this sorts by key.
pub open spec fn pair_lex_le(x: (Seq<u8>, Seq<u8>), y: (Seq<u8>, Seq<u8>)) -> bool {
    if x.0 == y.0 {
        lex_le(x.1, y.1)
    } else {
        lex_le(x.0, y.0)
    }
}

/// The pair order as a relation value.
pub open spec fn pair_order() -> spec_fn((Seq<u8>, Seq<u8>), (Seq<u8>, Seq<u8>)) -> bool {
    |x: (Seq<u8>, Seq<u8>), y: (Seq<u8>, Seq<u8>)| pair_lex_le(x, y)
}

/// The pair order is a total order.
pub proof fn lemma_pair_order_total()
    ensures
        total_ordering(pair_order()),
{
    let r = pair_order();
    assert forall|x: (Seq<u8>, Seq<u8>)| #[trigger] r(x, x) by {
        lemma_lex_le_refl(x.1);
    }
    assert forall|x: (Seq<u8>, Seq<u8>), y: (Seq<u8>, Seq<u8>)| #[trigger] r(x, y) && #[trigger] r(
        y,
        x,
    ) implies x == y by {
        if x.0 == y.0 {
            lemma_lex_le_antisym(x.1, y.1);
        } else {
            lemma_lex_le_antisym(x.0, y.0);
        }
    }
    assert forall|x: (Seq<u8>, Seq<u8>), y: (Seq<u8>, Seq<u8>), z: (Seq<u8>, Seq<u8>)|
        #[trigger] r(x, y) && #[trigger] r(y, z) implies r(x, z) by {
        if x.0 == y.0 && y.0 == z.0 {
            lemma_lex_le_trans(x.1, y.1, z.1);
        } else if x.0 == y.0 {
        } else if y.0 == z.0 {
        } else {
            lemma_lex_le_trans(x.0, y.0, z.0);
            if x.0 == z.0 {
                lemma_lex_le_antisym(x.0, y.0);
            }
        }
    }
    assert forall|x: (Seq<u8>, Seq<u8>), y: (Seq<u8>, Seq<u8>)| #[trigger] r(x, y) || #[trigger] r(
        y,
        x,
    ) by {
        if x.0 == y.0 {
            lemma_lex_le_total(x.1, y.1);
        } else {
            lemma_lex_le_total(x.0, y.0);
        }
    }
}

/// Decides the pair order.
fn pair_le(x: &(Vec<u8>, Vec<u8>), y: &(Vec<u8>, Vec<u8>)) -> (r: bool)
    ensures
        r == pair_lex_le((x.0@, x.1@), (y.0@, y.1@)),
{
    if bytes_eq(&x.0, &y.0) {
        bytes_lex_le(&x.1, &y.1)
    } else {
        bytes_lex_le(&x.0, &y.0)
    }
}

/// Sorts pairs by the pair order, keeping exactly the same entries.
fn sort_pairs(v: Vec<(Vec<u8>, Vec<u8>)>) -> (r: Vec<(Vec<u8>, Vec<u8>)>)
    ensures
        sorted_by(pairs_view(r@), pair_order()),
        pairs_view(r@).to_multiset() == pairs_view(v@).to_multiset(),
{
    broadcast use vstd::seq_lib::group_to_multiset_ensures;

    let ghost whole = pairs_view(v@);
    let mut out: Vec<(Vec<u8>, Vec<u8>)> = Vec::new();
    let mut i: usize = 0;
    proof {
        assert(whole.take(0) =~= Seq::empty());
        assert(pairs_view(out@) =~= Seq::empty());
        assert(Seq::<(Seq<u8>, Seq<u8>)>::empty().to_multiset() =~= pairs_view(
            out@,
        ).to_multiset());
    }
    while i < v.len()
        invariant
            i <= v@.len(),
            whole == pairs_view(v@),
            whole.len() == v@.len(),
            sorted_by(pairs_view(out@), pair_order()),
            pairs_view(out@).to_multiset() == whole.take(i as int).to_multiset(),
        decreases v@.len() - i,
    {
        broadcast use vstd::seq_lib::group_to_multiset_ensures;

        let ghost out_before = pairs_view(out@);
        let entry = &v[i];
        let pair = (copy_bytes(&entry.0), copy_bytes(&entry.1));
        let ghost pv = (pair.0@, pair.1@);
        proof {
            assert(pv == whole[i as int]);
        }
        let mut j: usize = 0;
        while j < out.len() && !pair_le(&pair, &out[j])
            invariant
                j <= out@.len(),
                pair.0@ == pv.0 && pair.1@ == pv.1,
                out_before == pairs_view(out@),
                out_before.len() == out@.len(),
                forall|k: int| 0 <= k < j ==> !pair_lex_le(pv, #[trigger] out_before[k]),
            decreases out@.len() - j,
        {
            proof {
                assert(out_before[j as int] == (out@[j as int].0@, out@[j as int].1@));
            }
            j = j + 1;
        }
        let ghost insert_at = j as int;
        proof {
            if insert_at < out_before.len() {
                assert(out_before[insert_at] == (out@[insert_at].0@, out@[insert_at].1@));
                assert(pair_lex_le(pv, out_before[insert_at]));
            }
        }
        out.insert(j, pair);
        i = i + 1;
        proof {
            let now = pairs_view(out@);
            assert(now =~= out_before.insert(insert_at, pv));
            // the inserted sequence is still sorted
            lemma_pair_order_total();
            assert forall|m: int, n: int| 0 <= m < n < now.len() implies #[trigger] pair_order()(
                now[m],
                now[n],
            ) by {
                if m < insert_at && n > insert_at {
                    assert(now[m] == out_before[m] && now[n] == out_before[n - 1]);
                    assert(pair_order()(out_before[m], out_before[n - 1]));
                } else if m == insert_at {
                    assert(now[m] == pv && now[n] == out_before[n - 1]);
                    assert(pair_order()(pv, out_before[insert_at]));
                    if n - 1 > insert_at {
                        assert(pair_order()(out_before[insert_at], out_before[n - 1]));
                    }
                } else if n == insert_at {
                    assert(now[m] == out_before[m] && now[n] == pv);
                    assert(!pair_order()(pv, out_before[m]));
                    assert(pair_order()(out_before[m], pv) || pair_order()(pv, out_before[m]));
                } else if m < insert_at && n < insert_at {
                    assert(now[m] == out_before[m] && now[n] == out_before[n]);
                    assert(pair_order()(out_before[m], out_before[n]));
                } else {
                    assert(now[m] == out_before[m - 1] && now[n] == out_before[n - 1]);
                    assert(pair_order()(out_before[m - 1], out_before[n - 1]));
                }
            }
            // the multiset gained exactly the new pair
            assert(now.remove(insert_at) =~= out_before);
            assert(now.remove(insert_at).to_multiset() =~= now.to_multiset().remove(
                now[insert_at],
            ));
            assert(now[insert_at] == pv);
            assert(now.contains(pv)) by {
                assert(now[insert_at] == pv);
            }
            assert(now.to_multiset().count(pv) > 0);
            assert(now.to_multiset() =~= out_before.to_multiset().insert(pv));
            assert(whole.take(i as int).drop_last() =~= whole.take(i as int - 1));
            assert(whole.take(i as int) =~= whole.take(i as int - 1).push(whole[i as int - 1]));
            assert(whole.take(i as int).to_multiset() =~= whole.take(
                i as int - 1,
            ).to_multiset().insert(whole[i as int - 1]));
        }
    }
    proof {
        assert(whole.take(whole.len() as int) =~= whole);
    }
    out
}

/// An immutable read view pinned to one version.
pub struct Snapshot {
    /// The pinned version.
    pub version: u64,
    /// The contents as of that version.
    pub contents: StoreContents,
}

impl View for Snapshot {
    type V = (u64, ContentsView);

    open spec fn view(&self) -> (u64, ContentsView) {
        (self.version, self.contents@)
    }
}

/// A snapshot is well formed when its contents are and its pinned
/// version is their tip.
pub open spec fn snapshot_wf(s: Snapshot) -> bool {
    contents_wf(s.contents@) && s.version == s.contents@.tip
}

impl Snapshot {
    /// The version this snapshot is pinned to.
    pub fn version(&self) -> (r: u64)
        ensures
            r == self.version,
    {
        self.version
    }

    /// Reads the authenticated value of `key` at the pinned version:
    /// the newest value at or below it, unless deleted since.
    pub fn get(&self, key: &Vec<u8>) -> (r: Option<Vec<u8>>)
        ensures
            opt_view(r) == value_at(self.contents@.log, sha256_of(key@), self.version),
    {
        let kh = hash_key(key);
        log_value_at(&self.contents.log, &kh.bytes, self.version)
    }

    /// Reads the nonconsensus value of `key` (latest version only).
    pub fn nonconsensus_get(&self, key: &Vec<u8>) -> (r: Option<Vec<u8>>)
        requires
            snapshot_wf(*self),
        ensures
            r is Some <==> has_key(self.contents@.nonconsensus, key@),
            r is Some ==> (r->Some_0)@ == value_of(self.contents@.nonconsensus, key@),
    {
        map_get(&self.contents.nonconsensus, key)
    }

    /// Lists the nonconsensus pairs whose key starts with `prefix`,
    /// sorted lexicographically by key.
    pub fn nonconsensus_prefix_iter(&self, prefix: &Vec<u8>) -> (r: Vec<(Vec<u8>, Vec<u8>)>)
        ensures
            sorted_by(pairs_view(r@), pair_order()),
            pairs_view(r@).to_multiset() == with_prefix(
                self.contents@.nonconsensus,
                prefix@,
            ).to_multiset(),
    {
        let ghost view = pairs_view(self.contents.nonconsensus@);
        let mut out: Vec<(Vec<u8>, Vec<u8>)> = Vec::new();
        let mut i: usize = 0;
        while i < self.contents.nonconsensus.len()
            invariant
                i <= self.contents.nonconsensus@.len(),
                view == pairs_view(self.contents.nonconsensus@),
                view.len() == self.contents.nonconsensus@.len(),
                pairs_view(out@) == with_prefix(view.take(i as int), prefix@),
            decreases self.contents.nonconsensus@.len() - i,
        {
            proof {
                assert(view.take(i as int + 1).last() == view[i as int]);
                assert(view.take(i as int + 1).drop_last() =~= view.take(i as int));
            }
            let entry = &self.contents.nonconsensus[i];
            if crate::bytes::bytes_has_prefix(&entry.0, prefix) {
                out.push((copy_bytes(&entry.0), copy_bytes(&entry.1)));
                proof {
                    assert(pairs_view(out@) =~= with_prefix(view.take(i as int + 1), prefix@));
                }
            } else {
                proof {
                    assert(!is_prefix(prefix@, view[i as int].0));
                }
            }
            i = i + 1;
        }
        proof {
            assert(view.take(view.len() as int) =~= view);
        }
        sort_pairs(out)
    }

    /// The root hash at the pinned version; the empty-tree root when
    /// pinned to pre-genesis.
    pub fn root_hash(&self) -> (r: RootHash)
        requires
            snapshot_wf(*self),
        ensures
            self.version == PRE_GENESIS_VERSION ==> r@ == jmt_root_of(empty_leaves()),
            self.version != PRE_GENESIS_VERSION ==> r@ == self.contents@.roots.last(),
            r.wf(),
    {
        if self.version == PRE_GENESIS_VERSION {
            empty_root()
        } else {
            let n = self.contents.roots.len();
            proof {
                assert(self.contents@.roots.len() == n);
                assert(n >= 1);
                assert(self.contents@.roots[n - 1].len() == 32);
            }
            let r = self.contents.roots[n - 1].duplicate();
            proof {
                assert(r@ == roots_view(self.contents.roots@)[n - 1]);
                assert(self.contents@.roots.last() == self.contents@.roots[n - 1]);
            }
            r
        }
    }

    /// Returns a fresh snapshot of the same version and contents.
    pub fn duplicate(&self) -> (r: Snapshot)
        ensures
            r.version == self.version,
            r.contents@ == self.contents@,
    {
        Snapshot { version: self.version, contents: self.contents.duplicate() }
    }
}

} // verus!
