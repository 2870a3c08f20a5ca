//! Trusted boundary around the outside crates.
//!
//! The authenticated tree is kept by the `jmt` crate; key hashing is done
//! by `sha2`; commit notifications ride on tokio's watch channel. Each
//! outside call stands behind one item here whose contract states no more
//! than the outside source shows.

use vstd::prelude::*;

use sha2::Digest;
use jmt::storage::TreeWriter;

use crate::codec::{KeyHash, RootHash};
use crate::kvmap::opt_view;

verus! {

/// The SHA-256 digest of a byte string. The digest is a function of the
/// bytes alone; its definition is left to the `sha2` crate.
pub uninterp spec fn sha256_of(data: Seq<u8>) -> Seq<u8>;

/// Relies on `sha2::Sha256::digest`: a 32-byte digest computed from the
/// input bytes alone.
#[verifier::external_body]
pub fn hash_key(key: &Vec<u8>) -> (r: KeyHash)
    ensures
        r@ == sha256_of(key@),
        r.wf(),
{
    KeyHash { bytes: sha2::Sha256::digest(key.as_slice()).to_vec() }
}

/// Declares the `jmt` crate's in-memory tree store, which keeps the
/// authenticated tree's nodes and value history.
#[verifier::external_type_specification]
#[verifier::external_body]
pub struct ExMockTreeStore(jmt::mock::MockTreeStore);

/// The leaf map of the tree: key hash to value, for the live leaves of
/// the most recently applied version.
pub uninterp spec fn tree_leaves(t: jmt::mock::MockTreeStore) -> Map<Seq<u8>, Seq<u8>>;

/// The lowest version number that may still be applied to the tree.
pub uninterp spec fn tree_next_version(t: jmt::mock::MockTreeStore) -> int;

/// The root hash that the `jmt` crate computes for a given leaf map. The
/// tree's root is a function of its live leaves alone.
pub uninterp spec fn jmt_root_of(leaves: Map<Seq<u8>, Seq<u8>>) -> Seq<u8>;

/// The view of a list of hashed changes: (key hash, optional value).
pub open spec fn hashed_changes_view(v: Seq<(KeyHash, Option<Vec<u8>>)>) -> Seq<
    (Seq<u8>, Option<Seq<u8>>),
> {
    Seq::new(v.len(), |i: int| (v[i].0@, opt_view(v[i].1)))
}

/// The leaf map after applying `changes` in order: a present value
/// replaces the leaf under its key hash, an absent one deletes it.
pub open spec fn leaves_after(
    m: Map<Seq<u8>, Seq<u8>>,
    changes: Seq<(Seq<u8>, Option<Seq<u8>>)>,
) -> Map<Seq<u8>, Seq<u8>>
    decreases changes.len(),
{
    if changes.len() == 0 {
        m
    } else {
        let rest = leaves_after(m, changes.drop_last());
        let last = changes.last();
        match last.1 {
            Some(v) => rest.insert(last.0, v),
            None => rest.remove(last.0),
        }
    }
}

/// The empty leaf map.
pub open spec fn empty_leaves() -> Map<Seq<u8>, Seq<u8>> {
    Map::empty()
}

/// Relies on `jmt::mock::MockTreeStore::default`: a fresh store holds no
/// nodes, so the tree over it has no leaves and version 0 is free.
#[verifier::external_body]
pub fn tree_new() -> (fresh: jmt::mock::MockTreeStore)
    ensures
        tree_leaves(fresh) == empty_leaves(),
        tree_next_version(fresh) == 0,
{
    jmt::mock::MockTreeStore::default()
}

/// Relies on `JellyfishMerkleTree::EMPTY_ROOT`: the root of the tree
/// with no leaves.
#[verifier::external_body]
pub fn empty_root() -> (r: RootHash)
    ensures
        r@ == jmt_root_of(empty_leaves()),
        r.wf(),
{
    let root = jmt::Sha256Jmt::<'static, jmt::mock::MockTreeStore>::EMPTY_ROOT;
    RootHash { bytes: root.0.to_vec() }
}

/// Relies on `JellyfishMerkleTree::put_value_set` and
/// `MockTreeStore::write_node_batch`: applies one version's value set,
/// returning the new root, which the `jmt` crate computes from the live
/// leaves alone. At exactly the next version the call succeeds: this
/// store's reads are infallible, a root node is recorded for every
/// applied version (a no-op set copies the previous root forward), and
/// a fresh version's node batch cannot collide with stored nodes.
#[verifier::external_body]
pub fn tree_apply(
    t: &mut jmt::mock::MockTreeStore,
    changes: &Vec<(KeyHash, Option<Vec<u8>>)>,
    version: u64,
) -> (r: Result<RootHash, anyhow::Error>)
    requires
        version == tree_next_version(*old(t)),
        forall|i: int| 0 <= i < changes@.len() ==> (#[trigger] changes@[i].0).wf(),
    ensures
        r is Ok,
        tree_leaves(*final(t)) == leaves_after(
            tree_leaves(*old(t)),
            hashed_changes_view(changes@),
        ),
        tree_next_version(*final(t)) == version + 1,
        r is Ok ==> (r->Ok_0)@ == jmt_root_of(tree_leaves(*final(t))) && (r->Ok_0).wf(),
{
    let tree = jmt::Sha256Jmt::new(t);
    let mut value_set: Vec<(jmt::KeyHash, Option<Vec<u8>>)> = Vec::new();
    for (kh, v) in changes.iter() {
        let raw: [u8; 32] = kh.bytes.as_slice().try_into().expect("digest is 32 bytes");
        value_set.push((jmt::KeyHash(raw), v.clone()));
    }
    let (root, batch) = tree.put_value_set(value_set, version)?;
    t.write_node_batch(&batch.node_batch)?;
    Ok(RootHash { bytes: root.0.to_vec() })
}

/// A membership / non-membership proof as the `jmt` crate produces it,
/// carried opaquely.
#[verifier::external_body]
pub struct MerkleProof {
    proof: jmt::proof::SparseMerkleProof<sha2::Sha256>,
}

/// Relies on `JellyfishMerkleTree::get_with_proof`: the value stored
/// under `key_hash` at `version`, with a Merkle proof for it. At the
/// most recently applied version the value is the live leaf under that
/// hash, and the call succeeds: a root node exists at every applied
/// version and this store's reads are infallible.
#[verifier::external_body]
pub fn tree_get_with_proof(t: &jmt::mock::MockTreeStore, key_hash: &KeyHash, version: u64) -> (r: Result<
    (Option<Vec<u8>>, MerkleProof),
    anyhow::Error,
>)
    requires
        key_hash.wf(),
    ensures
        (version + 1 == tree_next_version(*t)) ==> r is Ok,
        (r is Ok && version + 1 == tree_next_version(*t)) ==> opt_view((r->Ok_0).0) == (if
        tree_leaves(*t).contains_key(key_hash@) {
            Some(tree_leaves(*t)[key_hash@])
        } else {
            Option::<Seq<u8>>::None
        }),
{
    let tree = jmt::Sha256Jmt::new(t);
    let raw: [u8; 32] = key_hash.bytes.as_slice().try_into().expect("digest is 32 bytes");
    match tree.get_with_proof(jmt::KeyHash(raw), version) {
        Ok((value, proof)) => Ok((value, MerkleProof { proof })),
        Err(e) => Err(e),
    }
}

/// Declares tokio's watch-channel sender.
#[verifier::external_type_specification]
#[verifier::external_body]
#[verifier::reject_recursive_types(T)]
pub struct ExWatchSender<T>(tokio::sync::watch::Sender<T>);

/// Declares tokio's watch-channel receiver.
#[verifier::external_type_specification]
#[verifier::external_body]
#[verifier::reject_recursive_types(T)]
pub struct ExWatchReceiver<T>(tokio::sync::watch::Receiver<T>);

/// Relies on `tokio::sync::watch::channel`: a sender whose receivers
/// observe the latest sent value. The initial receiver is dropped;
/// subscribers get fresh ones later.
#[verifier::external_body]
pub fn bus_new<T>(initial: T) -> tokio::sync::watch::Sender<T> {
    let (tx, _rx) = tokio::sync::watch::channel(initial);
    tx
}

/// Relies on `watch::Sender::subscribe`: a receiver that observes only
/// values sent after its creation, seeing at least the most recent one.
#[verifier::external_body]
pub fn bus_subscribe<T>(tx: &tokio::sync::watch::Sender<T>) -> tokio::sync::watch::Receiver<T> {
    tx.subscribe()
}

/// Relies on `watch::Sender::send`: publishes `value` as the latest; a
/// send with no receivers is not an error and is ignored.
#[verifier::external_body]
pub fn bus_send<T>(tx: &tokio::sync::watch::Sender<T>, value: T) {
    let _ = tx.send(value);
}

} // verus!
