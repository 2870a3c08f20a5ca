use authstore::delta::StateDelta;
use authstore::errors::StorageError;
use authstore::storage::Storage;

use sha2::Digest;

fn bytes(s: &str) -> Vec<u8> {
    s.as_bytes().to_vec()
}

#[test]
fn empty_store_pre_genesis() {
    let storage = Storage::new();
    assert_eq!(storage.latest_version(), u64::MAX);
    let snap = storage.latest_snapshot();
    assert_eq!(snap.version(), u64::MAX);
    let root = snap.root_hash();
    // The empty-tree root is the jmt crate's own constant.
    let expected = jmt::Sha256Jmt::<'static, jmt::mock::MockTreeStore>::EMPTY_ROOT;
    assert_eq!(root.bytes.as_slice(), expected.0.as_slice());
}

#[test]
fn first_commit_writes_key() {
    let mut storage = Storage::new();
    let mut delta = StateDelta::new(storage.latest_snapshot());
    delta.put(bytes("a"), vec![0x01]);
    let root = storage.commit(delta).expect("commit succeeds");
    assert_eq!(root.bytes.len(), 32);
    assert_eq!(storage.latest_version(), 0);
    let snap = storage.snapshot(0).expect("version 0 is cached");
    assert_eq!(snap.get(&bytes("a")), Some(vec![0x01]));
    // The forward index binds "a" to its SHA-256 digest.
    let stored = storage.index_key_hash(&bytes("a")).expect("key is live");
    let digest = sha2::Sha256::digest(b"a");
    assert_eq!(stored.as_slice(), digest.as_slice());
    // The reverse index leads back to the preimage.
    let preimage = storage.index_key_of_hash(&stored).expect("hash is indexed");
    assert_eq!(preimage, bytes("a"));
}

#[test]
fn commit_root_matches_direct_tree() {
    // The root the engine reports must equal what the jmt crate
    // computes for the same value set.
    let mut storage = Storage::new();
    let mut delta = StateDelta::new(storage.latest_snapshot());
    delta.put(bytes("a"), vec![0x01]);
    delta.put(bytes("b"), vec![0x02]);
    let root = storage.commit(delta).expect("commit succeeds");

    let store = jmt::mock::MockTreeStore::default();
    let tree = jmt::Sha256Jmt::new(&store);
    let (expected, _batch) = tree
        .put_value_set(
            vec![
                (jmt::KeyHash::with::<sha2::Sha256>(b"a"), Some(vec![0x01])),
                (jmt::KeyHash::with::<sha2::Sha256>(b"b"), Some(vec![0x02])),
            ],
            0,
        )
        .expect("direct computation succeeds");
    assert_eq!(root.bytes.as_slice(), expected.0.as_slice());
}

#[test]
fn second_commit_deletes_and_adds() {
    let mut storage = Storage::new();
    let mut delta = StateDelta::new(storage.latest_snapshot());
    delta.put(bytes("a"), vec![0x01]);
    let r0 = storage.commit(delta).expect("first commit");

    let mut delta = StateDelta::new(storage.latest_snapshot());
    delta.delete(bytes("a"));
    delta.put(bytes("b"), vec![0x02]);
    let r1 = storage.commit(delta).expect("second commit");

    assert_ne!(r0.bytes, r1.bytes);
    assert_eq!(storage.latest_version(), 1);

    let snap0 = storage.snapshot(0).expect("version 0 cached");
    assert_eq!(snap0.get(&bytes("a")), Some(vec![0x01]));

    let snap1 = storage.snapshot(1).expect("version 1 cached");
    assert_eq!(snap1.get(&bytes("a")), None);
    assert_eq!(snap1.get(&bytes("b")), Some(vec![0x02]));

    // The deleted key has no index entry in either direction.
    assert_eq!(storage.index_key_hash(&bytes("a")), None);
    let digest_a = sha2::Sha256::digest(b"a").to_vec();
    assert_eq!(storage.index_key_of_hash(&digest_a), None);
}

#[test]
fn stale_base_rejected() {
    let mut storage = Storage::new();
    let mut delta = StateDelta::new(storage.latest_snapshot());
    delta.put(bytes("a"), vec![0x01]);
    storage.commit(delta).expect("first commit");

    let mut delta = StateDelta::new(storage.latest_snapshot());
    delta.delete(bytes("a"));
    delta.put(bytes("b"), vec![0x02]);
    let r1 = storage.commit(delta).expect("second commit");

    // A delta whose base is snapshot(0) no longer matches the tip.
    let old_base = storage.snapshot(0).expect("version 0 cached");
    let mut stale = StateDelta::new(old_base);
    stale.put(bytes("c"), vec![0x03]);
    let err = storage.commit(stale).expect_err("stale base must fail");
    assert!(matches!(
        err,
        StorageError::VersionMismatch { expected: 1, found: 0 }
    ));
    assert!(err.is_version_mismatch());

    // Nothing changed.
    assert_eq!(storage.latest_version(), 1);
    let snap = storage.latest_snapshot();
    assert_eq!(snap.root_hash().bytes, r1.bytes);
    assert_eq!(snap.get(&bytes("b")), Some(vec![0x02]));
    assert_eq!(snap.get(&bytes("c")), None);
}

#[test]
fn subscription_observes_commits() {
    let mut storage = Storage::new();
    let mut rx = storage.subscribe();
    assert_eq!(rx.borrow().version(), u64::MAX);

    let mut delta = StateDelta::new(storage.latest_snapshot());
    delta.put(bytes("a"), vec![0x01]);
    storage.commit(delta).expect("first commit");
    assert!(rx.has_changed().expect("sender alive"));
    assert_eq!(rx.borrow_and_update().version(), 0);

    let mut delta = StateDelta::new(storage.latest_snapshot());
    delta.put(bytes("b"), vec![0x02]);
    storage.commit(delta).expect("second commit");
    assert_eq!(rx.borrow_and_update().version(), 1);
}

#[test]
fn subscription_sees_latest_after_lag() {
    let mut storage = Storage::new();
    let rx = storage.subscribe();
    for i in 0u8..3 {
        let mut delta = StateDelta::new(storage.latest_snapshot());
        delta.put(bytes("k"), vec![i]);
        storage.commit(delta).expect("commit");
    }
    // A lagging receiver still observes the most recent snapshot.
    assert_eq!(rx.borrow().version(), 2);
    assert_eq!(rx.borrow().get(&bytes("k")), Some(vec![2]));
}

#[test]
fn nonconsensus_write_then_delete() {
    let mut plain = Storage::new();
    let mut side = Storage::new();

    let mut delta = StateDelta::new(side.latest_snapshot());
    delta.put(bytes("a"), vec![0x01]);
    delta.nonconsensus_put(bytes("x"), vec![0xaa]);
    let side_r0 = side.commit(delta).expect("commit");

    let mut delta = StateDelta::new(side.latest_snapshot());
    delta.put(bytes("b"), vec![0x02]);
    delta.nonconsensus_delete(bytes("x"));
    let side_r1 = side.commit(delta).expect("commit");

    let snap = side.latest_snapshot();
    assert_eq!(snap.nonconsensus_get(&bytes("x")), None);

    // The same two commits without the nonconsensus writes produce the
    // same authenticated roots.
    let mut delta = StateDelta::new(plain.latest_snapshot());
    delta.put(bytes("a"), vec![0x01]);
    let plain_r0 = plain.commit(delta).expect("commit");
    let mut delta = StateDelta::new(plain.latest_snapshot());
    delta.put(bytes("b"), vec![0x02]);
    let plain_r1 = plain.commit(delta).expect("commit");

    assert_eq!(side_r0.bytes, plain_r0.bytes);
    assert_eq!(side_r1.bytes, plain_r1.bytes);
}

#[test]
fn nonconsensus_latest_only() {
    let mut storage = Storage::new();
    let mut delta = StateDelta::new(storage.latest_snapshot());
    delta.nonconsensus_put(bytes("x"), vec![1]);
    storage.commit(delta).expect("commit");
    let mut delta = StateDelta::new(storage.latest_snapshot());
    delta.nonconsensus_put(bytes("x"), vec![2]);
    storage.commit(delta).expect("commit");
    let snap = storage.latest_snapshot();
    assert_eq!(snap.nonconsensus_get(&bytes("x")), Some(vec![2]));
}

#[test]
fn nonconsensus_prefix_iter_lists_matches() {
    let mut storage = Storage::new();
    let mut delta = StateDelta::new(storage.latest_snapshot());
    delta.nonconsensus_put(bytes("x1"), vec![1]);
    delta.nonconsensus_put(bytes("x2"), vec![2]);
    delta.nonconsensus_put(bytes("y1"), vec![3]);
    storage.commit(delta).expect("commit");
    let snap = storage.latest_snapshot();
    let listed = snap.nonconsensus_prefix_iter(&bytes("x"));
    assert_eq!(listed, vec![(bytes("x1"), vec![1]), (bytes("x2"), vec![2])]);
    // The full listing is sorted lexicographically by key.
    let all = snap.nonconsensus_prefix_iter(&Vec::new());
    assert_eq!(
        all,
        vec![
            (bytes("x1"), vec![1]),
            (bytes("x2"), vec![2]),
            (bytes("y1"), vec![3]),
        ]
    );
}

#[test]
fn determinism_across_stores() {
    let deltas: Vec<Vec<(Vec<u8>, Option<Vec<u8>>)>> = vec![
        vec![(bytes("a"), Some(vec![1])), (bytes("b"), Some(vec![2]))],
        vec![(bytes("a"), None), (bytes("c"), Some(vec![3]))],
        vec![(bytes("b"), Some(vec![4]))],
    ];
    let mut roots_one: Vec<Vec<u8>> = Vec::new();
    let mut roots_two: Vec<Vec<u8>> = Vec::new();
    for roots in [&mut roots_one, &mut roots_two] {
        let mut storage = Storage::new();
        for step in &deltas {
            let mut delta = StateDelta::new(storage.latest_snapshot());
            for (key, value) in step {
                match value {
                    Some(v) => delta.put(key.clone(), v.clone()),
                    None => delta.delete(key.clone()),
                }
            }
            roots.push(storage.commit(delta).expect("commit").bytes);
        }
    }
    assert_eq!(roots_one, roots_two);
}

#[test]
fn monotonic_versions() {
    let mut storage = Storage::new();
    for i in 0u8..5 {
        let mut delta = StateDelta::new(storage.latest_snapshot());
        delta.put(bytes("k"), vec![i]);
        storage.commit(delta).expect("commit");
        assert_eq!(storage.latest_version(), i as u64);
    }
}

#[test]
fn snapshot_stability_across_commits() {
    let mut storage = Storage::new();
    let mut delta = StateDelta::new(storage.latest_snapshot());
    delta.put(bytes("a"), vec![0x01]);
    storage.commit(delta).expect("commit");
    let pinned = storage.snapshot(0).expect("cached");
    for i in 0u8..4 {
        let mut delta = StateDelta::new(storage.latest_snapshot());
        delta.put(bytes("a"), vec![i + 10]);
        storage.commit(delta).expect("commit");
        assert_eq!(pinned.get(&bytes("a")), Some(vec![0x01]));
        assert_eq!(pinned.version(), 0);
    }
}

#[test]
fn snapshot_cache_is_bounded() {
    let mut storage = Storage::new();
    for i in 0u8..12 {
        let mut delta = StateDelta::new(storage.latest_snapshot());
        delta.put(bytes("k"), vec![i]);
        storage.commit(delta).expect("commit");
    }
    // Capacity is 10: only versions 2..=11 remain cached.
    assert!(storage.snapshot(0).is_none());
    assert!(storage.snapshot(1).is_none());
    assert!(storage.snapshot(2).is_some());
    assert!(storage.snapshot(11).is_some());
    assert!(storage.snapshot(12).is_none());
}

#[test]
fn delta_reads_shadow_base() {
    let mut storage = Storage::new();
    let mut delta = StateDelta::new(storage.latest_snapshot());
    delta.put(bytes("a"), vec![0x01]);
    delta.put(bytes("b"), vec![0x02]);
    storage.commit(delta).expect("commit");

    let mut delta = StateDelta::new(storage.latest_snapshot());
    assert_eq!(delta.get(&bytes("a")), Some(vec![0x01]));
    delta.put(bytes("a"), vec![0x09]);
    assert_eq!(delta.get(&bytes("a")), Some(vec![0x09]));
    delta.delete(bytes("b"));
    assert_eq!(delta.get(&bytes("b")), None);
    assert_eq!(delta.get(&bytes("missing")), None);
    // Last write wins within one delta.
    delta.put(bytes("a"), vec![0x0a]);
    assert_eq!(delta.get(&bytes("a")), Some(vec![0x0a]));
}

#[test]
fn get_with_proof_returns_live_value() {
    let mut storage = Storage::new();
    let mut delta = StateDelta::new(storage.latest_snapshot());
    delta.put(bytes("a"), vec![0x01]);
    storage.commit(delta).expect("commit");
    let (value, _proof) = storage.get_with_proof(&bytes("a")).expect("proof served");
    assert_eq!(value, Some(vec![0x01]));
    let (missing, _proof) = storage.get_with_proof(&bytes("nope")).expect("proof served");
    assert_eq!(missing, None);
}

#[test]
fn get_with_proof_pre_genesis_is_tree_error() {
    let storage = Storage::new();
    let result = storage.get_with_proof(&bytes("a"));
    assert!(matches!(result, Err(StorageError::Tree(_))));
}

#[test]
fn bootstrap_version_decision() {
    // Resuming from a persisted tree: the rightmost leaf's version, or
    // the pre-genesis sentinel for an empty tree.
    assert_eq!(authstore::storage::latest_version(Some(5)), 5);
    assert_eq!(authstore::storage::latest_version(Some(0)), 0);
    assert_eq!(authstore::storage::latest_version(None), u64::MAX);
}
