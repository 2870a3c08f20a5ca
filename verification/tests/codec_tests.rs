use authstore::codec::{KeyHash, VersionedKey};
use authstore::errors::StorageError;

fn sample_hash() -> Vec<u8> {
    (0u8..32u8).collect()
}

#[test]
fn versioned_key_round_trip() {
    let key = VersionedKey {
        key_hash: KeyHash { bytes: sample_hash() },
        version: 0x0102_0304_0506_0708,
    };
    let encoded = key.encode();
    assert_eq!(encoded.len(), 40);
    let decoded = VersionedKey::decode(encoded).expect("40-byte buffer decodes");
    assert_eq!(decoded.key_hash.bytes, sample_hash());
    assert_eq!(decoded.version, 0x0102_0304_0506_0708);
}

#[test]
fn versioned_key_encode_layout() {
    let key = VersionedKey {
        key_hash: KeyHash { bytes: sample_hash() },
        version: 5,
    };
    let encoded = key.encode();
    let mut expected = sample_hash();
    expected.extend_from_slice(&[0, 0, 0, 0, 0, 0, 0, 5]);
    assert_eq!(encoded, expected);
}

#[test]
fn versioned_key_big_endian_sorts_by_version() {
    let earlier = VersionedKey {
        key_hash: KeyHash { bytes: sample_hash() },
        version: 1,
    };
    let later = VersionedKey {
        key_hash: KeyHash { bytes: sample_hash() },
        version: 256,
    };
    assert!(earlier.encode() < later.encode());
}

#[test]
fn versioned_key_decode_rejects_wrong_length() {
    for len in [0usize, 1, 39, 41, 64] {
        let buf = vec![0u8; len];
        match VersionedKey::decode(buf) {
            Err(StorageError::Decode) => {}
            _ => panic!("length {} must fail with a decode error", len),
        }
    }
}

#[test]
fn versioned_key_decode_max_version() {
    let mut buf = sample_hash();
    buf.extend_from_slice(&[0xff; 8]);
    let decoded = VersionedKey::decode(buf).expect("decodes");
    assert_eq!(decoded.version, u64::MAX);
}
