//! Hash digests, root hashes, and the composite versioned-key codec.
//!
//! A leaf value is addressed by a 40-byte composite key: the 32-byte key
//! hash followed by the version as 8 big-endian bytes. Big-endian order
//! makes lexicographic scans sort by (key hash, ascending version).

use vstd::prelude::*;

use crate::bytes::copy_bytes;
use crate::errors::StorageError;

verus! {

/// Length in bytes of a key hash or root hash digest.
pub const DIGEST_LEN: usize = 32;

/// Length in bytes of an encoded [`VersionedKey`].
pub const VERSIONED_KEY_LEN: usize = 40;

/// The version denoting "pre-genesis / empty tree": `2^64 - 1`.
pub const PRE_GENESIS_VERSION: u64 = 0xffff_ffff_ffff_ffff;

/// A 32-byte digest of an authenticated key.
#[derive(Debug)]
pub struct KeyHash {
    pub bytes: Vec<u8>,
}

impl View for KeyHash {
    type V = Seq<u8>;

    open spec fn view(&self) -> Seq<u8> {
        self.bytes@
    }
}

impl KeyHash {
    /// A digest always holds exactly 32 bytes.
    pub open spec fn wf(&self) -> bool {
        self@.len() == DIGEST_LEN
    }

    /// Returns a fresh copy of this digest.
    pub fn duplicate(&self) -> (r: KeyHash)
        ensures
            r@ == self@,
    {
        KeyHash { bytes: copy_bytes(&self.bytes) }
    }
}

/// The 32-byte root hash of the authenticated tree at some version.
#[derive(Debug)]
pub struct RootHash {
    pub bytes: Vec<u8>,
}

impl View for RootHash {
    type V = Seq<u8>;

    open spec fn view(&self) -> Seq<u8> {
        self.bytes@
    }
}

impl RootHash {
    /// A root hash always holds exactly 32 bytes.
    pub open spec fn wf(&self) -> bool {
        self@.len() == DIGEST_LEN
    }

    /// Returns a fresh copy of this root hash.
    pub fn duplicate(&self) -> (r: RootHash)
        ensures
            r@ == self@,
    {
        RootHash { bytes: copy_bytes(&self.bytes) }
    }
}

/// The big-endian byte of `v` at position `i` (0 is the most significant).
pub open spec fn be_byte(v: u64, i: int) -> u8 {
    ((v >> (((7 - i) * 8) as u64)) & 0xff) as u8
}

/// The 8 big-endian bytes of `v`, most significant first.
pub open spec fn u64_be_seq(v: u64) -> Seq<u8> {
    Seq::new(8, |i: int| be_byte(v, i))
}

/// The value read from 8 bytes in big-endian order.
pub open spec fn u64_from_be(s: Seq<u8>) -> u64
    recommends
        s.len() == 8,
{
    ((s[0] as u64) << 56) | ((s[1] as u64) << 48) | ((s[2] as u64) << 40) | ((s[3] as u64) << 32)
        | ((s[4] as u64) << 24) | ((s[5] as u64) << 16) | ((s[6] as u64) << 8) | (s[7] as u64)
}

/// Reading back the big-endian bytes of `v` gives `v` again.
pub proof fn lemma_u64_be_round_trip(v: u64)
    ensures
        u64_from_be(u64_be_seq(v)) == v,
{
    assert((((((v >> 56) & 0xff) as u8 as u64) << 56) | ((((v >> 48) & 0xff) as u8 as u64) << 48) | ((((v >> 40) & 0xff) as u8 as u64) << 40) | ((((v >> 32) & 0xff) as u8 as u64) << 32) | ((((v >> 24) & 0xff) as u8 as u64) << 24) | ((((v >> 16) & 0xff) as u8 as u64) << 16) | ((((v >> 8) & 0xff) as u8 as u64) << 8) | (((v >> 0) & 0xff) as u8 as u64)) == v) by (bit_vector);
    let s = u64_be_seq(v);
    assert(s[0] == ((v >> 56) & 0xff) as u8);
    assert(s[1] == ((v >> 48) & 0xff) as u8);
    assert(s[2] == ((v >> 40) & 0xff) as u8);
    assert(s[3] == ((v >> 32) & 0xff) as u8);
    assert(s[4] == ((v >> 24) & 0xff) as u8);
    assert(s[5] == ((v >> 16) & 0xff) as u8);
    assert(s[6] == ((v >> 8) & 0xff) as u8);
    assert(s[7] == ((v >> 0) & 0xff) as u8);
}

/// Writing the value read from 8 bytes reproduces those bytes.
pub proof fn lemma_u64_be_inverse(s: Seq<u8>)
    requires
        s.len() == 8,
    ensures
        u64_be_seq(u64_from_be(s)) == s,
{
    let b0 = s[0];
    let b1 = s[1];
    let b2 = s[2];
    let b3 = s[3];
    let b4 = s[4];
    let b5 = s[5];
    let b6 = s[6];
    let b7 = s[7];
    assert((((((b0 as u64) << 56) | ((b1 as u64) << 48) | ((b2 as u64) << 40) | ((b3 as u64) << 32) | ((b4 as u64) << 24) | ((b5 as u64) << 16) | ((b6 as u64) << 8) | (b7 as u64)) >> 56) & 0xff) as u8 == b0) by (bit_vector);
    assert((((((b0 as u64) << 56) | ((b1 as u64) << 48) | ((b2 as u64) << 40) | ((b3 as u64) << 32) | ((b4 as u64) << 24) | ((b5 as u64) << 16) | ((b6 as u64) << 8) | (b7 as u64)) >> 48) & 0xff) as u8 == b1) by (bit_vector);
    assert((((((b0 as u64) << 56) | ((b1 as u64) << 48) | ((b2 as u64) << 40) | ((b3 as u64) << 32) | ((b4 as u64) << 24) | ((b5 as u64) << 16) | ((b6 as u64) << 8) | (b7 as u64)) >> 40) & 0xff) as u8 == b2) by (bit_vector);
    assert((((((b0 as u64) << 56) | ((b1 as u64) << 48) | ((b2 as u64) << 40) | ((b3 as u64) << 32) | ((b4 as u64) << 24) | ((b5 as u64) << 16) | ((b6 as u64) << 8) | (b7 as u64)) >> 32) & 0xff) as u8 == b3) by (bit_vector);
    assert((((((b0 as u64) << 56) | ((b1 as u64) << 48) | ((b2 as u64) << 40) | ((b3 as u64) << 32) | ((b4 as u64) << 24) | ((b5 as u64) << 16) | ((b6 as u64) << 8) | (b7 as u64)) >> 24) & 0xff) as u8 == b4) by (bit_vector);
    assert((((((b0 as u64) << 56) | ((b1 as u64) << 48) | ((b2 as u64) << 40) | ((b3 as u64) << 32) | ((b4 as u64) << 24) | ((b5 as u64) << 16) | ((b6 as u64) << 8) | (b7 as u64)) >> 16) & 0xff) as u8 == b5) by (bit_vector);
    assert((((((b0 as u64) << 56) | ((b1 as u64) << 48) | ((b2 as u64) << 40) | ((b3 as u64) << 32) | ((b4 as u64) << 24) | ((b5 as u64) << 16) | ((b6 as u64) << 8) | (b7 as u64)) >> 8) & 0xff) as u8 == b6) by (bit_vector);
    assert((((((b0 as u64) << 56) | ((b1 as u64) << 48) | ((b2 as u64) << 40) | ((b3 as u64) << 32) | ((b4 as u64) << 24) | ((b5 as u64) << 16) | ((b6 as u64) << 8) | (b7 as u64)) >> 0) & 0xff) as u8 == b7) by (bit_vector);
    let v = u64_from_be(s);
    assert(u64_be_seq(v) =~= s);
}

/// Converts `v` to its 8 big-endian bytes.
pub fn encode_u64_be(v: u64) -> (r: Vec<u8>)
    ensures
        r@ == u64_be_seq(v),
{
    let mut out: Vec<u8> = Vec::new();
    out.push(((v >> 56) & 0xff) as u8);
    out.push(((v >> 48) & 0xff) as u8);
    out.push(((v >> 40) & 0xff) as u8);
    out.push(((v >> 32) & 0xff) as u8);
    out.push(((v >> 24) & 0xff) as u8);
    out.push(((v >> 16) & 0xff) as u8);
    out.push(((v >> 8) & 0xff) as u8);
    out.push((v & 0xff) as u8);
    proof {
        assert((v >> 0) == v) by (bit_vector);
        assert(out@ =~= u64_be_seq(v));
    }
    out
}

/// Reads a value from the 8 bytes of `b` starting at `start`, big-endian.
pub fn decode_u64_be(b: &Vec<u8>, start: usize) -> (v: u64)
    requires
        start + 8 <= b@.len(),
    ensures
        v == u64_from_be(b@.subrange(start as int, start as int + 8)),
{
    let len = b.len();
    let v: u64 = ((b[start] as u64) << 56) | ((b[start + 1] as u64) << 48) | ((b[start + 2] as u64)
        << 40) | ((b[start + 3] as u64) << 32) | ((b[start + 4] as u64) << 24) | ((b[start
        + 5] as u64) << 16) | ((b[start + 6] as u64) << 8) | (b[start + 7] as u64);
    proof {
        let s = b@.subrange(start as int, start as int + 8);
        assert(s[0] == b@[start as int]);
        assert(s[7] == b@[start as int + 7]);
    }
    v
}

/// The composite address of one leaf value at one version.
pub struct VersionedKey {
    pub key_hash: KeyHash,
    pub version: u64,
}

impl View for VersionedKey {
    type V = (Seq<u8>, u64);

    open spec fn view(&self) -> (Seq<u8>, u64) {
        (self.key_hash@, self.version)
    }
}

impl VersionedKey {
    /// A versioned key is well formed when its digest is.
    pub open spec fn wf(&self) -> bool {
        self.key_hash.wf()
    }

    /// The 40-byte wire form: digest bytes, then the version big-endian.
    pub open spec fn encoding(&self) -> Seq<u8> {
        self.key_hash@ + u64_be_seq(self.version)
    }

    /// Produces the 40-byte wire form of this composite key.
    pub fn encode(&self) -> (r: Vec<u8>)
        requires
            self.wf(),
        ensures
            r@ == self.encoding(),
            r@.len() == VERSIONED_KEY_LEN,
    {
        let mut buf = copy_bytes(&self.key_hash.bytes);
        let mut tail = encode_u64_be(self.version);
        buf.append(&mut tail);
        proof {
            assert(buf@ =~= self.encoding());
        }
        buf
    }

    /// Parses a 40-byte buffer into a composite key; any other length is a
    /// decode error.
    pub fn decode(buf: Vec<u8>) -> (r: Result<VersionedKey, StorageError>)
        ensures
            buf@.len() == VERSIONED_KEY_LEN ==> {
                &&& r is Ok
                &&& (r->Ok_0).key_hash@ == buf@.subrange(0, DIGEST_LEN as int)
                &&& (r->Ok_0).version == u64_from_be(
                    buf@.subrange(DIGEST_LEN as int, VERSIONED_KEY_LEN as int),
                )
                &&& (r->Ok_0).wf()
            },
            buf@.len() != VERSIONED_KEY_LEN ==> r matches Err(StorageError::Decode),
    {
        if buf.len() != VERSIONED_KEY_LEN {
            return Err(StorageError::Decode);
        }
        let mut hash_bytes: Vec<u8> = Vec::new();
        let mut i: usize = 0;
        while i < DIGEST_LEN
            invariant
                i <= DIGEST_LEN,
                buf@.len() == VERSIONED_KEY_LEN,
                hash_bytes@ == buf@.subrange(0, i as int),
            decreases DIGEST_LEN - i,
        {
            hash_bytes.push(buf[i]);
            i = i + 1;
            proof {
                assert(hash_bytes@ =~= buf@.subrange(0, i as int));
            }
        }
        let version = decode_u64_be(&buf, DIGEST_LEN);
        Ok(VersionedKey { key_hash: KeyHash { bytes: hash_bytes }, version })
    }

    /// Round trip: decoding the encoding of any well-formed composite key
    /// yields its own digest bytes and version back.
    pub proof fn lemma_encode_then_decode(&self)
        requires
            self.wf(),
        ensures
            self.encoding().len() == VERSIONED_KEY_LEN,
            self.encoding().subrange(0, DIGEST_LEN as int) == self.key_hash@,
            u64_from_be(self.encoding().subrange(DIGEST_LEN as int, VERSIONED_KEY_LEN as int))
                == self.version,
    {
        assert(self.encoding().subrange(0, DIGEST_LEN as int) =~= self.key_hash@);
        assert(self.encoding().subrange(DIGEST_LEN as int, VERSIONED_KEY_LEN as int) =~= u64_be_seq(
            self.version,
        ));
        lemma_u64_be_round_trip(self.version);
    }

    /// The codec is a bijection on the 40-byte domain: re-encoding what was
    /// decoded from any 40-byte buffer reproduces the buffer.
    pub proof fn lemma_decode_then_encode(buf: Seq<u8>)
        requires
            buf.len() == VERSIONED_KEY_LEN,
        ensures
            buf.subrange(0, DIGEST_LEN as int) + u64_be_seq(
                u64_from_be(buf.subrange(DIGEST_LEN as int, VERSIONED_KEY_LEN as int)),
            ) == buf,
    {
        lemma_u64_be_inverse(buf.subrange(DIGEST_LEN as int, VERSIONED_KEY_LEN as int));
        assert(buf.subrange(0, DIGEST_LEN as int) + buf.subrange(
            DIGEST_LEN as int,
            VERSIONED_KEY_LEN as int,
        ) =~= buf);
    }
}

} // verus!
