use vstd::prelude::*;

use crate::hasher::{max_digest_input, AsBytes, Hasher};

verus! {

/// The SHA-256 digest of `data`.
pub uninterp spec fn sha256_of(data: Seq<u8>) -> [u8; 32];

/// Relies on `ring::digest::digest` with `ring::digest::SHA256`: the digest of the
/// bytes, a value of 32 bytes that depends on them alone. It panics only on inputs
/// of 2^61 bytes or more, whose length in bits overflows a `u64`.
#[verifier::external_body]
fn sha256(data: &[u8]) -> (r: [u8; 32])
    requires
        data@.len() <= max_digest_input(),
    ensures
        r == sha256_of(data@),
{
    let d = ring::digest::digest(&ring::digest::SHA256, data);
    let mut out = [0u8; 32];
    out.copy_from_slice(d.as_ref());
    out
}

/// A 32-byte SHA-256 digest.
#[derive(Clone, Copy, Debug, Default, PartialEq, Eq, Hash)]
pub struct Sha256Hash(pub(crate) [u8; 32]);

impl Sha256Hash {
    pub fn new(d: [u8; 32]) -> (r: Self)
        ensures
            r@ == d@,
    {
        Self(d)
    }
}

impl View for Sha256Hash {
    type V = Seq<u8>;

    closed spec fn view(&self) -> Seq<u8> {
        self.0@
    }
}

impl AsBytes for Sha256Hash {
    open spec fn bytes_view(&self) -> Seq<u8> {
        self@
    }

    fn as_bytes(&self) -> (r: &[u8]) {
        self.0.as_slice()
    }
}

/// Hashes bytes with SHA-256.
pub struct Sha256Hasher;

impl Hasher for Sha256Hasher {
    type Hash = Sha256Hash;

    closed spec fn spec_digest(data: Seq<u8>) -> Sha256Hash {
        Sha256Hash(sha256_of(data))
    }

    proof fn lemma_hash_len(h: Sha256Hash) {
        assert(h@ == h.0@);
        assert(h.bytes_view().len() == 32);
    }

    fn digest(&self, data: &[u8]) -> (r: Sha256Hash) {
        Sha256Hash(sha256(data))
    }
}

} // verus!

verus! {

/// The all-zero hash.
pub closed spec fn zero_hash() -> Sha256Hash {
    Sha256Hash(vstd::array::spec_array_fill_for_copy_type::<u8, 32>(0u8))
}

impl Sha256Hash {
    /// The all-zero hash.
    pub fn zero() -> (r: Self)
        ensures
            r == zero_hash(),
            r@ == Seq::new(32, |i: int| 0u8),
    {
        let r = Sha256Hash([0u8; 32]);
        assert(r@ =~= Seq::new(32, |i: int| 0u8));
        r
    }
}

} // verus!
