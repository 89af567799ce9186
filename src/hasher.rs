use vstd::prelude::*;

verus! {

/// The longest input, in bytes, that every digest accepts.
pub open spec fn max_digest_input() -> nat {
    0x1fff_ffff_ffff_ffff
}

/// A value that can be read as a sequence of bytes.
pub trait AsBytes {
    /// The bytes of the value.
    spec fn bytes_view(&self) -> Seq<u8>;

    fn as_bytes(&self) -> (r: &[u8])
        ensures
            r@ == self.bytes_view(),
    ;
}

/// A one-way hash function over raw bytes: total, deterministic, free of effects.
pub trait Hasher {
    type Hash: AsBytes + Copy;

    /// The hash of `data`.
    spec fn spec_digest(data: Seq<u8>) -> Self::Hash;

    /// The byte form of every hash is short, so that two of them can be hashed together.
    proof fn lemma_hash_len(h: Self::Hash)
        ensures
            h.bytes_view().len() <= 64,
    ;

    fn digest(&self, data: &[u8]) -> (r: Self::Hash)
        requires
            data@.len() <= max_digest_input(),
        ensures
            r == Self::spec_digest(data@),
    ;
}

} // verus!
