use vstd::prelude::*;

use vstd::string::StringSliceAdditionalSpecFns;

use crate::hasher::{AsBytes, Hasher};

verus! {

/// The modulus of the emoji hash; 182 emojis follow one another from U+1F442.
pub const EMOJI_PRIME: u8 = 181;

/// The running sum of the emoji hash: each byte is added, wrapping, to the sum
/// so far taken modulo `EMOJI_PRIME`.
pub open spec fn emoji_sum(data: Seq<u8>) -> u8
    decreases data.len(),
{
    if data.len() == 0 {
        0
    } else {
        (((emoji_sum(data.drop_last()) % EMOJI_PRIME) as int + data.last()) % 256) as u8
    }
}

/// The big-endian bytes of the code point U+1F442 plus `offset < 182`.
pub open spec fn emoji_bytes(offset: u8) -> Seq<u8> {
    seq![0u8, 0x01u8, 0xF4u8, (0x42 + offset) as u8]
}

/// A tiny hash for tests of the tree engine: a code point among 182 emojis,
/// as 4 big-endian bytes.
#[derive(Clone, Copy, Debug, PartialEq, Eq)]
pub struct EmojiHash {
    hash: [u8; 4],
}

/// Relies on `char::from_u32`: the character of a code point that is a Unicode
/// scalar value.
#[verifier::external_body]
fn char_from_u32(code: u32) -> (r: Option<char>)
    ensures
        code <= 0xD7FF || (0xE000 <= code && code <= 0x10FFFF) ==> r == Some(code as char),
{
    char::from_u32(code)
}

impl EmojiHash {
    #[verifier::type_invariant]
    spec fn inv(&self) -> bool {
        exists|k: u8| k < EMOJI_PRIME && self.hash@ == emoji_bytes(k)
    }

    /// The emoji that the hash stands for: U+1F442 and the 181 code points after it.
    pub fn emoji(&self) -> (c: char)
        ensures
            c == ((0x1F400 + self@[3]) as u32) as char,
            0x1F442 <= c as u32 <= 0x1F4F6,
    {
        proof {
            use_type_invariant(self);
        }
        let code: u32 = 0x1F400u32 + self.hash[3] as u32;
        match char_from_u32(code) {
            Some(c) => c,
            None => '\u{1F442}',
        }
    }
}

impl View for EmojiHash {
    type V = Seq<u8>;

    closed spec fn view(&self) -> Seq<u8> {
        self.hash@
    }
}

impl AsBytes for EmojiHash {
    open spec fn bytes_view(&self) -> Seq<u8> {
        self@
    }

    fn as_bytes(&self) -> (r: &[u8]) {
        self.hash.as_slice()
    }
}

/// The emoji hash with the given bytes.
pub closed spec fn emoji_hash_of(bytes: Seq<u8>) -> EmojiHash {
    choose|h: EmojiHash| h@ == bytes
}

/// Hashes bytes into one of 182 emojis. Not a cryptographic hash.
pub struct EmojiHasher;

impl Hasher for EmojiHasher {
    type Hash = EmojiHash;

    open spec fn spec_digest(data: Seq<u8>) -> EmojiHash {
        emoji_hash_of(emoji_bytes(emoji_sum(data) % EMOJI_PRIME))
    }

    proof fn lemma_hash_len(h: EmojiHash) {
        assert(h@ == h.hash@);
        assert(h.bytes_view().len() == 4);
    }

    fn digest(&self, data: &[u8]) -> (r: EmojiHash) {
        let mut hash: u8 = 0;
        let mut i: usize = 0;
        while i < data.len()
            invariant
                i <= data@.len(),
                hash == emoji_sum(data@.subrange(0, i as int)),
            decreases data.len() - i,
        {
            proof {
                assert(data@.subrange(0, i + 1).drop_last() =~= data@.subrange(0, i as int));
            }
            hash = (hash % EMOJI_PRIME).wrapping_add(data[i]);
            i = i + 1;
        }
        assert(data@.subrange(0, data@.len() as int) =~= data@);
        hash = hash % EMOJI_PRIME;
        let bytes = [0u8, 0x01u8, 0xF4u8, 0x42u8 + hash];
        assert(bytes@ =~= emoji_bytes(hash));
        let r = EmojiHash { hash: bytes };
        proof {
            assert(r@ =~= emoji_bytes(hash));
            let c = emoji_hash_of(emoji_bytes(hash));
            assert(c.hash =~= r.hash);
        }
        r
    }
}

impl AsBytes for &'static str {
    open spec fn bytes_view(&self) -> Seq<u8> {
        (**self).spec_bytes()
    }

    fn as_bytes(&self) -> (r: &[u8]) {
        str::as_bytes(*self)
    }
}

} // verus!
