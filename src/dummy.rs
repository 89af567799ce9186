use vstd::prelude::*;

use crate::emoji::{EmojiHash, EmojiHasher};
use crate::merkle::{build_tree, is_pow2, leaf_hashes, leaves_digestible, tree_of, MerkleError, MerkleTree};

verus! {

/// A tree of emoji hashes over string leaves, built under the strict policy:
/// the number of leaves must be a power of two.
#[derive(Debug, PartialEq, Eq)]
pub struct DummyMerkleTree {
    tree: Vec<EmojiHash>,
}

impl DummyMerkleTree {
    /// Builds the tree over `leaves`; fails with `LeafCount` unless their number
    /// is a power of two.
    pub fn new(leaves: &[&'static str]) -> (r: Result<Self, MerkleError>)
        requires
            leaves_digestible(leaves@),
        ensures
            is_pow2(leaves@.len()) ==> (r matches Ok(t) && t.nodes() == tree_of::<EmojiHasher>(
                leaf_hashes::<&'static str, EmojiHasher>(leaves@),
            )),
            !is_pow2(leaves@.len()) ==> r matches Err(MerkleError::LeafCount),
    {
        let hasher = EmojiHasher;
        match build_tree(&hasher, leaves) {
            Ok(tree) => Ok(DummyMerkleTree { tree }),
            Err(e) => Err(e),
        }
    }
}

impl MerkleTree<EmojiHasher> for DummyMerkleTree {
    closed spec fn nodes(&self) -> Seq<EmojiHash> {
        self.tree@
    }

    fn get_tree(&self) -> (r: &[EmojiHash]) {
        self.tree.as_slice()
    }
}

} // verus!
