use vstd::prelude::*;

use crate::chunk::{copy_range, Chunk};
use crate::hasher::{max_digest_input, AsBytes, Hasher};
use crate::merkle::{
    build_padded_tree, is_pow2, lemma_proof_round_trip, next_pow2_spec, padded_level,
    partial_root_spec, proof_spec, tree_of, MerkleError, MerkleTree,
};
use crate::sha256::{zero_hash, Sha256Hash, Sha256Hasher};

verus! {

/// The size of every chunk but the last.
pub const CHUNK_BYTES: usize = 1024;

/// An error of a file's construction or of a chunk lookup.
#[derive(Debug, PartialEq, Eq, Structural)]
pub enum FileError {
    /// The tree engine failed.
    Merkle(MerkleError),
    /// The requested chunk does not exist, or the input held no data.
    File,
}

impl From<MerkleError> for FileError {
    fn from(e: MerkleError) -> (r: FileError) {
        FileError::Merkle(e)
    }
}

impl vstd::std_specs::convert::FromSpecImpl<MerkleError> for FileError {
    open spec fn obeys_from_spec() -> bool {
        true
    }

    open spec fn from_spec(e: MerkleError) -> FileError {
        FileError::Merkle(e)
    }
}

/// The number of chunks of an input of `len` bytes: `len / 1024`, rounded up.
pub open spec fn chunk_count(len: nat) -> nat {
    (len + CHUNK_BYTES - 1) as nat / (CHUNK_BYTES as nat)
}

/// The bytes of chunk `i` of `data`.
pub open spec fn chunk_data(data: Seq<u8>, i: int) -> Seq<u8> {
    let end = if (i + 1) * CHUNK_BYTES < data.len() {
        (i + 1) * CHUNK_BYTES
    } else {
        data.len() as int
    };
    data.subrange(i * CHUNK_BYTES, end)
}

/// The chunks of `data`, in order.
pub open spec fn data_chunks(data: Seq<u8>) -> Seq<Seq<u8>> {
    Seq::new(chunk_count(data.len()), |i: int| chunk_data(data, i))
}

/// The bytes of each chunk.
pub open spec fn chunks_bytes(chunks: Seq<Chunk>) -> Seq<Seq<u8>> {
    chunks.map_values(|c: Chunk| c.data@)
}

/// A chunk's bytes right-padded with zeros to the full chunk size.
pub open spec fn padded_bytes(b: Seq<u8>) -> Seq<u8> {
    if b.len() < CHUNK_BYTES {
        b + Seq::new((CHUNK_BYTES - b.len()) as nat, |i: int| 0u8)
    } else {
        b
    }
}

/// The leaf hash of a chunk: the digest of its padded bytes.
pub open spec fn leaf_hash(b: Seq<u8>) -> Sha256Hash {
    Sha256Hasher::spec_digest(padded_bytes(b))
}

/// The leaf hashes of chunks, before padding.
pub open spec fn leaf_level(chunks: Seq<Seq<u8>>) -> Seq<Sha256Hash> {
    chunks.map_values(|b: Seq<u8>| leaf_hash(b))
}

/// The flat tree over chunks: their leaf hashes padded with the zero hash up to
/// the next power of two, then the levels above.
pub open spec fn chunk_tree_spec(chunks: Seq<Seq<u8>>) -> Seq<Sha256Hash> {
    tree_of::<Sha256Hasher>(padded_level(leaf_level(chunks), zero_hash()))
}

/// A copy of a chunk whose bytes are right-padded with zeros to the full chunk size.
fn pad_data(c: &Chunk) -> (r: Chunk)
    requires
        c.data@.len() <= CHUNK_BYTES,
    ensures
        r.data@ == padded_bytes(c.data@),
        r.leaf_idx == c.leaf_idx,
{
    let mut p = copy_range(c.data.as_slice(), 0, c.data.len());
    assert(c.data@.subrange(0, c.data@.len() as int) =~= c.data@);
    let ghost len = c.data@.len();
    while p.len() < CHUNK_BYTES
        invariant
            len <= p@.len() <= CHUNK_BYTES,
            len == c.data@.len(),
            p@ =~= padded_bytes(c.data@).subrange(0, p@.len() as int),
        decreases CHUNK_BYTES - p@.len(),
    {
        p.push(0u8);
    }
    assert(p@ =~= padded_bytes(c.data@));
    Chunk { data: p, leaf_idx: c.leaf_idx }
}

/// The leaf hash of a chunk.
fn pad_payload(hasher: &Sha256Hasher, l: &Chunk) -> (r: Sha256Hash)
    requires
        l.data@.len() <= max_digest_input(),
    ensures
        r == leaf_hash(l.data@),
{
    if l.len() < CHUNK_BYTES {
        let p = pad_data(l);
        return hasher.digest(p.as_bytes());
    }
    hasher.digest(l.as_bytes())
}

/// Chunks whose bytes every digest accepts.
pub open spec fn chunks_digestible(chunks: Seq<Chunk>) -> bool {
    forall|i: int| 0 <= i < chunks.len() ==> #[trigger] chunks[i].data@.len() <= max_digest_input()
}

/// The Merkle tree over a file's chunks, in the flat layout of the tree engine.
pub struct ChunkMerkleTree {
    tree: Vec<Sha256Hash>,
}

impl View for ChunkMerkleTree {
    type V = Seq<Sha256Hash>;

    closed spec fn view(&self) -> Seq<Sha256Hash> {
        self.tree@
    }
}

impl ChunkMerkleTree {
    /// Builds the padded tree over chunks; fails with `LeafCount` where there
    /// is no chunk.
    pub fn new(chunks: &[Chunk]) -> (r: Result<Self, FileError>)
        requires
            chunks@.len() <= usize::MAX / 2 + 1,
            chunks_digestible(chunks@),
        ensures
            chunks@.len() == 0 ==> r matches Err(FileError::Merkle(MerkleError::LeafCount)),
            chunks@.len() > 0 ==> (r matches Ok(t) && t@ == chunk_tree_spec(chunks_bytes(chunks@))),
    {
        let hasher = Sha256Hasher;
        let first_level = Self::build_first_level(&hasher, chunks);
        match build_padded_tree(&hasher, first_level, Sha256Hash::zero()) {
            Ok(tree) => Ok(Self { tree }),
            Err(e) => Err(FileError::Merkle(e)),
        }
    }

    /// The leaf hash of each chunk, in order.
    fn build_first_level(hasher: &Sha256Hasher, leaves: &[Chunk]) -> (r: Vec<Sha256Hash>)
        requires
            chunks_digestible(leaves@),
        ensures
            r@ == leaf_level(chunks_bytes(leaves@)),
    {
        let mut hashes: Vec<Sha256Hash> = Vec::new();
        let mut i: usize = 0;
        while i < leaves.len()
            invariant
                i <= leaves@.len(),
                chunks_digestible(leaves@),
                hashes@ =~= leaf_level(chunks_bytes(leaves@)).subrange(0, i as int),
            decreases leaves.len() - i,
        {
            hashes.push(pad_payload(hasher, &leaves[i]));
            i = i + 1;
        }
        assert(hashes@ =~= leaf_level(chunks_bytes(leaves@)));
        hashes
    }

    /// The root: the last node. Fails with `InvalidIdx` on an empty tree.
    pub fn root(&self) -> (r: Result<Sha256Hash, FileError>)
        ensures
            self@.len() > 0 ==> r == Ok::<Sha256Hash, FileError>(self@.last()),
            self@.len() == 0 ==> r == Err::<Sha256Hash, FileError>(
                FileError::Merkle(MerkleError::InvalidIdx),
            ),
    {
        if self.tree.len() == 0 {
            return Err(FileError::Merkle(MerkleError::InvalidIdx));
        }
        Ok(self.tree[self.tree.len() - 1])
    }
}

impl MerkleTree<Sha256Hasher> for ChunkMerkleTree {
    open spec fn nodes(&self) -> Seq<Sha256Hash> {
        self@
    }

    fn get_tree(&self) -> (r: &[Sha256Hash]) {
        self.tree.as_slice()
    }
}

/// The bytes of a file held as chunks, with the Merkle tree over them.
pub struct File {
    chunks: Vec<Chunk>,
    tree: ChunkMerkleTree,
}

impl File {
    #[verifier::type_invariant]
    spec fn inv(&self) -> bool {
        &&& 1 <= self.chunks@.len() <= usize::MAX / 4
        &&& forall|i: int|
            0 <= i < self.chunks@.len() ==> #[trigger] self.chunks@[i].leaf_idx == i
                && 1 <= self.chunks@[i].data@.len() <= CHUNK_BYTES
        &&& self.tree@ == chunk_tree_spec(chunks_bytes(self.chunks@))
    }

    /// The bytes of each chunk, in order.
    pub closed spec fn spec_chunks(&self) -> Seq<Seq<u8>> {
        chunks_bytes(self.chunks@)
    }

    /// The nodes of the file's tree, which its chunks determine.
    pub open spec fn spec_tree(&self) -> Seq<Sha256Hash> {
        chunk_tree_spec(self.spec_chunks())
    }

    /// Splits `data` into chunks of `CHUNK_BYTES`, the last holding the rest, each
    /// tagged with its position.
    pub fn to_chunks(data: &[u8]) -> (r: Vec<Chunk>)
        ensures
            chunks_bytes(r@) == data_chunks(data@),
            forall|i: int| 0 <= i < r@.len() ==> #[trigger] r@[i].leaf_idx == i,
    {
        let len = data.len();
        let mut chunks: Vec<Chunk> = Vec::new();
        let mut start: usize = 0;
        let mut i: usize = 0;
        while start < len
            invariant
                len == data@.len(),
                i == chunks@.len(),
                start <= len,
                start < len ==> start == i * CHUNK_BYTES,
                start == len ==> len <= i * CHUNK_BYTES,
                i == 0 || (i - 1) * CHUNK_BYTES < len,
                forall|j: int| 0 <= j < i ==> #[trigger] chunks@[j].leaf_idx == j,
                forall|j: int| 0 <= j < i ==> #[trigger] chunks@[j].data@ == chunk_data(data@, j),
            decreases len - start,
        {
            let end = if len - start > CHUNK_BYTES {
                start + CHUNK_BYTES
            } else {
                len
            };
            let bytes = copy_range(data, start, end);
            chunks.push(Chunk { data: bytes, leaf_idx: i });
            start = end;
            i = i + 1;
        }
        assert(i == chunk_count(len as nat));
        assert(chunks_bytes(chunks@) =~= data_chunks(data@));
        chunks
    }

    /// Chunks `data` and builds the padded tree over the chunks. Fails with
    /// `File` on empty input.
    pub fn new(data: &[u8]) -> (r: Result<Self, FileError>)
        ensures
            data@.len() == 0 ==> r matches Err(FileError::File),
            data@.len() > 0 ==> (r matches Ok(f) && f.spec_chunks() == data_chunks(data@)),
    {
        if data.len() == 0 {
            return Err(FileError::File);
        }
        let chunks = Self::to_chunks(data);
        proof {
            lemma_chunk_shape(data@);
            assert forall|i: int| 0 <= i < chunks@.len() implies 1 <= #[trigger] chunks@[i].data@.len()
                <= CHUNK_BYTES by {
                assert(chunks_bytes(chunks@)[i] == chunks@[i].data@);
            }
        }
        Self::from_chunks(chunks)
    }

    /// Builds the padded tree over chunks that are tagged with their positions
    /// and hold 1 to `CHUNK_BYTES` bytes each. Fails with `File` where there is
    /// no chunk.
    pub fn from_chunks(chunks: Vec<Chunk>) -> (r: Result<Self, FileError>)
        requires
            chunks@.len() <= usize::MAX / 4,
            forall|i: int|
                0 <= i < chunks@.len() ==> #[trigger] chunks@[i].leaf_idx == i && 1
                    <= chunks@[i].data@.len() <= CHUNK_BYTES,
        ensures
            chunks@.len() == 0 ==> r matches Err(FileError::File),
            chunks@.len() > 0 ==> (r matches Ok(f) && f.spec_chunks() == chunks_bytes(chunks@)),
    {
        if chunks.len() == 0 {
            return Err(FileError::File);
        }
        proof {
            assert forall|i: int| 0 <= i < chunks@.len() implies #[trigger] chunks@[i].data@.len()
                <= max_digest_input() by {
                assert(chunks@[i].leaf_idx == i);
            }
        }
        let tree = match ChunkMerkleTree::new(chunks.as_slice()) {
            Ok(tree) => tree,
            Err(e) => return Err(e),
        };
        Ok(File { chunks, tree })
    }

    /// The root hash of the file's tree.
    pub fn get_root(&self) -> (r: Result<Sha256Hash, FileError>)
        ensures
            r == Ok::<Sha256Hash, FileError>(self.spec_tree().last()),
    {
        proof {
            use_type_invariant(self);
            self.lemma_tree_len();
        }
        self.tree.root()
    }

    /// The number of chunks.
    pub fn get_size(&self) -> (r: usize)
        ensures
            r == self.spec_chunks().len(),
            1 <= r <= usize::MAX / 4,
    {
        proof {
            use_type_invariant(self);
        }
        self.chunks.len()
    }

    /// Chunk `idx` with its proof. Fails with `File` where there is no such chunk.
    pub fn get_chunk(&self, idx: usize) -> (r: Result<(Chunk, Vec<Sha256Hash>), FileError>)
        ensures
            idx >= self.spec_chunks().len() ==> r matches Err(FileError::File),
            idx < self.spec_chunks().len() ==> (r matches Ok((c, p)) && c.data@
                == self.spec_chunks()[idx as int] && c.leaf_idx == idx && proof_spec(
                self.spec_tree(),
                idx as int,
            ) == Ok::<Seq<Sha256Hash>, MerkleError>(p@)),
    {
        proof {
            use_type_invariant(self);
        }
        if idx >= self.chunks.len() {
            return Err(FileError::File);
        }
        let chunk = self.chunks[idx].duplicate();
        proof {
            self.lemma_tree_len();
            lemma_padded_level(leaf_level(self.spec_chunks()));
            lemma_proof_round_trip::<Sha256Hasher>(
                padded_level(leaf_level(self.spec_chunks()), zero_hash()),
                idx as int,
            );
        }
        let proof = match self.tree.get_proof_hashes(chunk.leaf_idx) {
            Ok(p) => p,
            Err(e) => return Err(FileError::Merkle(e)),
        };
        Ok((chunk, proof))
    }

    /// The root hash, the last node of the tree.
    pub fn trusted_root(&self) -> (r: Result<Sha256Hash, FileError>)
        ensures
            r == Ok::<Sha256Hash, FileError>(self.spec_tree().last()),
    {
        proof {
            use_type_invariant(self);
            self.lemma_tree_len();
        }
        let tree = self.tree.get_tree();
        if tree.len() == 0 {
            return Err(FileError::File);
        }
        Ok(tree[tree.len() - 1])
    }

    proof fn lemma_tree_len(&self)
        requires
            self.inv(),
        ensures
            self.tree@.len() == 2 * next_pow2_spec(self.chunks@.len()) - 1,
    {
        lemma_padded_level(leaf_level(self.spec_chunks()));
    }
}

/// The padded first level holds a power of two of hashes: the leaf hashes, then
/// the zero hash.
proof fn lemma_padded_level(leaves: Seq<Sha256Hash>)
    ensures
        is_pow2(padded_level(leaves, zero_hash()).len()),
        padded_level(leaves, zero_hash()).len() == next_pow2_spec(leaves.len()),
        tree_of::<Sha256Hasher>(padded_level(leaves, zero_hash())).len() == 2 * next_pow2_spec(
            leaves.len(),
        ) - 1,
{
    crate::merkle::lemma_next_pow2_facts(leaves.len());
    crate::merkle::lemma_tree_of_facts::<Sha256Hasher>(padded_level(leaves, zero_hash()));
}

/// Chunking gives `ceil(len / 1024)` chunks of 1 to 1024 bytes.
proof fn lemma_chunk_shape(data: Seq<u8>)
    ensures
        data_chunks(data).len() == chunk_count(data.len()),
        forall|i: int|
            0 <= i < chunk_count(data.len()) ==> 1 <= #[trigger] chunk_data(data, i).len()
                <= CHUNK_BYTES,
{
}

/// Rebuilds the root of a file's tree from one chunk, its index, the leaf count
/// of the tree and the chunk's proof. A chunk shorter than `CHUNK_BYTES` is
/// padded with zeros first, as in the tree.
pub fn root_from_partial(
    hasher: &Sha256Hasher,
    leaf: &Chunk,
    leaf_idx: usize,
    leaf_count: usize,
    hashes: Vec<Sha256Hash>,
) -> (r: Result<Sha256Hash, FileError>)
    requires
        leaf.data@.len() <= max_digest_input(),
    ensures
        r == match partial_root_spec::<Sha256Hasher>(
            padded_bytes(leaf.data@),
            leaf_idx as int,
            leaf_count as int,
            hashes@,
        ) {
            Ok(h) => Ok::<Sha256Hash, FileError>(h),
            Err(e) => Err::<Sha256Hash, FileError>(FileError::Merkle(e)),
        },
{
    let res = if leaf.len() < CHUNK_BYTES {
        let padded_leaf = pad_data(leaf);
        crate::merkle::root_from_partial(hasher, &padded_leaf, leaf_idx, leaf_count, hashes)
    } else {
        crate::merkle::root_from_partial(hasher, leaf, leaf_idx, leaf_count, hashes)
    };
    match res {
        Ok(h) => Ok(h),
        Err(e) => Err(FileError::Merkle(e)),
    }
}

/// Chunking an input of `S > 0` bytes gives `ceil(S / CHUNK_BYTES)` chunks; all
/// but the last are full, and the last holds the remaining
/// `S - CHUNK_BYTES * (count - 1)` bytes. Together they spell the input.
pub proof fn lemma_chunking(data: Seq<u8>)
    requires
        data.len() > 0,
    ensures
        ({
            let c = data_chunks(data).len() as int;
            &&& (c - 1) * CHUNK_BYTES < data.len() <= c * CHUNK_BYTES
            &&& forall|i: int| 0 <= i < c - 1 ==> #[trigger] data_chunks(data)[i].len() == CHUNK_BYTES
            &&& data_chunks(data).last().len() == data.len() - CHUNK_BYTES * (c - 1)
            &&& data_chunks(data).fold_left(Seq::<u8>::empty(), |acc: Seq<u8>, b: Seq<u8>| acc + b) == data
        }),
{
    let c = data_chunks(data).len() as int;
    lemma_chunks_concat(data, c);
    assert(data.subrange(0, data.len() as int) =~= data);
}

proof fn lemma_chunks_concat(data: Seq<u8>, k: int)
    requires
        0 <= k <= data_chunks(data).len(),
    ensures
        data_chunks(data).subrange(0, k).fold_left(Seq::<u8>::empty(), |acc: Seq<u8>, b: Seq<u8>| acc + b)
            == data.subrange(0, if k * CHUNK_BYTES < data.len() { k * CHUNK_BYTES } else { data.len() as int }),
    decreases k,
{
    let f = |acc: Seq<u8>, b: Seq<u8>| acc + b;
    let cs = data_chunks(data).subrange(0, k);
    if k == 0 {
        assert(data.subrange(0, 0) =~= Seq::<u8>::empty());
    } else {
        lemma_chunks_concat(data, k - 1);
        assert(cs.drop_last() =~= data_chunks(data).subrange(0, k - 1));
        let prev_end = if (k - 1) * CHUNK_BYTES < data.len() { (k - 1) * CHUNK_BYTES } else { data.len() as int };
        let end = if k * CHUNK_BYTES < data.len() { k * CHUNK_BYTES } else { data.len() as int };
        assert(cs.last() == chunk_data(data, k - 1));
        assert(data.subrange(0, prev_end) + data.subrange(prev_end, end) =~= data.subrange(0, end));
    }
}

/// For `n` chunks the tree holds `2 * next_pow2(n) - 1` nodes.
pub proof fn lemma_tree_len(chunks: Seq<Seq<u8>>)
    ensures
        chunk_tree_spec(chunks).len() == 2 * next_pow2_spec(chunks.len()) - 1,
{
    lemma_padded_level(leaf_level(chunks));
}

/// The first `n` nodes of the tree are the chunks' leaf hashes, and the nodes
/// from `n` up to `next_pow2(n)` are the zero hash.
pub proof fn lemma_padding(chunks: Seq<Seq<u8>>)
    ensures
        forall|i: int| 0 <= i < chunks.len() ==> #[trigger] chunk_tree_spec(chunks)[i] == leaf_hash(chunks[i]),
        forall|i: int|
            chunks.len() <= i < next_pow2_spec(chunks.len()) ==> #[trigger] chunk_tree_spec(chunks)[i]
                == zero_hash(),
{
    let level = padded_level(leaf_level(chunks), zero_hash());
    lemma_padded_level(leaf_level(chunks));
    crate::merkle::lemma_tree_of_facts::<Sha256Hasher>(level);
}

/// Round trip: for every chunk `i` of a file of `n` chunks, the tree gives a
/// proof, and rebuilding the root from the chunk's bytes, `i`, the tree's leaf
/// count `next_pow2(n)` and that proof gives the root of the tree.
pub proof fn lemma_file_round_trip(chunks: Seq<Seq<u8>>, i: int)
    requires
        1 <= chunks.len() <= usize::MAX / 4,
        0 <= i < chunks.len(),
    ensures
        proof_spec(chunk_tree_spec(chunks), i) matches Ok(p) && partial_root_spec::<Sha256Hasher>(
            padded_bytes(chunks[i]),
            i,
            next_pow2_spec(chunks.len()) as int,
            p,
        ) == Ok::<Sha256Hash, MerkleError>(chunk_tree_spec(chunks).last()),
{
    let level = padded_level(leaf_level(chunks), zero_hash());
    lemma_padded_level(leaf_level(chunks));
    crate::merkle::lemma_next_pow2_facts(chunks.len());
    lemma_proof_round_trip::<Sha256Hasher>(level, i);
    assert(level[i] == leaf_hash(chunks[i]));
}

} // verus!
