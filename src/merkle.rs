use vstd::prelude::*;

use crate::hasher::{max_digest_input, AsBytes, Hasher};

verus! {

/// An error of tree construction or of a lookup in a tree.
#[derive(Debug, PartialEq, Eq, Structural)]
pub enum MerkleError {
    /// A level of the tree does not hold a power of two of nodes.
    LeafCount,
    /// A node index lies outside the tree.
    InvalidIdx,
}

/// `n` is a power of two.
pub open spec fn is_pow2(n: nat) -> bool
    decreases n,
{
    if n == 0 {
        false
    } else if n == 1 {
        true
    } else {
        n % 2 == 0 && is_pow2(n / 2)
    }
}

/// The least power of two that is at least `n`.
pub open spec fn next_pow2_spec(n: nat) -> nat
    decreases n,
{
    if n <= 1 {
        1
    } else {
        2 * next_pow2_spec(((n + 1) / 2) as nat)
    }
}

/// The number of binary digits of `n` (0 for 0): for a power of two `2^k`, `k + 1`.
pub open spec fn bit_len(n: nat) -> nat
    decreases n,
{
    if n == 0 {
        0
    } else {
        1 + bit_len(n / 2)
    }
}

/// The hash of an inner node: the digest of its children's bytes, left then right.
pub open spec fn combine<H: Hasher>(l: H::Hash, r: H::Hash) -> H::Hash {
    H::spec_digest(l.bytes_view() + r.bytes_view())
}

/// The level above `level`: each pair of siblings hashed together.
pub open spec fn next_level<H: Hasher>(level: Seq<H::Hash>) -> Seq<H::Hash> {
    Seq::new(level.len() / 2, |i: int| combine::<H>(level[2 * i], level[2 * i + 1]))
}

/// The flat tree over a first level: that level, then every level above it in
/// turn, ending with the root.
pub open spec fn tree_of<H: Hasher>(level: Seq<H::Hash>) -> Seq<H::Hash>
    decreases level.len(),
{
    if level.len() <= 1 {
        level
    } else {
        level + tree_of::<H>(next_level::<H>(level))
    }
}

/// The root of the tree over a first level.
pub open spec fn root_of<H: Hasher>(level: Seq<H::Hash>) -> H::Hash
    decreases level.len(),
{
    if level.len() <= 1 {
        level[0]
    } else {
        root_of::<H>(next_level::<H>(level))
    }
}

/// A first level padded with `filler` up to the next power of two.
pub open spec fn padded_level<T>(level: Seq<T>, filler: T) -> Seq<T> {
    level + Seq::new((next_pow2_spec(level.len()) - level.len()) as nat, |i: int| filler)
}

/// A power of two above 1 is even, and its half is a power of two.
proof fn lemma_pow2_half(n: nat)
    requires
        is_pow2(n),
        n > 1,
    ensures
        n % 2 == 0,
        is_pow2(n / 2),
{
}

/// Of two powers of two, the larger is at least twice the smaller.
proof fn lemma_pow2_gap(p: nat, q: nat)
    requires
        is_pow2(p),
        is_pow2(q),
        p < q,
    ensures
        2 * p <= q,
    decreases p,
{
    if p > 1 {
        lemma_pow2_gap(p / 2, q / 2);
    }
}

/// `next_pow2_spec(n)` is the power of two in `[n, 2n)` (or 1).
proof fn lemma_next_pow2(n: nat)
    ensures
        is_pow2(next_pow2_spec(n)),
        n <= next_pow2_spec(n),
        next_pow2_spec(n) == 1 || next_pow2_spec(n) < 2 * n,
    decreases n,
{
    if n > 1 {
        lemma_next_pow2(((n + 1) / 2) as nat);
        let h = next_pow2_spec(((n + 1) / 2) as nat);
        assert(is_pow2(2 * h)) by {
            assert((2 * h) / 2 == h);
        }
    }
}

/// Exactly one power of two `p` satisfies `n <= p` and `p == 1 || p < 2n`.
proof fn lemma_next_pow2_unique(n: nat, p: nat)
    requires
        is_pow2(p),
        n <= p,
        p == 1 || p < 2 * n,
    ensures
        p == next_pow2_spec(n),
{
    lemma_next_pow2(n);
    let q = next_pow2_spec(n);
    if p < q {
        lemma_pow2_gap(p, q);
    } else if q < p {
        lemma_pow2_gap(q, p);
    }
}

/// Returns whether `l` is a power of two.
pub fn is_pow_of_two(l: usize) -> (r: bool)
    ensures
        r == is_pow2(l as nat),
{
    let mut m: usize = l;
    while m > 1 && m % 2 == 0
        invariant
            is_pow2(l as nat) == is_pow2(m as nat),
        decreases m,
    {
        m = m / 2;
    }
    m == 1
}

/// The least power of two that is at least `n`.
pub fn next_pow2(n: usize) -> (r: usize)
    requires
        n <= usize::MAX / 2 + 1,
    ensures
        r == next_pow2_spec(n as nat),
        is_pow2(r as nat),
        n <= r,
        r == 1 || r < 2 * n,
{
    let mut p: usize = 1;
    while p < n
        invariant
            1 <= p,
            is_pow2(p as nat),
            p == 1 || p < 2 * n,
            n <= usize::MAX / 2 + 1,
        decreases usize::MAX - p,
    {
        assert(is_pow2((2 * p) as nat)) by {
            assert(((2 * p) as nat) / 2 == p);
        }
        p = p + p;
    }
    proof {
        lemma_next_pow2_unique(n as nat, p as nat);
    }
    p
}

/// The digest of `l`'s bytes followed by `r`'s.
fn hash_pair<H: Hasher>(hasher: &H, l: &H::Hash, r: &H::Hash) -> (res: H::Hash)
    ensures
        res == combine::<H>(*l, *r),
{
    let lb = l.as_bytes();
    let rb = r.as_bytes();
    proof {
        H::lemma_hash_len(*l);
        H::lemma_hash_len(*r);
    }
    let mut buf: Vec<u8> = Vec::new();
    let mut i: usize = 0;
    while i < lb.len()
        invariant
            i <= lb@.len(),
            buf@ == lb@.subrange(0, i as int),
        decreases lb.len() - i,
    {
        buf.push(lb[i]);
        i = i + 1;
    }
    let mut j: usize = 0;
    while j < rb.len()
        invariant
            j <= rb@.len(),
            buf@ == lb@ + rb@.subrange(0, j as int),
        decreases rb.len() - j,
    {
        buf.push(rb[j]);
        j = j + 1;
    }
    assert(buf@ =~= l.bytes_view() + r.bytes_view());
    hasher.digest(buf.as_slice())
}

/// Hashes each pair of siblings of a level into the level above; fails with
/// `LeafCount` unless the level holds a power of two of nodes.
pub fn build_inner_level<H: Hasher>(hasher: &H, previous_level: &[H::Hash]) -> (r: Result<
    Vec<H::Hash>,
    MerkleError,
>)
    ensures
        is_pow2(previous_level@.len()) ==> (r matches Ok(v) && v@ == next_level::<H>(
            previous_level@,
        )),
        !is_pow2(previous_level@.len()) ==> r == Err::<Vec<H::Hash>, MerkleError>(
            MerkleError::LeafCount,
        ),
{
    if !is_pow_of_two(previous_level.len()) {
        return Err(MerkleError::LeafCount);
    }
    let len = previous_level.len();
    let half = len / 2;
    let mut level: Vec<H::Hash> = Vec::new();
    let mut i: usize = 0;
    while i < half
        invariant
            len == previous_level@.len(),
            half == len / 2,
            i <= half,
            level@ =~= next_level::<H>(previous_level@).subrange(0, i as int),
        decreases half - i,
    {
        assert(2 * i + 1 < previous_level@.len());
        let h = hash_pair(hasher, &previous_level[2 * i], &previous_level[2 * i + 1]);
        level.push(h);
        i = i + 1;
    }
    assert(level@ =~= next_level::<H>(previous_level@));
    Ok(level)
}

/// Builds the flat tree over a first level: the level itself, then each level
/// above it, ending with the root. Fails with `LeafCount` unless the first
/// level holds a power of two of nodes.
pub fn build_from_level<H: Hasher>(hasher: &H, first_level: Vec<H::Hash>) -> (r: Result<
    Vec<H::Hash>,
    MerkleError,
>)
    ensures
        is_pow2(first_level@.len()) ==> (r matches Ok(t) && t@ == tree_of::<H>(first_level@)),
        !is_pow2(first_level@.len()) ==> r == Err::<Vec<H::Hash>, MerkleError>(
            MerkleError::LeafCount,
        ),
{
    if !is_pow_of_two(first_level.len()) {
        return Err(MerkleError::LeafCount);
    }
    let mut tree: Vec<H::Hash> = Vec::new();
    let mut current_level = first_level;
    // Every level holds half as many nodes as the one below it; the loop stops at
    // the level of the root.
    while current_level.len() > 1
        invariant
            is_pow2(current_level@.len()),
            tree@ + tree_of::<H>(current_level@) == tree_of::<H>(first_level@),
        decreases current_level@.len(),
    {
        proof {
            lemma_pow2_half(current_level@.len());
        }
        let level = match build_inner_level(hasher, current_level.as_slice()) {
            Ok(level) => level,
            Err(e) => return Err(e),
        };
        proof {
            assert(tree_of::<H>(current_level@) == current_level@ + tree_of::<H>(level@));
            assert(tree@ + current_level@ + tree_of::<H>(level@) =~= tree@ + (current_level@
                + tree_of::<H>(level@)));
        }
        tree.append(&mut current_level);
        current_level = level;
    }
    // The root, which the loop left behind.
    tree.append(&mut current_level);
    Ok(tree)
}

/// The hashes of a first level: each leaf's bytes digested.
pub open spec fn leaf_hashes<D: AsBytes, H: Hasher>(leaves: Seq<D>) -> Seq<H::Hash> {
    Seq::new(leaves.len(), |i: int| H::spec_digest(leaves[i].bytes_view()))
}

/// Leaves whose bytes every digest accepts.
pub open spec fn leaves_digestible<D: AsBytes>(leaves: Seq<D>) -> bool {
    forall|i: int| 0 <= i < leaves.len() ==> #[trigger] leaves[i].bytes_view().len()
        <= max_digest_input()
}

/// Digests each leaf; fails with `LeafCount` unless there is a power of two of them.
pub fn build_first_level<D: AsBytes, H: Hasher>(hasher: &H, leaves: &[D]) -> (r: Result<
    Vec<H::Hash>,
    MerkleError,
>)
    requires
        leaves_digestible(leaves@),
    ensures
        is_pow2(leaves@.len()) ==> (r matches Ok(v) && v@ == leaf_hashes::<D, H>(leaves@)),
        !is_pow2(leaves@.len()) ==> r == Err::<Vec<H::Hash>, MerkleError>(
            MerkleError::LeafCount,
        ),
{
    if !is_pow_of_two(leaves.len()) {
        return Err(MerkleError::LeafCount);
    }
    let mut level: Vec<H::Hash> = Vec::new();
    let mut i: usize = 0;
    while i < leaves.len()
        invariant
            i <= leaves@.len(),
            leaves_digestible(leaves@),
            level@ =~= leaf_hashes::<D, H>(leaves@).subrange(0, i as int),
        decreases leaves.len() - i,
    {
        let h = hasher.digest(leaves[i].as_bytes());
        level.push(h);
        i = i + 1;
    }
    assert(level@ =~= leaf_hashes::<D, H>(leaves@));
    Ok(level)
}

/// Builds the tree over leaves whose count must be a power of two (else `LeafCount`).
pub fn build_tree<D: AsBytes, H: Hasher>(hasher: &H, leaves: &[D]) -> (r: Result<
    Vec<H::Hash>,
    MerkleError,
>)
    requires
        leaves_digestible(leaves@),
    ensures
        is_pow2(leaves@.len()) ==> (r matches Ok(t) && t@ == tree_of::<H>(
            leaf_hashes::<D, H>(leaves@),
        )),
        !is_pow2(leaves@.len()) ==> r == Err::<Vec<H::Hash>, MerkleError>(
            MerkleError::LeafCount,
        ),
{
    let first_level = match build_first_level(hasher, leaves) {
        Ok(level) => level,
        Err(e) => return Err(e),
    };
    build_from_level(hasher, first_level)
}

/// Builds the tree over a first level padded with `filler` up to the next power
/// of two. Fails with `LeafCount` on an empty level, which has nothing to pad.
pub fn build_padded_tree<H: Hasher>(hasher: &H, first_level: Vec<H::Hash>, filler: H::Hash) -> (r:
    Result<Vec<H::Hash>, MerkleError>)
    requires
        first_level@.len() <= usize::MAX / 2 + 1,
    ensures
        first_level@.len() > 0 ==> (r matches Ok(t) && t@ == tree_of::<H>(
            padded_level(first_level@, filler),
        )),
        first_level@.len() == 0 ==> r == Err::<Vec<H::Hash>, MerkleError>(
            MerkleError::LeafCount,
        ),
{
    if first_level.len() == 0 {
        return Err(MerkleError::LeafCount);
    }
    let target = next_pow2(first_level.len());
    let mut level = first_level;
    let ghost orig = first_level@;
    while level.len() < target
        invariant
            orig.len() <= level@.len() <= target,
            target == next_pow2_spec(orig.len()),
            level@ =~= padded_level(orig, filler).subrange(0, level@.len() as int),
        decreases target - level@.len(),
    {
        level.push(filler);
    }
    assert(level@ =~= padded_level(orig, filler));
    build_from_level(hasher, level)
}

/// The index of the other child of `idx`'s parent.
pub open spec fn sibling_index(idx: int) -> int {
    if idx % 2 == 0 {
        idx + 1
    } else {
        idx - 1
    }
}

/// The index of the parent of `idx` in a flat tree of `n` nodes.
pub open spec fn parent_index(n: int, idx: int) -> int {
    n - (n - idx - 1 + idx % 2) / 2
}

/// The number of leaves of a flat tree of `n` nodes.
pub open spec fn leaf_count_of(n: nat) -> nat {
    (n + 1) / 2
}

/// The number of levels of a flat tree of `n` nodes.
pub open spec fn height_of(n: nat) -> nat {
    bit_len(leaf_count_of(n))
}

/// What a sibling lookup at `idx` returns.
pub open spec fn sibling_spec<T>(tree: Seq<T>, idx: int) -> Result<(T, usize), MerkleError> {
    let s = sibling_index(idx);
    if 0 <= idx < tree.len() && 0 <= s < tree.len() {
        Ok((tree[s], s as usize))
    } else {
        Err(MerkleError::InvalidIdx)
    }
}

/// What a parent lookup at `idx` returns.
pub open spec fn parent_spec<T>(tree: Seq<T>, idx: int) -> Result<(T, usize), MerkleError> {
    let p = parent_index(tree.len() as int, idx);
    if 0 <= idx < tree.len() && 0 <= p < tree.len() {
        Ok((tree[p], p as usize))
    } else {
        Err(MerkleError::InvalidIdx)
    }
}

/// The sibling hashes met on `steps` levels going up from `idx`, or `None` where
/// a sibling or a parent lies outside the tree.
pub open spec fn proof_from<T>(tree: Seq<T>, idx: int, steps: nat) -> Option<Seq<T>>
    decreases steps,
{
    if steps == 0 {
        Some(Seq::empty())
    } else {
        let s = sibling_index(idx);
        let p = parent_index(tree.len() as int, s);
        if !(0 <= idx < tree.len()) || !(0 <= s < tree.len()) || !(0 <= p < tree.len()) {
            None
        } else {
            match proof_from(tree, p, (steps - 1) as nat) {
                Some(rest) => Some(seq![tree[s]] + rest),
                None => None,
            }
        }
    }
}

/// What a proof lookup for the leaf `idx` returns: the siblings on the way from
/// the leaf to the root, the root excluded.
pub open spec fn proof_spec<T>(tree: Seq<T>, idx: int) -> Result<Seq<T>, MerkleError> {
    if idx >= leaf_count_of(tree.len()) {
        Err(MerkleError::InvalidIdx)
    } else {
        match proof_from(tree, idx, (height_of(tree.len()) - 1) as nat) {
            Some(p) => Ok(p),
            None => Err(MerkleError::InvalidIdx),
        }
    }
}

/// The sibling hashes, level by level, of the node at position `p` of `level`,
/// over `k` levels.
pub open spec fn sibling_path<H: Hasher>(level: Seq<H::Hash>, p: int, k: nat) -> Seq<H::Hash>
    decreases k,
{
    if k == 0 {
        Seq::empty()
    } else {
        seq![level[sibling_index(p)]] + sibling_path::<H>(next_level::<H>(level), p / 2, (k - 1) as nat)
    }
}

/// Folds proof hashes into `acc`, starting at node `idx` of a flat tree of `n`
/// nodes: the parity of the current index puts the accumulated hash on the left
/// (even) or on the right (odd), and the index moves to its parent. `None` where
/// the proof runs past the root.
pub open spec fn fold_proof<H: Hasher>(acc: H::Hash, idx: int, n: int, proof: Seq<H::Hash>) -> Option<
    H::Hash,
>
    decreases proof.len(),
{
    if proof.len() == 0 {
        Some(acc)
    } else if idx >= n - 1 {
        None
    } else {
        let next = if idx % 2 == 0 {
            combine::<H>(acc, proof[0])
        } else {
            combine::<H>(proof[0], acc)
        };
        fold_proof::<H>(next, parent_index(n, idx), n, proof.drop_first())
    }
}

/// What reconstruction of a root from a leaf's bytes, its index, the leaf count
/// and a proof returns.
pub open spec fn partial_root_spec<H: Hasher>(
    leaf: Seq<u8>,
    leaf_idx: int,
    leaf_count: int,
    proof: Seq<H::Hash>,
) -> Result<H::Hash, MerkleError> {
    if leaf_count == 0 || 2 * leaf_count - 1 > usize::MAX || leaf_idx >= leaf_count {
        Err(MerkleError::InvalidIdx)
    } else {
        match fold_proof::<H>(H::spec_digest(leaf), leaf_idx, 2 * leaf_count - 1, proof) {
            Some(h) => Ok(h),
            None => Err(MerkleError::InvalidIdx),
        }
    }
}

/// Looks up the sibling of node `idx`: its hash and its index.
pub fn get_sibling<T: Copy>(tree: &[T], idx: usize) -> (r: Result<(T, usize), MerkleError>)
    ensures
        r == sibling_spec(tree@, idx as int),
{
    if idx >= tree.len() {
        return Err(MerkleError::InvalidIdx);
    }
    let sibling_idx = if idx % 2 == 0 {
        idx + 1
    } else {
        idx - 1
    };
    if sibling_idx >= tree.len() {
        return Err(MerkleError::InvalidIdx);
    }
    Ok((tree[sibling_idx], sibling_idx))
}

/// Looks up the parent of node `idx`: its hash and its index.
pub fn get_parent<T: Copy>(tree: &[T], idx: usize) -> (r: Result<(T, usize), MerkleError>)
    ensures
        r == parent_spec(tree@, idx as int),
{
    if idx >= tree.len() {
        return Err(MerkleError::InvalidIdx);
    }
    let node_count = tree.len();
    let parent_idx = node_count - (node_count - idx - 1 + idx % 2) / 2;
    if parent_idx >= node_count {
        return Err(MerkleError::InvalidIdx);
    }
    Ok((tree[parent_idx], parent_idx))
}

/// The number of leaves of a flat tree of `node_count` nodes.
pub fn get_leaf_count(node_count: usize) -> (r: usize)
    ensures
        r == leaf_count_of(node_count as nat),
{
    node_count / 2 + node_count % 2
}

proof fn lemma_bit_len_step(m: nat)
    ensures
        bit_len(1) == 1,
        m >= 2 ==> bit_len(m) == 1 + bit_len(m / 2) && bit_len(m / 2) >= 1,
{
    assert(bit_len(0) == 0);
    if m >= 2 {
        assert(bit_len(m / 2) == 1 + bit_len(m / 2 / 2));
    }
}

proof fn lemma_bit_len_bound(n: nat)
    ensures
        bit_len(n) <= n,
    decreases n,
{
    if n > 0 {
        lemma_bit_len_bound(n / 2);
    }
}

/// The number of levels of a flat tree of `node_count` nodes: `log2(leaves) + 1`,
/// rounded down, and 0 for an empty tree.
pub fn get_height(node_count: usize) -> (r: usize)
    ensures
        r == height_of(node_count as nat),
{
    let leaves = get_leaf_count(node_count);
    proof {
        lemma_bit_len_bound(leaves as nat);
    }
    let mut m: usize = leaves;
    let mut h: usize = 0;
    while m > 0
        invariant
            h + bit_len(m as nat) == bit_len(leaves as nat),
            bit_len(leaves as nat) <= leaves,
        decreases m,
    {
        m = m / 2;
        h = h + 1;
    }
    h
}

/// The proof for leaf `idx`: its sibling hashes from the leaf level up to, and
/// excluding, the root. Fails with `InvalidIdx` for an index that is not a leaf.
pub fn get_proof_hashes<T: Copy>(tree: &[T], idx: usize) -> (r: Result<Vec<T>, MerkleError>)
    ensures
        r matches Ok(v) ==> proof_spec(tree@, idx as int) == Ok::<Seq<T>, MerkleError>(v@),
        r matches Err(e) ==> proof_spec(tree@, idx as int) == Err::<Seq<T>, MerkleError>(e),
{
    let leaf_count = get_leaf_count(tree.len());
    if idx >= leaf_count {
        return Err(MerkleError::InvalidIdx);
    }
    let height = get_height(tree.len());
    let ghost steps = (height_of(tree@.len()) - 1) as nat;
    let mut hashes: Vec<T> = Vec::new();
    let mut cur = idx;
    let mut k: usize = 0;
    while k + 1 < height
        invariant
            height == height_of(tree@.len()),
            tree@.len() <= usize::MAX,
            height >= 1,
            steps == height - 1,
            k < height,
            proof_from(tree@, idx as int, steps) == match proof_from(
                tree@,
                cur as int,
                (steps - k) as nat,
            ) {
                Some(rest) => Some(hashes@ + rest),
                None => None,
            },
        decreases height - k,
    {
        let (s_hash, s_idx) = match get_sibling(tree, cur) {
            Ok(s) => s,
            Err(e) => return Err(e),
        };
        let parent = get_parent(tree, s_idx);
        let p_idx = match parent {
            Ok((_, p_idx)) => p_idx,
            Err(e) => return Err(e),
        };
        proof {
            let rest = proof_from(tree@, p_idx as int, (steps - k - 1) as nat);
            assert(proof_from(tree@, cur as int, (steps - k) as nat) == match rest {
                Some(rr) => Some(seq![s_hash] + rr),
                None => None,
            });
            if let Some(rr) = rest {
                assert(hashes@ + (seq![s_hash] + rr) =~= hashes@.push(s_hash) + rr);
            }
        }
        hashes.push(s_hash);
        cur = p_idx;
        k = k + 1;
    }
    assert(hashes@ + Seq::<T>::empty() =~= hashes@);
    Ok(hashes)
}

/// Rebuilds the root from a leaf's bytes, its index, the leaf count and the
/// proof hashes, folding them in from the leaf level upwards. Fails with
/// `InvalidIdx` where the leaf is not one of `leaf_count` leaves, where the tree
/// would not fit in memory, or where the proof runs past the root.
pub fn root_from_partial<D: AsBytes, H: Hasher>(
    hasher: &H,
    leaf: &D,
    leaf_idx: usize,
    leaf_count: usize,
    hashes: Vec<H::Hash>,
) -> (r: Result<H::Hash, MerkleError>)
    requires
        leaf.bytes_view().len() <= max_digest_input(),
    ensures
        r == partial_root_spec::<H>(leaf.bytes_view(), leaf_idx as int, leaf_count as int, hashes@),
{
    if leaf_count == 0 || leaf_count - 1 > usize::MAX - leaf_count || leaf_idx >= leaf_count {
        return Err(MerkleError::InvalidIdx);
    }
    let node_count = leaf_count - 1 + leaf_count;
    let ghost n = node_count as int;
    let ghost start = H::spec_digest(leaf.bytes_view());
    let mut root_hash = hasher.digest(leaf.as_bytes());
    let mut idx = leaf_idx;
    let mut i: usize = 0;
    assert(hashes@.subrange(0, hashes@.len() as int) =~= hashes@);
    while i < hashes.len()
        invariant
            n == node_count,
            n == 2 * leaf_count - 1,
            leaf_count > 0,
            leaf_idx < leaf_count,
            start == H::spec_digest(leaf.bytes_view()),
            idx < node_count,
            i <= hashes@.len(),
            fold_proof::<H>(start, leaf_idx as int, n, hashes@) == fold_proof::<H>(
                root_hash,
                idx as int,
                n,
                hashes@.subrange(i as int, hashes@.len() as int),
            ),
        decreases hashes@.len() - i,
    {
        let ghost rest = hashes@.subrange(i as int, hashes@.len() as int);
        assert(rest.drop_first() =~= hashes@.subrange(i + 1, hashes@.len() as int));
        assert(rest.len() > 0 && rest[0] == hashes@[i as int]);
        if idx + 1 >= node_count {
            assert(fold_proof::<H>(root_hash, idx as int, n, rest) == None::<H::Hash>);
            return Err(MerkleError::InvalidIdx);
        }
        let h = hashes[i];
        root_hash = if idx % 2 == 0 {
            hash_pair(hasher, &root_hash, &h)
        } else {
            hash_pair(hasher, &h, &root_hash)
        };
        assert(node_count - idx - 1 + idx % 2 >= 2);
        idx = node_count - (node_count - idx - 1 + idx % 2) / 2;
        i = i + 1;
    }
    Ok(root_hash)
}

/// A tree stored in the flat layout: the leaf level first, then each level
/// above it, ending with the root. Lookups come with the trait.
pub trait MerkleTree<H: Hasher> {
    /// The nodes of the tree.
    spec fn nodes(&self) -> Seq<H::Hash>;

    fn get_tree(&self) -> (r: &[H::Hash])
        ensures
            r@ == self.nodes(),
    ;

    /// The sibling of node `idx`: its hash and its index.
    fn get_sibling(&self, idx: usize) -> (r: Result<(H::Hash, usize), MerkleError>)
        ensures
            r == sibling_spec(self.nodes(), idx as int),
    {
        get_sibling(self.get_tree(), idx)
    }

    /// The parent of node `idx`: its hash and its index.
    fn get_parent(&self, idx: usize) -> (r: Result<(H::Hash, usize), MerkleError>)
        ensures
            r == parent_spec(self.nodes(), idx as int),
    {
        get_parent(self.get_tree(), idx)
    }

    /// The proof of leaf `idx`.
    fn get_proof_hashes(&self, idx: usize) -> (r: Result<Vec<H::Hash>, MerkleError>)
        ensures
            r matches Ok(v) ==> proof_spec(self.nodes(), idx as int) == Ok::<
                Seq<H::Hash>,
                MerkleError,
            >(v@),
            r matches Err(e) ==> proof_spec(self.nodes(), idx as int) == Err::<
                Seq<H::Hash>,
                MerkleError,
            >(e),
    {
        get_proof_hashes(self.get_tree(), idx)
    }

    /// The number of levels.
    fn get_height(&self) -> (r: usize)
        ensures
            r == height_of(self.nodes().len()),
    {
        get_height(self.get_tree().len())
    }

    /// The number of leaves.
    fn get_leaf_count(&self) -> (r: usize)
        ensures
            r == leaf_count_of(self.nodes().len()),
    {
        get_leaf_count(self.get_tree().len())
    }
}

/// `parent_index` over `2m - 1` nodes takes position `x` of the first level to
/// position `x / 2` of the level above, which starts at `m`.
proof fn lemma_parent_of_first_level(m: int, x: int)
    ensures
        parent_index(2 * m - 1, x) == m + x / 2,
{
    assert(x == 2 * (x / 2) + x % 2);
    assert((2 * m - 1 - x - 1 + x % 2) == 2 * (m - 1 - x / 2));
}

/// Past an even prefix of `m` nodes, parents and parities are those of the rest.
proof fn lemma_parent_shift(n: int, m: int, q: int)
    requires
        m % 2 == 0,
    ensures
        parent_index(n, m + q) == m + parent_index(n - m, q),
        (m + q) % 2 == q % 2,
        sibling_index(m + q) == m + sibling_index(q),
{
    assert(m == 2 * (m / 2));
    assert((m + q) % 2 == q % 2);
}

/// The parent of a node inside a tree is not at a negative index.
proof fn lemma_parent_nonneg(n: int, x: int)
    requires
        0 <= x < n,
    ensures
        0 <= parent_index(n, x),
{
    assert(0 <= n - x - 1 + x % 2 <= n);
}

proof fn lemma_tree_of_shape<H: Hasher>(level: Seq<H::Hash>)
    requires
        is_pow2(level.len()),
    ensures
        tree_of::<H>(level).len() == 2 * level.len() - 1,
        tree_of::<H>(level).last() == root_of::<H>(level),
        forall|i: int| 0 <= i < level.len() ==> #[trigger] tree_of::<H>(level)[i] == level[i],
    decreases level.len(),
{
    if level.len() > 1 {
        lemma_pow2_half(level.len());
        lemma_tree_of_shape::<H>(next_level::<H>(level));
    }
}

proof fn lemma_proof_shift<T>(a: Seq<T>, b: Seq<T>, q: int, steps: nat)
    requires
        a.len() % 2 == 0,
        0 <= q,
    ensures
        proof_from(a + b, a.len() + q, steps) == proof_from(b, q, steps),
    decreases steps,
{
    if steps > 0 {
        let m = a.len() as int;
        let t = a + b;
        let s = sibling_index(q);
        lemma_parent_shift(t.len() as int, m, q);
        lemma_parent_shift(t.len() as int, m, s);
        if 0 <= s < b.len() {
            lemma_parent_nonneg(b.len() as int, s);
            let pb = parent_index(b.len() as int, s);
            lemma_proof_shift(a, b, pb, (steps - 1) as nat);
            assert(t[m + s] == b[s]);
        }
    }
}

proof fn lemma_proof_path<H: Hasher>(level: Seq<H::Hash>, p: int)
    requires
        is_pow2(level.len()),
        0 <= p < level.len(),
    ensures
        proof_from(tree_of::<H>(level), p, (bit_len(level.len()) - 1) as nat) == Some(
            sibling_path::<H>(level, p, (bit_len(level.len()) - 1) as nat),
        ),
    decreases level.len(),
{
    let m = level.len() as int;
    lemma_bit_len_step(level.len());
    if m > 1 {
        lemma_pow2_half(level.len());
        let nl = next_level::<H>(level);
        let sub = tree_of::<H>(nl);
        lemma_tree_of_shape::<H>(nl);
        lemma_tree_of_shape::<H>(level);
        let t = tree_of::<H>(level);
        assert(t == level + sub);
        let s = sibling_index(p);
        lemma_parent_of_first_level(m, s);
        assert(s / 2 == p / 2);
        lemma_proof_shift(level, sub, p / 2, (bit_len(nl.len()) - 1) as nat);
        lemma_proof_path::<H>(nl, p / 2);
        assert(t[s] == level[s]);
    }
}

proof fn lemma_fold_shift<H: Hasher>(acc: H::Hash, m: int, q: int, n: int, proof: Seq<H::Hash>)
    requires
        m % 2 == 0,
        0 <= q,
    ensures
        fold_proof::<H>(acc, m + q, n, proof) == fold_proof::<H>(acc, q, n - m, proof),
    decreases proof.len(),
{
    if proof.len() > 0 && q < n - m - 1 {
        lemma_parent_shift(n, m, q);
        lemma_parent_nonneg(n - m, q);
        let next = if q % 2 == 0 {
            combine::<H>(acc, proof[0])
        } else {
            combine::<H>(proof[0], acc)
        };
        lemma_fold_shift::<H>(next, m, parent_index(n - m, q), n, proof.drop_first());
    }
}

proof fn lemma_fold_path<H: Hasher>(level: Seq<H::Hash>, p: int)
    requires
        is_pow2(level.len()),
        0 <= p < level.len(),
    ensures
        fold_proof::<H>(
            level[p],
            p,
            2 * level.len() - 1,
            sibling_path::<H>(level, p, (bit_len(level.len()) - 1) as nat),
        ) == Some(root_of::<H>(level)),
    decreases level.len(),
{
    let m = level.len() as int;
    lemma_bit_len_step(level.len());
    if m > 1 {
        lemma_pow2_half(level.len());
        let nl = next_level::<H>(level);
        let k = (bit_len(level.len()) - 1) as nat;
        let path = sibling_path::<H>(level, p, k);
        let rest = sibling_path::<H>(nl, p / 2, (k - 1) as nat);
        assert(path.drop_first() =~= rest);
        assert(p == 2 * (p / 2) + p % 2);
        let next = if p % 2 == 0 {
            combine::<H>(level[p], path[0])
        } else {
            combine::<H>(path[0], level[p])
        };
        assert(next == nl[p / 2]);
        lemma_parent_of_first_level(m, p);
        lemma_fold_shift::<H>(next, m, p / 2, 2 * m - 1, rest);
        lemma_fold_path::<H>(nl, p / 2);
    }
}

/// `next_pow2_spec(n)` is a power of two in `[n, 2n)`, or 1.
pub proof fn lemma_next_pow2_facts(n: nat)
    ensures
        is_pow2(next_pow2_spec(n)),
        n <= next_pow2_spec(n),
        next_pow2_spec(n) == 1 || next_pow2_spec(n) < 2 * n,
{
    lemma_next_pow2(n);
}

/// The tree over a first level of `m` nodes, `m` a power of two, has `2m - 1`
/// nodes, begins with that level and ends with its root.
pub proof fn lemma_tree_of_facts<H: Hasher>(level: Seq<H::Hash>)
    requires
        is_pow2(level.len()),
    ensures
        tree_of::<H>(level).len() == 2 * level.len() - 1,
        tree_of::<H>(level).last() == root_of::<H>(level),
        forall|i: int| 0 <= i < level.len() ==> #[trigger] tree_of::<H>(level)[i] == level[i],
{
    lemma_tree_of_shape::<H>(level);
}

/// Round trip: in the tree over any first level that holds a power of two of
/// hashes, the proof of every leaf exists, and folding it into that leaf's hash
/// gives back the root, the last node of the tree.
pub proof fn lemma_proof_round_trip<H: Hasher>(level: Seq<H::Hash>, p: int)
    requires
        is_pow2(level.len()),
        0 <= p < level.len(),
    ensures
        proof_spec(tree_of::<H>(level), p) matches Ok(proof) && fold_proof::<H>(
            level[p],
            p,
            tree_of::<H>(level).len() as int,
            proof,
        ) == Some(tree_of::<H>(level).last()),
{
    lemma_tree_of_shape::<H>(level);
    let t = tree_of::<H>(level);
    assert(leaf_count_of(t.len()) == level.len());
    lemma_proof_path::<H>(level, p);
    lemma_fold_path::<H>(level, p);
}

} // verus!
