use pmtorrent::merkle::{
    build_tree, get_height, get_leaf_count, get_parent, get_sibling, next_pow2,
    root_from_partial,
};
use pmtorrent::{is_pow_of_two, DummyMerkleTree, EmojiHasher, Hasher, MerkleError, MerkleTree};

fn run_build_tree() {
    let leaves = &["this", "is", "sparta", "!"];
    let expected_leaves_emojis = ['👅', '👩', '👣', '👣'];
    let expected_root_emoji = '👯';

    let dummy_tree = DummyMerkleTree::new(leaves).expect("valid count of nodes");
    let dummy_tree = dummy_tree.get_tree();

    let expected_len = leaves.len() * 2 - 1;
    assert_eq!(dummy_tree.len(), expected_len);

    for (i, _) in leaves.iter().enumerate() {
        let emoji = dummy_tree[i].emoji();
        assert_eq!(emoji, expected_leaves_emojis[i]);
    }

    let root = dummy_tree[expected_len - 1].emoji();
    assert_eq!(root, expected_root_emoji);
}

fn run_get_sibling() {
    let expected_tree = [
        '📉', '📨', '👡', '👢', '💣', '👋', '📰', '📱', '👳', '💅', '💰', '👘', '👯', '📊', '💰',
    ];

    let leaves: Vec<&str> = "another valid number of a first level nodes"
        .split(' ')
        .collect();

    let dummy_tree = DummyMerkleTree::new(&leaves).expect("valid count of nodes");

    let (hash, idx) = dummy_tree.get_sibling(0).unwrap();
    assert_eq!(hash.emoji(), expected_tree[1]);
    assert_eq!(idx, 1);

    let (hash, idx) = dummy_tree.get_sibling(9).unwrap();
    assert_eq!(hash.emoji(), expected_tree[8]);
    assert_eq!(idx, 8);

    let res = dummy_tree.get_sibling(14); // the root has no sibling.
    assert!(res.is_err());

    let res = dummy_tree.get_sibling(15); // no such node.
    assert!(res.is_err());
}

fn run_get_parent() {
    let expected_tree = [
        '👂', '💛', '💁', '💁', '💅', '💛', '💜', '👅', '📩', '💛', '💅', '💑', '💍', '👢', '👹',
        '👂', '👔', '📍', '📢', '💣', '👆', '📘', '💥', '📈', '💨', '👇', '💕', '👺', '💱', '📑',
        '👄',
    ];

    let leaves: Vec<&str> = "なぜそんなに真剣なんだ? 🃏".split("").collect();

    let dummy_tree = DummyMerkleTree::new(&leaves).expect("valid count of nodes");

    let (hash, idx) = dummy_tree.get_parent(0).unwrap();
    assert_eq!(hash.emoji(), expected_tree[16]);
    assert_eq!(idx, 16);

    let (hash, idx) = dummy_tree.get_parent(16).unwrap();
    assert_eq!(hash.emoji(), expected_tree[24]);
    assert_eq!(idx, 24);

    let res = dummy_tree.get_parent(31); // the root has no parent.
    assert!(res.is_err());

    let res = dummy_tree.get_parent(32); // no such node.
    assert!(res.is_err());
}

fn run_root_from_partial() {
    let leaves: Vec<&'static str> = "💁 💂 💃 💄 💅 💆 👏 📮".split(' ').collect();
    let hasher = EmojiHasher;

    let dummy_tree = DummyMerkleTree::new(&leaves).expect("valid count of nodes");
    let trusted_root = *dummy_tree.get_tree().last().unwrap();

    let proof_parts = dummy_tree.get_proof_hashes(6).unwrap();
    let untrusted_root =
        root_from_partial(&hasher, &leaves[6], 6, leaves.len(), proof_parts).unwrap();

    assert_eq!(trusted_root, untrusted_root);
}

fn run_leaf_count() {
    let leaves: Vec<&str> = "💁 💂 💃 💄 💅 💆 👏".split(' ').collect();
    let dummy_tree = DummyMerkleTree::new(&leaves);
    assert_eq!(dummy_tree, Err(MerkleError::LeafCount));
}

#[test]
fn merkle_test_build_tree() {
    run_build_tree();
}

#[test]
fn dummy_test_build_tree() {
    run_build_tree();
}

#[test]
fn merkle_test_get_sibling() {
    run_get_sibling();
}

#[test]
fn dummy_test_get_sibling() {
    run_get_sibling();
}

#[test]
fn merkle_test_get_parent() {
    run_get_parent();
}

#[test]
fn dummy_test_get_parent() {
    run_get_parent();
}

#[test]
fn merkle_test_root_from_partial() {
    run_root_from_partial();
}

#[test]
fn dummy_test_root_from_partial() {
    run_root_from_partial();
}

#[test]
fn merkle_test_leaf_count() {
    run_leaf_count();
}

#[test]
fn dummy_test_leaf_count() {
    run_leaf_count();
}

#[test]
fn powers_of_two() {
    assert!(!is_pow_of_two(0));
    assert!(is_pow_of_two(1));
    assert!(is_pow_of_two(2));
    assert!(!is_pow_of_two(3));
    assert!(is_pow_of_two(1024));
    assert!(!is_pow_of_two(1023));
    assert!(is_pow_of_two(1usize << 63));
    assert!(!is_pow_of_two(usize::MAX));
}

#[test]
fn next_powers_of_two() {
    assert_eq!(next_pow2(0), 1);
    assert_eq!(next_pow2(1), 1);
    assert_eq!(next_pow2(2), 2);
    assert_eq!(next_pow2(3), 4);
    assert_eq!(next_pow2(4), 4);
    assert_eq!(next_pow2(6), 8);
    assert_eq!(next_pow2(9), 16);
    assert_eq!(next_pow2((1usize << 40) + 1), 1usize << 41);
    assert_eq!(next_pow2(1usize << 63), 1usize << 63);
}

#[test]
fn heights_and_leaf_counts() {
    assert_eq!(get_leaf_count(0), 0);
    assert_eq!(get_leaf_count(1), 1);
    assert_eq!(get_leaf_count(15), 8);
    assert_eq!(get_leaf_count(usize::MAX), usize::MAX / 2 + 1);
    assert_eq!(get_height(0), 0);
    assert_eq!(get_height(1), 1);
    assert_eq!(get_height(3), 2);
    assert_eq!(get_height(15), 4);
    assert_eq!(get_height(31), 5);
}

#[test]
fn sibling_and_parent_arithmetic() {
    let tree: Vec<u32> = (100..115).collect();
    assert_eq!(get_sibling(&tree, 0), Ok((101, 1)));
    assert_eq!(get_sibling(&tree, 5), Ok((104, 4)));
    assert_eq!(get_sibling(&tree, 13), Ok((112, 12)));
    assert_eq!(get_sibling(&tree, 14), Err(MerkleError::InvalidIdx));
    assert_eq!(get_parent(&tree, 0), Ok((108, 8)));
    assert_eq!(get_parent(&tree, 7), Ok((111, 11)));
    assert_eq!(get_parent(&tree, 8), Ok((112, 12)));
    assert_eq!(get_parent(&tree, 11), Ok((113, 13)));
    assert_eq!(get_parent(&tree, 13), Ok((114, 14)));
    assert_eq!(get_parent(&tree, 14), Err(MerkleError::InvalidIdx));
    assert_eq!(get_parent(&tree, 15), Err(MerkleError::InvalidIdx));
}

#[test]
fn strict_build_rejects_non_powers_of_two() {
    let hasher = EmojiHasher;
    let three: [&'static str; 3] = ["a", "b", "c"];
    assert_eq!(build_tree(&hasher, &three), Err(MerkleError::LeafCount));
    let none: [&'static str; 0] = [];
    assert_eq!(build_tree(&hasher, &none), Err(MerkleError::LeafCount));
    let one: [&'static str; 1] = ["a"];
    let tree = build_tree(&hasher, &one).unwrap();
    assert_eq!(tree, vec![hasher.digest(b"a")]);
}

#[test]
fn proofs_of_strict_trees_rebuild_the_root() {
    let hasher = EmojiHasher;
    let words: Vec<&'static str> =
        "one two three four five six seven eight nine ten eleven twelve thirteen fourteen fifteen sixteen"
            .split(' ')
            .collect();
    for &n in &[1usize, 2, 4, 8, 16] {
        let tree = DummyMerkleTree::new(&words[..n]).unwrap();
        let root = *tree.get_tree().last().unwrap();
        assert_eq!(tree.get_leaf_count(), n);
        for i in 0..n {
            let proof = tree.get_proof_hashes(i).unwrap();
            assert_eq!(proof.len(), tree.get_height() - 1);
            assert_eq!(root_from_partial(&hasher, &words[i], i, n, proof), Ok(root));
        }
        assert_eq!(tree.get_proof_hashes(n), Err(MerkleError::InvalidIdx));
    }
}

#[test]
fn emoji_digest_values() {
    let hasher = EmojiHasher;
    assert_eq!(hasher.digest(b"").emoji(), '👂');
    assert_eq!(hasher.digest(&[1]).emoji(), '\u{1F443}');
    assert_eq!(hasher.digest(&[181]).emoji(), '👂');
    assert_eq!(hasher.digest(&[200, 100]).emoji(), char::from_u32(0x1F442 + 119).unwrap());
}
