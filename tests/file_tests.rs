use pmtorrent::file::root_from_partial;
use pmtorrent::merkle::next_pow2;
use pmtorrent::{
    encode_hex, ChunkMerkleTree, Chunker, File, FileError, Hasher, MerkleError, MerkleTree, Sha256Hash,
    Sha256Hasher, CHUNK_BYTES,
};

#[test]
fn file_test_bytes_to_chunks() {
    run_bytes_to_chunks();
}

#[test]
fn test_bytes_to_chunks() {
    run_bytes_to_chunks();
}

fn run_bytes_to_chunks() {
    let data = [1u8; 6144]; // exactly 6 full chunks.
    let chunks = File::to_chunks(&data);

    assert_eq!(chunks.len(), 6);
    assert_eq!(chunks.get(5).unwrap().data.get(42).unwrap(), &1);

    let data = [1u8; 6145]; // 7 chunks, the last one has only one byte.
    let chunks = File::to_chunks(&data);

    assert_eq!(chunks.len(), 7);
    assert_eq!(chunks.get(6).unwrap().data.first().unwrap(), &1);
    assert_eq!(chunks.get(6).unwrap().data.get(1), None);
}

#[test]
fn file_test_build_first_level() {
    run_build_first_level();
}

#[test]
fn test_build_first_level() {
    run_build_first_level();
}

fn run_build_first_level() {
    let chunks = File::to_chunks(&[1u8; 6144]);
    let chunk_tree = ChunkMerkleTree::new(&chunks);
    assert!(chunk_tree.is_ok());

    let chunk_tree = chunk_tree.unwrap();
    assert_eq!(chunk_tree.get_tree().len(), 15);
    assert_eq!(chunk_tree.get_tree()[6], Sha256Hash::zero());
    assert_eq!(chunk_tree.get_tree()[7], Sha256Hash::zero());
}

#[test]
fn file_test_new_file() {
    run_new_file();
}

#[test]
fn test_new_file() {
    run_new_file();
}

fn run_new_file() {
    let data = [0u8; 6145];
    let file = File::new(&data).unwrap();
    assert_eq!(file.get_size(), 7);

    let (chunk, proof) = file.get_chunk(6).unwrap();
    assert_eq!(chunk.data.first().unwrap(), &0);
    assert_eq!(chunk.data.get(1), None);
    assert_eq!(proof.len(), 3);

    let hasher = Sha256Hasher;
    let trusted_root = file.trusted_root().unwrap();
    let untrusted_root = root_from_partial(&hasher, &chunk, chunk.leaf_idx, 8, proof).unwrap();
    assert_eq!(untrusted_root, trusted_root);
}

#[test]
fn file_test_next_pow2() {
    run_next_pow2();
}

#[test]
fn test_next_pow2() {
    run_next_pow2();
}

fn run_next_pow2() {
    assert_eq!(next_pow2(4), 4);
    assert_eq!(next_pow2(6), 8);
    assert_eq!(next_pow2(9), 16);
}

#[test]
fn test_async_read() {
    assert_eq!(test_fail("aabb"), "2a2b".to_string());
    assert_eq!(test_fail("aaabbccc"), "3a2b3c".to_string());
    assert_eq!(test_fail("abcccaaba"), "1a1b3c2a1b1a".to_string());
}

fn test_fail(txt: &str) -> String {
    let mut res = String::new();
    let mut counter = 0;
    let mut prev_char = char::default();

    for c in txt.chars() {
        if prev_char != c {
            if counter > 0 {
                res.push_str(&counter.to_string());
                res.push_str(&prev_char.to_string());
            }
            counter = 0;
        }

        counter += 1;
        prev_char = c;
    }

    if counter > 0 {
        res.push_str(&counter.to_string());
        res.push_str(&prev_char.to_string());
    }

    res
}

fn data_of(len: usize) -> Vec<u8> {
    (0..len).map(|i| (i * 7 + 3 + i / CHUNK_BYTES) as u8).collect()
}

#[test]
fn chunk_count_is_ceiling_and_last_holds_rest() {
    for &(len, count, last) in &[
        (1usize, 1usize, 1usize),
        (1023, 1, 1023),
        (1024, 1, 1024),
        (1025, 2, 1),
        (6144, 6, 1024),
        (6145, 7, 1),
        (10000, 10, 784),
    ] {
        let data = data_of(len);
        let chunks = File::to_chunks(&data);
        assert_eq!(chunks.len(), count);
        assert_eq!(chunks.last().unwrap().len(), last);
        let mut joined = Vec::new();
        for (i, c) in chunks.iter().enumerate() {
            assert_eq!(c.leaf_idx, i);
            assert!(!c.is_empty());
            joined.extend_from_slice(&c.data);
        }
        assert_eq!(joined, data);
    }
}

#[test]
fn empty_input_has_no_chunks_and_no_file() {
    assert!(File::to_chunks(&[]).is_empty());
    assert!(matches!(File::new(&[]), Err(FileError::File)));
    assert!(matches!(
        ChunkMerkleTree::new(&[]),
        Err(FileError::Merkle(MerkleError::LeafCount))
    ));
}

#[test]
fn tree_length_is_twice_next_pow2_minus_one() {
    for n in 1..=17usize {
        let file = File::new(&data_of(n * CHUNK_BYTES - 5)).unwrap();
        assert_eq!(file.get_size(), n);
        let chunks = File::to_chunks(&data_of(n * CHUNK_BYTES - 5));
        let tree = ChunkMerkleTree::new(&chunks).unwrap();
        assert_eq!(tree.get_tree().len(), 2 * next_pow2(n) - 1);
        assert_eq!(tree.get_leaf_count(), next_pow2(n));
    }
}

#[test]
fn padding_leaves_are_the_zero_hash() {
    for n in 1..=17usize {
        let chunks = File::to_chunks(&data_of(n * CHUNK_BYTES));
        let tree = ChunkMerkleTree::new(&chunks).unwrap();
        let nodes = tree.get_tree();
        for i in 0..n {
            assert_ne!(nodes[i], Sha256Hash::zero());
        }
        for i in n..next_pow2(n) {
            assert_eq!(nodes[i], Sha256Hash::zero());
        }
    }
}

#[test]
fn every_chunk_proof_rebuilds_the_root() {
    let hasher = Sha256Hasher;
    for n in 1..=17usize {
        let file = File::new(&data_of(n * CHUNK_BYTES - 100)).unwrap();
        let root = file.get_root().unwrap();
        assert_eq!(root, file.trusted_root().unwrap());
        for i in 0..n {
            let (chunk, proof) = file.get_chunk(i).unwrap();
            assert_eq!(chunk.leaf_idx, i);
            let rebuilt =
                root_from_partial(&hasher, &chunk, i, next_pow2(n), proof).unwrap();
            assert_eq!(rebuilt, root);
        }
    }
}

#[test]
fn scenario_six_full_chunks() {
    let chunks = File::to_chunks(&[9u8; 6144]);
    assert_eq!(chunks.len(), 6);
    assert_eq!(next_pow2(6), 8);
    let tree = ChunkMerkleTree::new(&chunks).unwrap();
    assert_eq!(tree.get_tree().len(), 15);
    assert_eq!(tree.get_tree()[6], Sha256Hash::zero());
    assert_eq!(tree.get_tree()[7], Sha256Hash::zero());
    assert_eq!(tree.get_height(), 4);
    assert_eq!(tree.root().unwrap(), tree.get_tree()[14]);
}

#[test]
fn scenario_short_last_chunk() {
    let file = File::new(&[5u8; 6145]).unwrap();
    assert_eq!(file.get_size(), 7);
    let (chunk, proof) = file.get_chunk(6).unwrap();
    assert_eq!(chunk.len(), 1);
    assert_eq!(proof.len(), 3);
    let rebuilt = root_from_partial(&Sha256Hasher, &chunk, 6, 8, proof).unwrap();
    assert_eq!(rebuilt, file.trusted_root().unwrap());
}

#[test]
fn get_chunk_out_of_range_fails() {
    let file = File::new(&[5u8; 3000]).unwrap();
    assert_eq!(file.get_size(), 3);
    assert!(matches!(file.get_chunk(3), Err(FileError::File)));
    assert!(matches!(file.get_chunk(usize::MAX), Err(FileError::File)));
}

#[test]
fn short_chunk_hashes_as_zero_padded() {
    let file = File::new(&[7u8; 10]).unwrap();
    let mut padded = vec![7u8; 10];
    padded.resize(CHUNK_BYTES, 0);
    let expected = Sha256Hasher.digest(&padded);
    assert_eq!(file.get_root().unwrap(), expected);
    let (chunk, proof) = file.get_chunk(0).unwrap();
    assert!(proof.is_empty());
    assert_eq!(chunk.data, vec![7u8; 10]);
}

#[test]
fn wrong_proof_or_position_changes_the_root() {
    let file = File::new(&data_of(4 * CHUNK_BYTES)).unwrap();
    let root = file.get_root().unwrap();
    let (chunk, proof) = file.get_chunk(1).unwrap();
    let other = root_from_partial(&Sha256Hasher, &chunk, 0, 4, proof.clone()).unwrap();
    assert_ne!(other, root);
    let mut tampered = proof.clone();
    tampered[0] = Sha256Hash::zero();
    let other = root_from_partial(&Sha256Hasher, &chunk, 1, 4, tampered).unwrap();
    assert_ne!(other, root);
}

#[test]
fn file_root_from_partial_rejects_bad_positions() {
    let file = File::new(&data_of(4 * CHUNK_BYTES)).unwrap();
    let (chunk, proof) = file.get_chunk(1).unwrap();
    assert_eq!(
        root_from_partial(&Sha256Hasher, &chunk, 1, 0, proof.clone()),
        Err(FileError::Merkle(MerkleError::InvalidIdx))
    );
    assert_eq!(
        root_from_partial(&Sha256Hasher, &chunk, 4, 4, proof.clone()),
        Err(FileError::Merkle(MerkleError::InvalidIdx))
    );
    let mut long = proof.clone();
    long.push(Sha256Hash::zero());
    assert_eq!(
        root_from_partial(&Sha256Hasher, &chunk, 1, 4, long),
        Err(FileError::Merkle(MerkleError::InvalidIdx))
    );
}

#[test]
fn sha256_digest_of_abc() {
    let h = Sha256Hasher.digest(b"abc");
    assert_eq!(
        encode_hex(pmtorrent::AsBytes::as_bytes(&h)),
        "ba7816bf8f01cfea414140de5dae2223b00361a396177a9cb410ff61f20015ad"
    );
    let mut raw = [0u8; 32];
    raw[0] = 0xba;
    let made = Sha256Hash::new(raw);
    assert_eq!(pmtorrent::AsBytes::as_bytes(&made)[0], 0xba);
    assert_eq!(pmtorrent::AsBytes::as_bytes(&made)[1..], [0u8; 31]);
}

#[test]
fn file_error_from_merkle_error() {
    assert_eq!(
        FileError::from(MerkleError::LeafCount),
        FileError::Merkle(MerkleError::LeafCount)
    );
}

#[test]
fn chunker_matches_in_memory_chunking() {
    for &len in &[1usize, 1000, 1024, 1025, 4096, 6145, 9999] {
        let data = data_of(len);
        let whole = File::new(&data).unwrap();
        for &step in &[1usize, 7, 1000, 1024, 1500, 5000] {
            let mut chunker = Chunker::new();
            for piece in data.chunks(step) {
                chunker.push(piece);
            }
            assert_eq!(chunker.len(), len);
            let file = chunker.finish().unwrap();
            assert_eq!(file.get_size(), whole.get_size());
            assert_eq!(file.get_root().unwrap(), whole.get_root().unwrap());
            for i in 0..file.get_size() {
                let (a, pa) = file.get_chunk(i).unwrap();
                let (b, pb) = whole.get_chunk(i).unwrap();
                assert_eq!(a, b);
                assert_eq!(pa, pb);
            }
        }
    }
}

#[test]
fn chunker_without_input_gives_no_file() {
    let mut chunker = Chunker::new();
    assert_eq!(chunker.len(), 0);
    chunker.push(&[]);
    assert!(matches!(chunker.finish(), Err(FileError::File)));
}

#[test]
fn reconstruction_needs_the_padded_leaf_count() {
    // With 3 chunks the tree has 4 leaves; only that count gives the parent
    // indices of the tree's layout.
    let file = File::new(&data_of(3 * CHUNK_BYTES)).unwrap();
    let root = file.get_root().unwrap();
    let (chunk, proof) = file.get_chunk(0).unwrap();
    assert_eq!(proof.len(), 2);
    let padded = root_from_partial(&Sha256Hasher, &chunk, 0, 4, proof.clone()).unwrap();
    assert_eq!(padded, root);
    let unpadded = root_from_partial(&Sha256Hasher, &chunk, 0, 3, proof).unwrap();
    assert_ne!(unpadded, root);
}
