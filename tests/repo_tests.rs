use pmtorrent::file::root_from_partial;
use pmtorrent::{
    encode_hex, AsBytes, File, FileError, FileRepo, MerkleError, RepoError, Sha256Hasher,
};

fn data_of(len: usize, seed: u8) -> Vec<u8> {
    (0..len).map(|i| (i as u8).wrapping_mul(31).wrapping_add(seed)).collect()
}

fn key_of(file: &File) -> String {
    encode_hex(file.get_root().unwrap().as_bytes())
}

#[test]
fn hex_encoding() {
    assert_eq!(encode_hex(&[]), "");
    assert_eq!(encode_hex(&[0x00, 0xff, 0x10, 0xab, 0x09]), "00ff10ab09");
    let all: Vec<u8> = (0..=255u8).collect();
    let hex = encode_hex(&all);
    assert_eq!(hex.len(), 512);
    assert!(hex.starts_with("000102"));
    assert!(hex.ends_with("fdfeff"));
}

#[test]
fn added_file_is_listed_under_its_root() {
    let mut repo = FileRepo::default();
    assert!(repo.get_available().is_empty());
    let file = File::new(&data_of(5000, 1)).unwrap();
    let key = key_of(&file);
    assert_eq!(key.len(), 64);
    assert!(repo.add(file).is_ok());
    let list = repo.get_available();
    assert_eq!(list.len(), 1);
    assert_eq!(list[0].hash, key);
    assert_eq!(list[0].pieces, 5);
}

#[test]
fn adding_same_content_twice_keeps_one_entry() {
    let mut repo = FileRepo::default();
    repo.add(File::new(&data_of(3000, 2)).unwrap()).unwrap();
    repo.add(File::new(&data_of(3000, 2)).unwrap()).unwrap();
    assert_eq!(repo.get_available().len(), 1);
    repo.add(File::new(&data_of(3000, 3)).unwrap()).unwrap();
    let list = repo.get_available();
    assert_eq!(list.len(), 2);
    assert_ne!(list[0].hash, list[1].hash);
}

#[test]
fn get_piece_unknown_hash_or_index_does_not_exist() {
    let mut repo = FileRepo::default();
    let file = File::new(&data_of(2500, 4)).unwrap();
    let key = key_of(&file);
    repo.add(file).unwrap();
    assert!(matches!(
        repo.get_piece("00".repeat(32), 0),
        Err(RepoError::DoesntExist)
    ));
    assert!(matches!(repo.get_piece(String::new(), 0), Err(RepoError::DoesntExist)));
    assert!(matches!(repo.get_piece(key.clone(), 3), Err(RepoError::DoesntExist)));
    assert!(matches!(repo.get_piece(key.clone(), usize::MAX), Err(RepoError::DoesntExist)));
    assert!(repo.get_piece(key, 2).is_ok());
}

#[test]
fn piece_proof_verifies_against_key() {
    let mut repo = FileRepo::default();
    let data = data_of(7 * 1024 + 1, 5);
    let file = File::new(&data).unwrap();
    let root = file.get_root().unwrap();
    let key = key_of(&file);
    repo.add(file).unwrap();
    for i in 0..8 {
        let piece = repo.get_piece(key.clone(), i).unwrap();
        assert_eq!(piece.content.leaf_idx, i);
        assert_eq!(piece.content.data, data[i * 1024..((i + 1) * 1024).min(data.len())].to_vec());
        assert_eq!(piece.proof.len(), 3);
        let rebuilt = root_from_partial(&Sha256Hasher, &piece.content, i, 8, piece.proof).unwrap();
        assert_eq!(rebuilt, root);
    }
}

#[test]
fn repo_error_from_file_error() {
    assert_eq!(
        RepoError::from(FileError::Merkle(MerkleError::InvalidIdx)),
        RepoError::DoesntExist
    );
    assert_eq!(
        RepoError::from(FileError::Merkle(MerkleError::LeafCount)),
        RepoError::File(FileError::Merkle(MerkleError::LeafCount))
    );
    assert_eq!(RepoError::from(FileError::File), RepoError::File(FileError::File));
}
