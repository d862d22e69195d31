use std::path::PathBuf;

use riptorrent::database::{new_bitfield, FileInfo};
use riptorrent::torrent::{File, Hashes, HashesError, InfoHash, Key, Metainfo};

#[test]
fn info_hash_is_the_sha1_of_the_bencoded_info() {
    // SHA-1 of the empty string
    let h = InfoHash::of_bencoded_info(b"");
    assert_eq!(h.as_hex(), "da39a3ee5e6b4b0d3255bfef95601890afd80709");
    let h = InfoHash::of_bencoded_info(b"abc");
    assert_eq!(h.as_hex(), "a9993e364706816aba3e25717850c26c9cd0d89d");
}

#[test]
fn piece_hashes_are_split_every_20_bytes() {
    let bytes: Vec<u8> = (0..40u8).collect();
    let hashes = Hashes::from_bytes(&bytes).unwrap();
    assert_eq!(hashes.0.len(), 2);
    assert_eq!(hashes.0[1][0], 20);
    assert_eq!(hashes.to_bytes(), bytes);
    assert_eq!(Hashes::from_bytes(&bytes[..39]), Err(HashesError::NotMultipleOf20(39)));
}

#[test]
fn stored_torrent_view() {
    let m = Metainfo {
        name: "file".to_string(),
        piece_length: 16,
        pieces: Hashes(vec![[0u8; 20], [1u8; 20]]),
        length: Some(20),
        files: Key::SingleFile { md5sum: None },
    };
    let bits = new_bitfield(m.n_pieces());
    assert_eq!(bits, vec![false, false]);
    let info = FileInfo::from_entry(InfoHash([2u8; 20]), &m, PathBuf::from("out.bin"), bits);
    assert_eq!(info.info_hash, InfoHash([2u8; 20]));
    assert_eq!(info.size, 20);
    assert_eq!(info.piece_size, 16);
    assert_eq!(info.file_path, PathBuf::from("out.bin"));
    assert_eq!(info.bitfield, vec![false, false]);
}

#[test]
fn multi_file_length_is_the_files_together() {
    let m = Metainfo {
        name: "dir".to_string(),
        piece_length: 16,
        pieces: Hashes(vec![[0u8; 20]; 3]),
        length: None,
        files: Key::MultiFile {
            files: vec![
                File { length: 10, path: vec!["a".to_string()] },
                File { length: 25, path: vec!["b".to_string(), "c".to_string()] },
            ],
            md5sum: None,
        },
    };
    assert_eq!(m.get_length(), 35);
    let single = Metainfo { length: Some(7), files: Key::SingleFile { md5sum: None }, ..m.clone() };
    assert_eq!(single.get_length(), 7);
}
