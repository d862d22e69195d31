use riptorrent::download::{
    block_offset, can_serve, get_bytes_left_to_download, is_download_finished, piece_offset,
    BlockState, PieceManager, PieceState,
};
use riptorrent::payloads::{RequestPiecePayload, ResponsePiecePayload};
use riptorrent::piece_selector::PieceSelector;
use riptorrent::torrent::{get_block_len, get_piece_size, Hashes, Key, Metainfo};
use sha1::{Digest, Sha1};

fn sha1(data: &[u8]) -> [u8; 20] {
    let mut hasher = Sha1::new();
    hasher.update(data);
    hasher.finalize().into()
}

fn metainfo(data: &[u8], piece_length: u32) -> Metainfo {
    let hashes = data.chunks(piece_length as usize).map(sha1).collect();
    Metainfo {
        name: "file".to_string(),
        piece_length,
        pieces: Hashes(hashes),
        length: Some(data.len() as u32),
        files: Key::SingleFile { md5sum: None },
    }
}

#[test]
fn piece_and_block_sizes() {
    let data = vec![3u8; 40000];
    let m = metainfo(&data, 32768);
    assert_eq!(get_piece_size(&m, 0), 32768);
    assert_eq!(get_piece_size(&m, 1), 40000 - 32768);
    assert_eq!(get_block_len(2, 32768, 1), 16384);
    assert_eq!(get_block_len(1, 7232, 0), 7232);
    let p = PieceState::new(&m, 1);
    assert_eq!(p.blocks, vec![BlockState::Unrequested]);
    assert_eq!(p.buf.len(), 7232);
}

#[test]
fn blocks_are_requested_once_until_timeout() {
    let data = vec![3u8; 40000];
    let m = metainfo(&data, 32768);
    let mut p = PieceState::new(&m, 0);
    let reqs = p.prepare_requests_for_piece(1, 100);
    assert_eq!(reqs, vec![RequestPiecePayload::new(0, 0, 16384)]);
    let reqs = p.prepare_requests_for_piece(5, 100);
    assert_eq!(reqs, vec![RequestPiecePayload::new(0, 16384, 16384)]);
    assert!(p.prepare_requests_for_piece(5, 100 + 9_999).is_empty());
    assert_eq!(p.prepare_requests_for_piece(5, 100 + 10_000).len(), 2);
    assert!(BlockState::InProcess(0).is_not_requested(10_000));
    assert!(!BlockState::InProcess(1).is_not_requested(10_000));
    assert!(BlockState::Unrequested.is_none());
}

#[test]
fn download_of_a_two_piece_file() {
    let data: Vec<u8> = (0..40000u32).map(|i| (i % 251) as u8).collect();
    let m = metainfo(&data, 32768);
    let peer = [7u8; 20];
    let mut selector = PieceSelector::new(vec![false, false]);
    selector.add_peer(peer);
    selector.add_peer_bitfield(&peer, vec![true, true]);
    let mut manager = PieceManager::build();

    let reqs = manager
        .prepare_next_blocks(&mut selector, 5, &peer, &m, 0)
        .expect("the peer has both pieces");
    assert_eq!(
        reqs,
        vec![
            RequestPiecePayload::new(0, 0, 16384),
            RequestPiecePayload::new(0, 16384, 16384),
            RequestPiecePayload::new(1, 0, 7232),
        ]
    );
    // nothing left to ask for now
    assert!(manager.prepare_next_blocks(&mut selector, 5, &peer, &m, 1).is_none());

    let mut done = vec![];
    for r in reqs {
        let start = (r.index * 32768 + r.begin) as usize;
        let block = ResponsePiecePayload {
            index: r.index,
            begin: r.begin,
            block: data[start..start + r.length as usize].to_vec(),
        };
        assert!(manager.download_queue.accepts_block(&block));
        if let Some(piece) = manager.write_block(block) {
            assert!(piece.check_hash(&m));
            let new_have = PieceManager::checked_bitfield(&selector, &piece, &m).unwrap();
            selector.set_have(piece.piece_i as usize);
            assert_eq!(&new_have, selector.get_have());
            done.push(piece.piece_i);
        }
    }
    assert_eq!(done, vec![0, 1]);
    assert!(is_download_finished(selector.get_have()));
    assert_eq!(get_bytes_left_to_download(selector.get_have(), &m), 0);
}

#[test]
fn corrupt_piece_is_refused() {
    let data = vec![1u8; 100];
    let m = metainfo(&data, 100);
    let mut p = PieceState::new(&m, 0);
    p.update_state(&ResponsePiecePayload { index: 0, begin: 0, block: vec![2u8; 100] });
    assert!(p.is_complete());
    assert!(!p.check_hash(&m));
    let selector = PieceSelector::new(vec![false]);
    assert_eq!(PieceManager::checked_bitfield(&selector, &p, &m), None);
}

#[test]
fn bytes_left_to_download() {
    // three pieces: 32768, 32768 and 4464 bytes
    let data = vec![0u8; 70000];
    let m = metainfo(&data, 32768);
    assert_eq!(get_bytes_left_to_download(&[true, false, false], &m), 32768 + 4464);
    assert_eq!(get_bytes_left_to_download(&[false, false, false], &m), 70000);
    assert_eq!(get_bytes_left_to_download(&[true, true, true], &m), 0);
}

#[test]
fn offsets_in_the_file() {
    assert_eq!(piece_offset(3, 32768), 98304);
    let req = RequestPiecePayload::new(u32::MAX, 5, u32::MAX);
    assert_eq!(block_offset(&req, u32::MAX), (u32::MAX as u64) * (u32::MAX as u64) + 5);
    assert!(can_serve(&[false, true], &RequestPiecePayload::new(1, 0, 1)));
    assert!(!can_serve(&[false, true], &RequestPiecePayload::new(0, 0, 1)));
}

#[test]
fn requests_prepared_at_the_current_time() {
    let data = vec![5u8; 20000];
    let m = metainfo(&data, 32768);
    let peer = [9u8; 20];
    let stranger = [1u8; 20];
    let mut selector = PieceSelector::new(vec![false]);
    selector.add_peer(peer);
    selector.add_peer_bitfield(&peer, vec![true]);
    let mut manager = PieceManager::build();
    // a peer the selector does not know gets nothing
    assert!(manager.prepare_next_blocks_now(&mut selector, 5, &stranger, &m).is_none());
    let reqs = manager
        .prepare_next_blocks_now(&mut selector, 5, &peer, &m)
        .expect("the peer has the piece");
    assert_eq!(
        reqs,
        vec![RequestPiecePayload::new(0, 0, 16384), RequestPiecePayload::new(0, 16384, 3616)]
    );
    // the blocks were just requested, so they are not asked for again
    assert!(manager.prepare_next_blocks_now(&mut selector, 5, &peer, &m).is_none());
}
