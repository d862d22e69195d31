use riptorrent::download::BlockState;
use riptorrent::metadata::{metadata_request, MetadataPieceManager, METADATA_BLOCK_SIZE};
use riptorrent::torrent::InfoHash;
use sha1::{Digest, Sha1};

#[test]
fn metadata_piece_manager_test_new_metadata_piece_manager() {
    let info_hash = InfoHash([0x00; 20]);
    let manager = MetadataPieceManager::new(info_hash);
    assert!(manager.queue.is_empty());
    assert_eq!(manager.bytes.len(), 0);
    assert_eq!(manager.info_hash, info_hash);
}

#[test]
fn metadata_piece_manager_test_set_len() {
    let info_hash = InfoHash([0x00; 20]);
    let mut manager = MetadataPieceManager::new(info_hash);

    // Test initialization
    manager.set_len(METADATA_BLOCK_SIZE * 3 + 100); // 4 blocks
    assert_eq!(manager.queue.len(), 4);
    assert!(manager.queue.iter().all(|&b| b == BlockState::Unrequested));
    assert_eq!(manager.bytes.len(), METADATA_BLOCK_SIZE * 3 + 100);
    assert!(manager.bytes.iter().all(|b| *b == 0));

    // Test that calling set_len again does nothing if already initialized
    manager.queue[0] = BlockState::Finished; // Mark one piece as received
    manager.set_len(100);
    assert_eq!(manager.queue.len(), 4); // Should still be 4, not 1
    assert_eq!(manager.queue[0], BlockState::Finished); // Should still be true
}

#[test]
fn metadata_piece_manager_test_add_block() {
    let info_hash = InfoHash([0x00; 20]);
    let mut manager = MetadataPieceManager::new(info_hash);
    manager.set_len(METADATA_BLOCK_SIZE * 2 + 3); // 3 blocks

    let block_data_0 = [0x01; METADATA_BLOCK_SIZE];
    let block_data_1 = [0x02; METADATA_BLOCK_SIZE];

    manager.add_block(0, &block_data_0);
    assert_eq!(manager.queue[0], BlockState::Finished);
    assert_eq!(&manager.bytes[0..METADATA_BLOCK_SIZE], &block_data_0[..]);

    manager.add_block(1, &block_data_1);
    assert_eq!(manager.queue[1], BlockState::Finished);
    assert_eq!(
        &manager.bytes[METADATA_BLOCK_SIZE..METADATA_BLOCK_SIZE * 2],
        &block_data_1[..]
    );

    manager.add_block(2, &[1, 2, 3]);
    assert_eq!(manager.queue[2], BlockState::Finished);
    assert_eq!(
        &manager.bytes[METADATA_BLOCK_SIZE * 2..METADATA_BLOCK_SIZE * 2 + 3],
        &[1, 2, 3]
    );
}

#[test]
fn metadata_piece_manager_test_get_block_req_data() {
    let info_hash = InfoHash([0x00; 20]);
    let mut manager = MetadataPieceManager::new(info_hash);
    manager.set_len(METADATA_BLOCK_SIZE * 3); // 3 blocks

    // Request every block at once
    let req_data_0 = manager.get_block_req_data(1_000);
    assert_eq!(
        req_data_0,
        vec![
            b"d8:msg_typei0e5:piecei0ee".to_vec(),
            b"d8:msg_typei0e5:piecei1ee".to_vec(),
            b"d8:msg_typei0e5:piecei2ee".to_vec(),
        ]
    );
    assert!(matches!(manager.queue[0], BlockState::InProcess(_)));
    assert!(matches!(manager.queue[1], BlockState::InProcess(_)));
    assert!(matches!(manager.queue[2], BlockState::InProcess(_)));

    manager.queue[0] = BlockState::Finished;
    manager.queue[1] = BlockState::Finished;
    manager.queue[2] = BlockState::Finished;

    // Should be empty when all blocks are received
    assert!(manager.get_block_req_data(2_000).is_empty());
}

#[test]
fn metadata_piece_manager_test_check_finished() {
    let metadata_bytes = vec![0x01; METADATA_BLOCK_SIZE];
    let mut hasher = Sha1::new();
    hasher.update(&metadata_bytes);
    let info_hash = InfoHash(hasher.finalize().into());
    let mut manager = MetadataPieceManager::new(info_hash);
    manager.set_len(METADATA_BLOCK_SIZE);

    manager.bytes = metadata_bytes;
    manager.queue = vec![BlockState::Finished; 1];

    assert!(manager.check_finished());

    // simulate not matching metainfo
    manager.bytes = vec![0x00; METADATA_BLOCK_SIZE];
    assert!(!manager.check_finished());
    // Queue should be reset
    assert!(manager.queue.iter().all(|&b| b == BlockState::Unrequested));
}

#[test]
fn metadata_piece_manager_test_check_finished_not_all_pieces() {
    let info_hash = InfoHash([0x00; 20]);
    let mut manager = MetadataPieceManager::new(info_hash);
    manager.set_len(METADATA_BLOCK_SIZE * 2);

    let bytes = vec![0x00; METADATA_BLOCK_SIZE];
    manager.bytes = vec![0x00; METADATA_BLOCK_SIZE];
    manager.queue[0] = BlockState::Finished; // Only one piece received
    assert!(!manager.check_finished());
    // queue should still be the same
    assert_eq!(manager.bytes, bytes);
}

#[test]
fn metadata_piece_manager_test_get_metadata() {
    // The metadata is read into a `Metainfo` by the application, not by the manager.
}

#[test]
fn metadata_requests_time_out_after_five_seconds() {
    let mut manager = MetadataPieceManager::new(InfoHash([0x00; 20]));
    manager.set_len(10);
    assert_eq!(manager.get_block_req_data(10_000).len(), 1);
    // still waiting for the answer
    assert!(manager.get_block_req_data(14_999).is_empty());
    // the request is lost: ask again
    assert_eq!(
        manager.get_block_req_data(15_000),
        vec![b"d8:msg_typei0e5:piecei0ee".to_vec()]
    );
}

#[test]
fn metadata_request_for_large_piece_index() {
    assert_eq!(
        metadata_request(4_294_967_295),
        b"d8:msg_typei0e5:piecei4294967295ee".to_vec()
    );
}

#[test]
fn metadata_accepts_block_bounds() {
    let mut manager = MetadataPieceManager::new(InfoHash([0x00; 20]));
    manager.set_len(METADATA_BLOCK_SIZE + 5);
    assert!(manager.accepts_block(1, 5));
    assert!(!manager.accepts_block(1, 6));
    assert!(!manager.accepts_block(2, 0));
    assert!(manager.accepts_block(0, METADATA_BLOCK_SIZE));
}

#[test]
fn metadata_blocks_requested_at_the_current_time() {
    let mut manager = MetadataPieceManager::new(InfoHash([0x00; 20]));
    manager.set_len(METADATA_BLOCK_SIZE + 1);
    let reqs = manager.get_block_req_data_now();
    assert_eq!(reqs, vec![metadata_request(0), metadata_request(1)]);
    assert!(matches!(manager.queue[0], BlockState::InProcess(_)));
    assert!(matches!(manager.queue[1], BlockState::InProcess(_)));
    // they were requested just now
    assert!(manager.get_block_req_data_now().is_empty());
}
