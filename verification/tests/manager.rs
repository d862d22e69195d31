use riptorrent::extensions::{ExtensionMessage, ExtensionType};
use riptorrent::manager::{ManagerAction, MetadataStage, PeerManagerCore};
use riptorrent::payloads::{BitfieldPayload, HavePayload, RequestPiecePayload, ResponsePiecePayload};
use riptorrent::peer::{ReqMessage, ResMessage};
use riptorrent::torrent::{Hashes, InfoHash, Key, Metainfo};
use sha1::{Digest, Sha1};

fn sha1(data: &[u8]) -> [u8; 20] {
    let mut hasher = Sha1::new();
    hasher.update(data);
    hasher.finalize().into()
}

fn metainfo(data: &[u8], piece_length: u32) -> Metainfo {
    Metainfo {
        name: "file".to_string(),
        piece_length,
        pieces: Hashes(data.chunks(piece_length as usize).map(sha1).collect()),
        length: Some(data.len() as u32),
        files: Key::SingleFile { md5sum: None },
    }
}

#[test]
fn manager_downloads_and_announces_pieces() {
    let data: Vec<u8> = (0..20000u32).map(|i| (i % 7) as u8).collect();
    let m = metainfo(&data, 16384);
    let mut core = PeerManagerCore::new(m, vec![false, false]);
    let peer = [1u8; 20];

    let actions = core.on_connect(peer);
    assert!(matches!(actions.as_slice(), [ManagerAction::Send(p, ResMessage::StartDownload)] if *p == peer));

    let actions = core.handle(peer, ReqMessage::WhatDoWeHave, 0);
    assert!(matches!(actions.as_slice(),
        [ManagerAction::Send(_, ResMessage::WeHave(Some(b)))] if b.pieces_available == vec![false, false]));

    let actions = core.handle(peer, ReqMessage::PeerBitfield(BitfieldPayload::new(vec![true, false, false, false, false, false, false, false])), 0);
    assert!(actions.is_empty());
    let actions = core.handle(peer, ReqMessage::PeerHas(HavePayload { piece_index: 1 }), 0);
    assert!(actions.is_empty());

    let actions = core.handle(peer, ReqMessage::NeedBlockQueue, 0);
    let requests = match actions.as_slice() {
        [ManagerAction::Send(_, ResMessage::NewBlockQueue(reqs))] => reqs.clone(),
        other => panic!("unexpected {other:?}"),
    };
    assert_eq!(
        requests,
        vec![RequestPiecePayload::new(0, 0, 16384), RequestPiecePayload::new(1, 0, 20000 - 16384)]
    );

    let mut stored = vec![];
    for r in requests {
        let start = (r.index * 16384 + r.begin) as usize;
        let block = ResponsePiecePayload {
            index: r.index,
            begin: r.begin,
            block: data[start..start + r.length as usize].to_vec(),
        };
        for action in core.handle(peer, ReqMessage::GotBlock(block), 0) {
            match action {
                ManagerAction::StorePiece { piece_i, offset, data: piece, bitfield } => {
                    assert_eq!(offset, piece_i as u64 * 16384);
                    assert_eq!(piece, data[offset as usize..offset as usize + piece.len()].to_vec());
                    assert!(bitfield[piece_i as usize]);
                    stored.push(core.piece_stored(piece_i));
                }
                other => panic!("unexpected {other:?}"),
            }
        }
    }
    assert_eq!(stored.len(), 2);
    assert!(matches!(stored[0].as_slice(), [ManagerAction::Broadcast(ResMessage::FinishedPiece(0))]));
    assert!(matches!(stored[1].as_slice(),
        [ManagerAction::Broadcast(ResMessage::FinishedPiece(1)), ManagerAction::Broadcast(ResMessage::FinishedFile)]));

    // we can now serve what we have
    let req = RequestPiecePayload::new(1, 0, 10);
    assert!(core.can_handle(&ReqMessage::NeedBlock(req)));
    let actions = core.handle(peer, ReqMessage::NeedBlock(req), 0);
    assert!(matches!(actions.as_slice(), [ManagerAction::ServeBlock(_, r, 16384)] if *r == req));
    assert!(!core.can_handle(&ReqMessage::NeedBlock(RequestPiecePayload::new(2, 0, 1))));
}

#[test]
fn manager_refuses_blocks_it_does_not_have() {
    let data = vec![0u8; 100];
    let mut core = PeerManagerCore::new(metainfo(&data, 100), vec![false]);
    let peer = [2u8; 20];
    core.on_connect(peer);
    let actions = core.handle(peer, ReqMessage::NeedBlock(RequestPiecePayload::new(0, 0, 10)), 0);
    assert!(matches!(actions.as_slice(), [ManagerAction::Send(_, ResMessage::Block(None))]));
    // a block of a piece that is not being downloaded is ignored
    let actions = core.handle(peer, ReqMessage::GotBlock(ResponsePiecePayload { index: 0, begin: 0, block: vec![0; 100] }), 0);
    assert!(actions.is_empty());
}

#[test]
fn metadata_is_collected_before_the_download() {

    let info = b"d6:lengthi3e4:name1:a12:piece lengthi16384e6:pieces20:aaaaaaaaaaaaaaaaaaaae".to_vec();
    let hash = InfoHash(sha1(&info));
    let mut stage = MetadataStage::new(hash);
    let peer = [3u8; 20];
    stage.on_connect(peer);
    let actions = stage.handle(peer, ReqMessage::WhatDoWeHave, 0);
    assert!(matches!(actions.as_slice(), [ManagerAction::Send(_, ResMessage::WeHave(None))]));
    assert!(stage.handle(peer, ReqMessage::Extension(ExtensionMessage::GotMetadataLength(info.len())), 0).is_empty());
    let actions = stage.handle(peer, ReqMessage::Extension(ExtensionMessage::NeedMetadataPiece), 0);
    assert!(matches!(actions.as_slice(),
        [ManagerAction::Send(_, ResMessage::ExtensionData(ExtensionType::Metadata, d))] if d == b"d8:msg_typei0e5:piecei0ee"));
    let actions = stage.handle(
        peer,
        ReqMessage::Extension(ExtensionMessage::ReceivedMetadataPiece { piece_index: 0, data: info.clone() }),
        0,
    );
    assert!(matches!(actions.as_slice(), [ManagerAction::MetadataComplete(bytes)] if *bytes == info));

    let m = Metainfo {
        name: "a".to_string(),
        piece_length: 16384,
        pieces: Hashes(vec![[b'a'; 20]]),
        length: Some(3),
        files: Key::SingleFile { md5sum: None },
    };
    let core = stage.into_downloading(m).expect("one peer");
    assert_eq!(core.selector.get_have(), &vec![false]);
}

#[test]
fn a_corrupt_piece_is_requested_again() {
    let data: Vec<u8> = vec![4u8; 1000];
    let m = metainfo(&data, 16384);
    let mut core = PeerManagerCore::new(m, vec![false]);
    let peer = [1u8; 20];
    core.on_connect(peer);
    core.handle(peer, ReqMessage::PeerBitfield(BitfieldPayload::new(vec![true, false, false, false, false, false, false, false])), 0);
    let first = core.handle(peer, ReqMessage::NeedBlockQueue, 0);
    assert!(matches!(first.as_slice(),
        [ManagerAction::Send(_, ResMessage::NewBlockQueue(r))] if *r == vec![RequestPiecePayload::new(0, 0, 1000)]));
    // wrong bytes: nothing is stored
    let bad = ResponsePiecePayload { index: 0, begin: 0, block: vec![5u8; 1000] };
    assert!(core.handle(peer, ReqMessage::GotBlock(bad), 0).is_empty());
    // the piece is asked for again at once
    let again = core.handle(peer, ReqMessage::NeedBlockQueue, 1);
    assert!(matches!(again.as_slice(),
        [ManagerAction::Send(_, ResMessage::NewBlockQueue(r))] if *r == vec![RequestPiecePayload::new(0, 0, 1000)]));
    let good = ResponsePiecePayload { index: 0, begin: 0, block: data.clone() };
    let stored = core.handle(peer, ReqMessage::GotBlock(good), 1);
    assert!(matches!(stored.as_slice(), [ManagerAction::StorePiece { piece_i: 0, .. }]));
}
