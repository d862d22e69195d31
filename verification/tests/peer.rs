use riptorrent::extensions::{
    ExtensionAction, ExtensionMessage, ExtensionType, MetadataMsg, MetadataMsgType,
    MetadataRequester,
};
use riptorrent::handshake::Handshake;
use riptorrent::messages::PeerMessage;
use riptorrent::payloads::{
    BitfieldPayload, HavePayload, NoPayload, RequestPiecePayload, ResponsePiecePayload,
};
use riptorrent::extensions::BasicExtensionPayload;
use riptorrent::metadata::metadata_request;
use riptorrent::peer::{
    update_extensions_from_handshake, ExtendedHandshake, Msg, ParsedExtension, Peer, PeerAction,
    PeerStop, ReqMessage, ResMessage,
};
use riptorrent::torrent::InfoHash;

fn no_parse() -> ParsedExtension {
    ParsedExtension { handshake: None, metadata: None }
}

fn new_peer(extensions: bool) -> Peer {
    let mut h = Handshake::new(InfoHash([1; 20]), [2; 20]);
    if !extensions {
        h.reserved[5] = 0;
    }
    Peer::new_from_handshake(&h)
}

#[test]
fn test_req() {
    assert_eq!(metadata_request(0), b"d8:msg_typei0e5:piecei0ee".to_vec());
    let value: serde_bencode::value::Value =
        serde_bencode::from_str("d8:msg_typei0e5:piecei0ee").unwrap();
    let back = serde_bencode::to_bytes(&value).unwrap();
    assert_eq!(back, metadata_request(0));
}

#[test]
fn test_data() {
    let metadata_requester = MetadataRequester::new();
    let bytes = b"d8:msg_typei1e5:piecei0e10:total_sizei8eexxxxxxxx";
    let msg = MetadataMsg {
        msg_type: MetadataMsgType::Data,
        piece_index: 0,
        total_size: Some(8),
    };
    let action = metadata_requester.handle_message(bytes, Some(msg));
    assert_eq!(
        action,
        ExtensionAction::SendPeerManager(ExtensionMessage::ReceivedMetadataPiece {
            piece_index: 0,
            data: b"xxxxxxxx".to_vec()
        })
    );
}

#[test]
fn metadata_message_without_size_does_nothing() {
    let msg = MetadataMsg {
        msg_type: MetadataMsgType::Request,
        piece_index: 3,
        total_size: None,
    };
    assert_eq!(
        MetadataRequester::new().handle_message(b"d8:msg_typei0e5:piecei3ee", Some(msg)),
        ExtensionAction::Nothing
    );
    assert_eq!(
        MetadataRequester::new().handle_message(b"garbage", None),
        ExtensionAction::Nothing
    );
}

#[test]
fn extension_names() {
    assert_eq!(ExtensionType::from_str("ut_metadata"), Some(ExtensionType::Metadata));
    assert_eq!(ExtensionType::from_str("ut_pex"), None);
    assert_eq!(ExtensionType::Metadata.id(), 1);
}

#[test]
fn download_loop_requests_after_unchoke() {
    let mut peer = new_peer(false);
    let start = peer.start(vec![]);
    assert!(start.is_empty());
    assert!(!peer.state.am_choking);

    // the manager starts the download: ask what we have
    let r = peer.handle_message(Msg::Manager(ResMessage::StartDownload), &no_parse());
    assert_eq!(
        r.actions,
        vec![PeerAction::SendPeerManager(ReqMessage::WhatDoWeHave)]
    );

    // we have nothing: become interested and ask for requests
    let r = peer.handle_message(Msg::Manager(ResMessage::WeHave(None)), &no_parse());
    assert_eq!(
        r.actions,
        vec![
            PeerAction::SendPeer(PeerMessage::Interested(NoPayload)),
            PeerAction::SendPeerManager(ReqMessage::NeedBlockQueue),
        ]
    );

    let req = RequestPiecePayload::new(0, 0, 16384);
    let r = peer.handle_message(Msg::Manager(ResMessage::NewBlockQueue(vec![req])), &no_parse());
    assert!(r.actions.is_empty()); // still choked

    let r = peer.handle_message(Msg::Data(PeerMessage::Unchoke(NoPayload)), &no_parse());
    assert_eq!(
        r.actions,
        vec![
            PeerAction::SendPeer(PeerMessage::Request(req)),
            PeerAction::SendPeerManager(ReqMessage::NeedBlockQueue),
        ]
    );
    assert_eq!(peer.queue.have_sent, 1);

    let block = ResponsePiecePayload { index: 0, begin: 0, block: vec![5; 4] };
    let msg = Msg::Data(PeerMessage::Piece(block.clone()));
    assert!(peer.can_handle(&msg, &no_parse()));
    let r = peer.handle_message(msg, &no_parse());
    assert_eq!(r.actions[0], PeerAction::SendPeerManager(ReqMessage::GotBlock(block)));
    assert_eq!(peer.queue.have_sent, 0);
    assert!(!peer.can_handle(
        &Msg::Data(PeerMessage::Piece(ResponsePiecePayload { index: 0, begin: 0, block: vec![] })),
        &no_parse()
    ));
}

#[test]
fn finished_file_stops_unless_peer_is_interested() {
    let mut peer = new_peer(false);
    let r = peer.handle_message(Msg::Data(PeerMessage::Interested(NoPayload)), &no_parse());
    assert_eq!(r.actions, vec![PeerAction::SendPeer(PeerMessage::Unchoke(NoPayload))]);
    let r = peer.handle_message(Msg::Manager(ResMessage::FinishedFile), &no_parse());
    assert_eq!(r.stop, None);
    peer.handle_message(Msg::Data(PeerMessage::NotInterested(NoPayload)), &no_parse());
    let r = peer.handle_message(Msg::Manager(ResMessage::FinishedFile), &no_parse());
    assert_eq!(r.stop, Some(PeerStop::Done));
}

#[test]
fn messages_from_the_remote_peer_go_to_the_manager() {
    let mut peer = new_peer(false);
    let r = peer.handle_message(Msg::Data(PeerMessage::Have(HavePayload { piece_index: 4 })), &no_parse());
    assert_eq!(
        r.actions,
        vec![PeerAction::SendPeerManager(ReqMessage::PeerHas(HavePayload { piece_index: 4 }))]
    );
    let r = peer.handle_message(Msg::Manager(ResMessage::FinishedPiece(4)), &no_parse());
    assert_eq!(
        r.actions,
        vec![PeerAction::SendPeer(PeerMessage::Have(HavePayload { piece_index: 4 }))]
    );
    let r = peer.handle_message(Msg::Timeout, &no_parse());
    assert_eq!(r.actions, vec![PeerAction::SendPeer(PeerMessage::KeepAlive(NoPayload))]);
    let r = peer.handle_message(Msg::CloseConnection, &no_parse());
    assert_eq!(r.stop, Some(PeerStop::Disconnected));
    assert!(!peer.can_handle(
        &Msg::Data(PeerMessage::Cancel(RequestPiecePayload::new(0, 0, 1))),
        &no_parse()
    ));
}

#[test]
fn full_bitfield_means_not_interested() {
    let mut peer = new_peer(false);
    let r = peer.handle_message(
        Msg::Manager(ResMessage::WeHave(Some(BitfieldPayload::new(vec![true, true])))),
        &no_parse(),
    );
    assert!(r.actions.is_empty());
    let r = peer.handle_message(
        Msg::Manager(ResMessage::WeHave(Some(BitfieldPayload::new(vec![true, false])))),
        &no_parse(),
    );
    assert_eq!(
        r.actions,
        vec![
            PeerAction::SendPeer(PeerMessage::Interested(NoPayload)),
            PeerAction::SendPeer(PeerMessage::Bitfield(BitfieldPayload::new(vec![true, false]))),
            PeerAction::SendPeerManager(ReqMessage::NeedBlockQueue),
        ]
    );
    let r = peer.handle_message(Msg::Manager(ResMessage::CancelDownload), &no_parse());
    assert_eq!(r.actions, vec![PeerAction::SendPeer(PeerMessage::NotInterested(NoPayload))]);
    assert_eq!(r.stop, Some(PeerStop::Done));
}

#[test]
fn extended_handshake_sets_up_metadata() {
    let mut peer = new_peer(true);
    let start = peer.start(b"d1:md11:ut_metadatai1eee".to_vec());
    assert_eq!(
        start,
        vec![PeerAction::SendPeer(PeerMessage::Extended(BasicExtensionPayload {
            extension_id: 0,
            data: b"d1:md11:ut_metadatai1eee".to_vec()
        }))]
    );
    let parsed = ParsedExtension {
        handshake: Some(ExtendedHandshake {
            m: vec![("ut_metadata".to_string(), 3), ("ut_pex".to_string(), 2)],
            metadata_size: Some(31235),
            reqq: Some(250),
        }),
        metadata: None,
    };
    let msg = Msg::Data(PeerMessage::Extended(BasicExtensionPayload {
        extension_id: 0,
        data: vec![],
    }));
    let r = peer.handle_message(msg, &parsed);
    assert_eq!(
        r.actions,
        vec![
            PeerAction::SendPeerManager(ReqMessage::Extension(ExtensionMessage::GotMetadataLength(31235))),
            PeerAction::SendPeerManager(ReqMessage::Extension(ExtensionMessage::NeedMetadataPiece)),
        ]
    );
    assert_eq!(peer.state.max_req, 250);
    assert_eq!(peer.extensions, Some(vec![(3, ExtensionType::Metadata)]));

    // data for the extension goes out under the id the remote peer chose
    peer.handle_message(
        Msg::Manager(ResMessage::ExtensionData(ExtensionType::Metadata, vec![1, 2])),
        &no_parse(),
    );
    assert_eq!(
        peer.queue.to_send,
        vec![PeerMessage::Extended(BasicExtensionPayload { extension_id: 3, data: vec![1, 2] })]
    );

    // an unreadable extended handshake ends the connection
    let bad = Msg::Data(PeerMessage::Extended(BasicExtensionPayload { extension_id: 0, data: vec![] }));
    assert_eq!(peer.handle_message(bad, &no_parse()).stop, Some(PeerStop::InvalidExtendedHandshake));
}

#[test]
fn handshake_entry_with_id_zero_disables() {
    let mut table = vec![(3u8, ExtensionType::Metadata)];
    let h = ExtendedHandshake {
        m: vec![("other".to_string(), 0), ("ut_metadata".to_string(), 0)],
        metadata_size: Some(10),
        reqq: None,
    };
    let actions = update_extensions_from_handshake(&mut table, &h);
    assert!(actions.is_empty());
    assert!(table.is_empty());
    let h = ExtendedHandshake {
        m: vec![("ut_metadata".to_string(), 4)],
        metadata_size: None,
        reqq: None,
    };
    let actions = update_extensions_from_handshake(&mut table, &h);
    assert_eq!(actions.len(), 1);
    assert_eq!(table, vec![(4u8, ExtensionType::Metadata)]);
}

#[test]
fn our_extended_handshake_names_ut_metadata() {
    assert_eq!(
        riptorrent::extensions::handshake_extensions(),
        vec![("ut_metadata".to_string(), 1)]
    );
}

#[test]
fn metadata_requester_serves_the_metadata_extension() {
    assert_eq!(MetadataRequester::new().get_ext_type(), ExtensionType::Metadata);
}
