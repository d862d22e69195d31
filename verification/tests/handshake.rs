use riptorrent::handshake::{Handshake, HandshakeError, PeerState};
use riptorrent::torrent::InfoHash;

#[test]
fn handshake_new_announces_extensions() {
    let h = Handshake::new(InfoHash([7; 20]), [9; 20]);
    assert!(h.has_extensions_enabled());
    let bytes = h.to_bytes();
    assert_eq!(bytes[0], 19);
    assert_eq!(&bytes[1..20], b"BitTorrent protocol");
    assert_eq!(&bytes[20..28], &[0, 0, 0, 0, 0, 0x10, 0, 0]);
    assert_eq!(&bytes[28..48], &[7; 20]);
    assert_eq!(&bytes[48..68], &[9; 20]);
}

#[test]
fn handshake_bytes_roundtrip() {
    let h = Handshake::new(InfoHash([1; 20]), *b"-AZ2060-222222222222");
    let bytes = h.to_bytes();
    assert!(Handshake::is_valid(&bytes));
    let back = Handshake::from_bytes(&bytes);
    assert_eq!(back.info_hash, h.info_hash);
    assert_eq!(back.peer_id, h.peer_id);
    assert_eq!(back.reserved, h.reserved);
    assert!(back.has_extensions_enabled());
}

#[test]
fn handshake_without_extension_bit() {
    let mut bytes = Handshake::new(InfoHash([1; 20]), [2; 20]).to_bytes();
    bytes[25] = 0x04;
    let h = Handshake::from_bytes(&bytes);
    assert!(!h.has_extensions_enabled());
}

#[test]
fn handshake_invalid_protocol_is_refused() {
    let mut bytes = Handshake::new(InfoHash([1; 20]), [2; 20]).to_bytes();
    bytes[3] = b'X';
    assert!(!Handshake::is_valid(&bytes));
    bytes[3] = b't';
    bytes[0] = 18;
    assert!(!Handshake::is_valid(&bytes));
}

#[test]
fn handshake_reply_for_other_torrent_is_refused() {
    let ours = Handshake::new(InfoHash([1; 20]), [2; 20]);
    let theirs = Handshake::new(InfoHash([3; 20]), [4; 20]);
    assert_eq!(
        ours.check_reply(theirs).map(|h| h.peer_id),
        Err(HandshakeError::InfoHashMismatch)
    );
    let same = Handshake::new(InfoHash([1; 20]), [4; 20]);
    assert_eq!(ours.check_reply(same).map(|h| h.peer_id), Ok([4; 20]));
}

#[test]
fn peer_state_defaults_to_not_connected() {
    assert_eq!(PeerState::default(), PeerState::NotConnected);
}
