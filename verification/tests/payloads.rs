use riptorrent::messages::{MessageFramer, PeerMessage};
use riptorrent::payloads::{BitfieldPayload, HavePayload, NoPayload, RequestPiecePayload, ResponsePiecePayload};

#[test]
fn test_bitfield_payload() {
    let payload = BitfieldPayload {
        pieces_available: vec![true, false, true, false, true, false, true, false, true],
    };
    let bytes = payload.to_be_bytes();
    let payload2 = BitfieldPayload::from_be_bytes(&bytes);
    // The from_be_bytes function pads with 'false' values to the next full byte,
    // so we need to do the same for the first payload to compare them.
    let mut expected_pieces = payload.pieces_available.clone();
    expected_pieces.resize(16, false);
    assert_eq!(payload2.pieces_available, expected_pieces);
}

#[test]
fn test_request_piece_payload() {
    let payload = RequestPiecePayload {
        index: 1,
        begin: 2,
        length: 3,
    };
    let bytes = payload.to_be_bytes();
    let payload2 = RequestPiecePayload::from_be_bytes(&bytes);
    assert_eq!(payload, payload2);
}

#[test]
fn test_response_piece_payload() {
    let payload = ResponsePiecePayload {
        index: 1,
        begin: 2,
        block: vec![1, 2, 3, 4],
    };
    let bytes = payload.to_be_bytes();
    let payload2 = ResponsePiecePayload::from_be_bytes(&bytes);
    assert_eq!(payload, payload2);
}

#[test]
fn test_have_payload() {
    let payload = HavePayload { piece_index: 1 };
    let bytes = payload.to_be_bytes();
    let payload2 = HavePayload::from_be_bytes(&bytes);
    assert_eq!(payload, payload2);
}

#[test]
fn bitfield_bytes_are_packed_high_bit_first() {
    let payload = BitfieldPayload {
        pieces_available: vec![true, false, false, false, false, false, false, true, true],
    };
    assert_eq!(payload.to_be_bytes(), vec![0b1000_0001, 0b1000_0000]);
}

#[test]
fn request_bytes_are_big_endian() {
    let payload = RequestPiecePayload::new(1, 0x4000, 0x0102_0304);
    assert_eq!(
        payload.to_be_bytes(),
        vec![0, 0, 0, 1, 0, 0, 0x40, 0, 1, 2, 3, 4]
    );
}

#[test]
fn bitfield_flags() {
    let empty = BitfieldPayload::new(vec![false, false]);
    assert!(empty.is_empty());
    assert!(empty.is_nothing());
    assert!(!empty.is_finished());
    let full = BitfieldPayload::new(vec![true, true, true]);
    assert!(full.is_finished());
    assert!(!full.is_empty());
    assert_eq!(full.get_correct_len(2), vec![true, true]);
}

#[test]
fn bitfield_pieces_are_handed_out() {
    let payload = BitfieldPayload { pieces_available: vec![true, false, false] };
    assert_eq!(payload.get_pieces(), vec![true, false, false]);
}

#[test]
fn keep_alive_is_four_zero_bytes() {
    let mut dst = vec![9u8];
    assert_eq!(MessageFramer::encode_frame(&PeerMessage::KeepAlive(NoPayload), &mut dst), Ok(()));
    assert_eq!(dst, vec![9, 0, 0, 0, 0]);
    let step = MessageFramer::decode_frame(&dst[1..]).unwrap();
    assert_eq!(step.consumed, 4);
    assert_eq!(step.message, Some(PeerMessage::KeepAlive(NoPayload)));
}
