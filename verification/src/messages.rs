//! The messages of the peer wire protocol (BEP 3 and the extended message of BEP 10) and
//! their framing: a four-byte big-endian length, a one-byte message id, then the payload.
use vstd::prelude::*;

use crate::extensions::BasicExtensionPayload;
use crate::payloads::{
    bit_of,
    lemma_unpacked_injective, packed_len, padded_bits, request_bytes, request_of_bytes,
    response_bytes, unpacked_bits, BitfieldPayload, HavePayload, NoPayload, RequestPiecePayload,
    ResponsePiecePayload,
};
use crate::payloads::{law_request_roundtrip, law_response_roundtrip};
use crate::wire::{be_bytes, be_value, lemma_be_value_of_bytes, push_be_u32, read_be_u32};

verus! {

/// All the messages a peer sends.
#[derive(Debug, Clone, PartialEq)]
pub enum PeerMessage {
    Choke(NoPayload),
    Unchoke(NoPayload),
    Interested(NoPayload),
    NotInterested(NoPayload),
    Have(HavePayload),
    Bitfield(BitfieldPayload),
    Request(RequestPiecePayload),
    Piece(ResponsePiecePayload),
    Cancel(RequestPiecePayload),
    KeepAlive(NoPayload),
    Extended(BasicExtensionPayload),
}

/// A message, with its byte strings and flags taken as mathematical sequences.
pub ghost enum MessageView {
    Choke,
    Unchoke,
    Interested,
    NotInterested,
    Have(u32),
    Bitfield(Seq<bool>),
    Request(RequestPiecePayload),
    Piece(u32, u32, Seq<u8>),
    Cancel(RequestPiecePayload),
    KeepAlive,
    Extended(u8, Seq<u8>),
}

impl View for PeerMessage {
    type V = MessageView;

    open spec fn view(&self) -> MessageView {
        match self {
            PeerMessage::Choke(_) => MessageView::Choke,
            PeerMessage::Unchoke(_) => MessageView::Unchoke,
            PeerMessage::Interested(_) => MessageView::Interested,
            PeerMessage::NotInterested(_) => MessageView::NotInterested,
            PeerMessage::Have(p) => MessageView::Have(p.piece_index),
            PeerMessage::Bitfield(p) => MessageView::Bitfield(p.pieces_available@),
            PeerMessage::Request(p) => MessageView::Request(*p),
            PeerMessage::Piece(p) => MessageView::Piece(p.index, p.begin, p.block@),
            PeerMessage::Cancel(p) => MessageView::Cancel(*p),
            PeerMessage::KeepAlive(_) => MessageView::KeepAlive,
            PeerMessage::Extended(p) => MessageView::Extended(p.extension_id, p.data@),
        }
    }
}

/// The message ids of BEP 3, and 20 for the extended messages of BEP 10.
#[derive(Debug, Clone, Copy, PartialEq, Eq)]
pub enum MessageType {
    Choke,
    Unchoke,
    Interested,
    NotInterested,
    Have,
    Bitfield,
    Request,
    Piece,
    Cancel,
    Extended,
}

/// The id byte of a message type.
pub open spec fn type_id(t: MessageType) -> u8 {
    match t {
        MessageType::Choke => 0,
        MessageType::Unchoke => 1,
        MessageType::Interested => 2,
        MessageType::NotInterested => 3,
        MessageType::Have => 4,
        MessageType::Bitfield => 5,
        MessageType::Request => 6,
        MessageType::Piece => 7,
        MessageType::Cancel => 8,
        MessageType::Extended => 20,
    }
}

impl MessageType {
    /// The id byte of the message type.
    pub fn id(&self) -> (res: u8)
        ensures
            res == type_id(*self),
    {
        match self {
            MessageType::Choke => 0,
            MessageType::Unchoke => 1,
            MessageType::Interested => 2,
            MessageType::NotInterested => 3,
            MessageType::Have => 4,
            MessageType::Bitfield => 5,
            MessageType::Request => 6,
            MessageType::Piece => 7,
            MessageType::Cancel => 8,
            MessageType::Extended => 20,
        }
    }

    /// The message type with id `id`, if there is one.
    pub fn from_repr(id: u8) -> (res: Option<MessageType>)
        ensures
            res matches Some(t) ==> type_id(t) == id,
            res is None <==> !(id <= 8 || id == 20),
    {
        match id {
            0 => Some(MessageType::Choke),
            1 => Some(MessageType::Unchoke),
            2 => Some(MessageType::Interested),
            3 => Some(MessageType::NotInterested),
            4 => Some(MessageType::Have),
            5 => Some(MessageType::Bitfield),
            6 => Some(MessageType::Request),
            7 => Some(MessageType::Piece),
            8 => Some(MessageType::Cancel),
            20 => Some(MessageType::Extended),
            _ => None,
        }
    }
}

/// The id byte of a message; a keep-alive has none.
pub open spec fn message_id(m: MessageView) -> Option<u8> {
    match m {
        MessageView::Choke => Some(0u8),
        MessageView::Unchoke => Some(1u8),
        MessageView::Interested => Some(2u8),
        MessageView::NotInterested => Some(3u8),
        MessageView::Have(_) => Some(4u8),
        MessageView::Bitfield(_) => Some(5u8),
        MessageView::Request(_) => Some(6u8),
        MessageView::Piece(_, _, _) => Some(7u8),
        MessageView::Cancel(_) => Some(8u8),
        MessageView::KeepAlive => None,
        MessageView::Extended(_, _) => Some(20u8),
    }
}

/// The payload bytes of a message.
pub open spec fn payload_bytes(m: MessageView) -> Seq<u8> {
    match m {
        MessageView::Have(i) => be_bytes(i),
        MessageView::Bitfield(bits) => packed_bytes(bits),
        MessageView::Request(p) => request_bytes(p),
        MessageView::Piece(index, begin, block) => response_bytes(index, begin, block),
        MessageView::Cancel(p) => request_bytes(p),
        MessageView::Extended(id, data) => seq![id] + data,
        _ => Seq::empty(),
    }
}

/// Whether `bits` has a set flag at index `i` (indices past its end count as unset).
pub open spec fn bit_at(bits: Seq<bool>, i: int) -> bool {
    0 <= i < bits.len() && bits[i]
}

/// The byte holding the eight flags of `bits` from index `start` on, first flag in the most
/// significant bit.
pub open spec fn bits_byte(bits: Seq<bool>, start: int) -> u8 {
    (if bit_at(bits, start) { 0x80u8 } else { 0u8 }) | (if bit_at(bits, start + 1) {
        0x40u8
    } else {
        0u8
    }) | (if bit_at(bits, start + 2) { 0x20u8 } else { 0u8 }) | (if bit_at(bits, start + 3) {
        0x10u8
    } else {
        0u8
    }) | (if bit_at(bits, start + 4) { 0x08u8 } else { 0u8 }) | (if bit_at(bits, start + 5) {
        0x04u8
    } else {
        0u8
    }) | (if bit_at(bits, start + 6) { 0x02u8 } else { 0u8 }) | (if bit_at(bits, start + 7) {
        0x01u8
    } else {
        0u8
    })
}

/// The bytes whose bits are `bits`, extended with `false` to a whole number of bytes.
pub open spec fn packed_bytes(bits: Seq<bool>) -> Seq<u8> {
    Seq::new(packed_len(bits.len()), |k: int| bits_byte(bits, k * 8))
}

proof fn lemma_byte_of_flags(c0: bool, c1: bool, c2: bool, c3: bool, c4: bool, c5: bool, c6: bool, c7: bool, x: u8)
    requires
        x == (if c0 { 0x80u8 } else { 0u8 }) | (if c1 { 0x40u8 } else { 0u8 }) | (if c2 {
            0x20u8
        } else {
            0u8
        }) | (if c3 { 0x10u8 } else { 0u8 }) | (if c4 { 0x08u8 } else { 0u8 }) | (if c5 {
            0x04u8
        } else {
            0u8
        }) | (if c6 { 0x02u8 } else { 0u8 }) | (if c7 { 0x01u8 } else { 0u8 }),
    ensures
        ((x & (0x80u8 >> 0u8)) != 0) == c0,
        ((x & (0x80u8 >> 1u8)) != 0) == c1,
        ((x & (0x80u8 >> 2u8)) != 0) == c2,
        ((x & (0x80u8 >> 3u8)) != 0) == c3,
        ((x & (0x80u8 >> 4u8)) != 0) == c4,
        ((x & (0x80u8 >> 5u8)) != 0) == c5,
        ((x & (0x80u8 >> 6u8)) != 0) == c6,
        ((x & (0x80u8 >> 7u8)) != 0) == c7,
{
    assert(((x & (0x80u8 >> 0u8)) != 0) == c0 && ((x & (0x80u8 >> 1u8)) != 0) == c1 && ((x & (
    0x80u8 >> 2u8)) != 0) == c2 && ((x & (0x80u8 >> 3u8)) != 0) == c3 && ((x & (0x80u8 >> 4u8))
        != 0) == c4 && ((x & (0x80u8 >> 5u8)) != 0) == c5 && ((x & (0x80u8 >> 6u8)) != 0) == c6
        && ((x & (0x80u8 >> 7u8)) != 0) == c7) by (bit_vector)
        requires
            x == (if c0 { 0x80u8 } else { 0u8 }) | (if c1 { 0x40u8 } else { 0u8 }) | (if c2 {
                0x20u8
            } else {
                0u8
            }) | (if c3 { 0x10u8 } else { 0u8 }) | (if c4 { 0x08u8 } else { 0u8 }) | (if c5 {
                0x04u8
            } else {
                0u8
            }) | (if c6 { 0x02u8 } else { 0u8 }) | (if c7 { 0x01u8 } else { 0u8 }),
    ;
}

/// Bit `j` of the byte built from the flags at `start` is the flag at `start + j`.
proof fn lemma_bits_byte(bits: Seq<bool>, start: int, j: int)
    requires
        0 <= j < 8,
    ensures
        bit_of(bits_byte(bits, start), j) == bit_at(bits, start + j),
{
    lemma_byte_of_flags(
        bit_at(bits, start),
        bit_at(bits, start + 1),
        bit_at(bits, start + 2),
        bit_at(bits, start + 3),
        bit_at(bits, start + 4),
        bit_at(bits, start + 5),
        bit_at(bits, start + 6),
        bit_at(bits, start + 7),
        bits_byte(bits, start),
    );
}

/// The packed bytes of `bits` hold its flags, padded with `false`.
pub proof fn lemma_packed_bytes(bits: Seq<bool>)
    ensures
        packed_bytes(bits).len() == packed_len(bits.len()),
        unpacked_bits(packed_bytes(bits)) == padded_bits(bits, packed_len(bits.len()) * 8),
{
    let p = packed_bytes(bits);
    assert forall|i: int| 0 <= i < p.len() * 8 implies unpacked_bits(p)[i] == padded_bits(
        bits,
        packed_len(bits.len()) * 8,
    )[i] by {
        let k = i / 8;
        let j = i % 8;
        assert(0 <= k < p.len() && 0 <= j < 8 && k * 8 + j == i) by (nonlinear_arith)
            requires
                0 <= i < p.len() * 8,
                k == i / 8,
                j == i % 8,
        ;
        lemma_bits_byte(bits, k * 8, j);
    }
    assert(unpacked_bits(p) =~= padded_bits(bits, packed_len(bits.len()) * 8));
}

/// The largest frame length (without the length prefix) that is sent or accepted (8 MiB).
pub const MAX_FRAME_LEN: u32 = 8388608;

/// The frame that encoding a message appends, or `None` if the frame is too long.
/// A keep-alive is a frame of length zero: four zero bytes.
pub open spec fn encoded_frame(m: MessageView) -> Option<Seq<u8>> {
    let length = ((payload_bytes(m).len() + 1) as usize) as u32;
    if length > MAX_FRAME_LEN {
        None
    } else {
        match message_id(m) {
            None => Some(be_bytes(0)),
            Some(id) => Some(be_bytes(length) + seq![id] + payload_bytes(m)),
        }
    }
}

/// Whether a payload of `n` bytes with message id `t` can be read.
pub open spec fn payload_fits(t: u8, n: nat) -> bool {
    if t == 4 {
        n >= 4
    } else if t == 6 || t == 8 {
        n >= 12
    } else if t == 7 {
        n >= 8
    } else if t == 20 {
        n >= 1
    } else {
        true
    }
}

/// The message that payload `data` with id `t` denotes, if `t` is a known id.
pub open spec fn message_of(t: u8, data: Seq<u8>) -> Option<MessageView> {
    if t == 0 {
        Some(MessageView::Choke)
    } else if t == 1 {
        Some(MessageView::Unchoke)
    } else if t == 2 {
        Some(MessageView::Interested)
    } else if t == 3 {
        Some(MessageView::NotInterested)
    } else if t == 4 {
        Some(MessageView::Have(be_value(data, 0)))
    } else if t == 5 {
        Some(MessageView::Bitfield(unpacked_bits(data)))
    } else if t == 6 {
        Some(MessageView::Request(request_of_bytes(data)))
    } else if t == 7 {
        Some(
            MessageView::Piece(
                be_value(data, 0),
                be_value(data, 4),
                data.subrange(8, data.len() as int),
            ),
        )
    } else if t == 8 {
        Some(MessageView::Cancel(request_of_bytes(data)))
    } else if t == 20 {
        Some(MessageView::Extended(data[0], data.subrange(1, data.len() as int)))
    } else {
        None
    }
}

/// What decoding the buffered bytes gives.
pub ghost enum DecodeView {
    /// Not enough bytes yet; nothing is consumed.
    NeedMore,
    /// A frame of this many bytes is consumed; its message, if its id is known.
    Frame(nat, Option<MessageView>),
    /// The announced frame length is larger than the limit.
    TooLarge(u32),
}

/// The announced length of the frame at the start of `src`.
pub open spec fn frame_len(src: Seq<u8>) -> u32 {
    be_value(src, 0)
}

/// The payload of the complete frame at the start of `src`.
pub open spec fn frame_payload(src: Seq<u8>) -> Seq<u8> {
    if frame_len(src) > 1 {
        src.subrange(5, 4 + frame_len(src))
    } else {
        Seq::empty()
    }
}

/// Decoding the start of the buffered bytes `src`.
pub open spec fn decode_spec(src: Seq<u8>) -> DecodeView {
    if src.len() < 4 {
        DecodeView::NeedMore
    } else if frame_len(src) == 0 {
        DecodeView::Frame(4, Some(MessageView::KeepAlive))
    } else if src.len() < 5 {
        DecodeView::NeedMore
    } else if frame_len(src) > MAX_FRAME_LEN {
        DecodeView::TooLarge(frame_len(src))
    } else if ((src.len() as usize) as u32) < 4 + frame_len(src) {
        DecodeView::NeedMore
    } else {
        DecodeView::Frame(
            (4 + frame_len(src)) as nat,
            message_of(src[4], frame_payload(src)),
        )
    }
}

/// Whether the frame at the start of `src`, if complete and of a known id, has a payload
/// long enough to be read.
pub open spec fn frame_well_sized(src: Seq<u8>) -> bool {
    match decode_spec(src) {
        DecodeView::Frame(_, Some(_)) => frame_len(src) == 0 || payload_fits(
            src[4],
            frame_payload(src).len(),
        ),
        _ => true,
    }
}

/// The outcome of one decoding step: how many bytes to drop from the buffer and the
/// message read, if any. Nothing consumed and no message means more bytes are needed.
#[derive(Debug, Clone, PartialEq)]
pub struct DecodeStep {
    pub consumed: usize,
    pub message: Option<PeerMessage>,
}

/// Why a frame could not be written or read.
#[derive(Debug, Clone, Copy, PartialEq, Eq)]
pub enum FrameError {
    /// The frame length (without the length prefix) is above the limit.
    TooLarge(u32),
}

/// Whether an exec decoding result matches its specification.
pub open spec fn decode_matches(res: Result<DecodeStep, FrameError>, d: DecodeView) -> bool {
    match d {
        DecodeView::NeedMore => res == Ok::<DecodeStep, FrameError>(
            DecodeStep { consumed: 0, message: None },
        ),
        DecodeView::TooLarge(n) => res == Err::<DecodeStep, FrameError>(FrameError::TooLarge(n)),
        DecodeView::Frame(n, None) => res == Ok::<DecodeStep, FrameError>(
            DecodeStep { consumed: n as usize, message: None },
        ),
        DecodeView::Frame(n, Some(m)) => {
            &&& res is Ok
            &&& res->Ok_0.consumed == n
            &&& res->Ok_0.message is Some
            &&& res->Ok_0.message->Some_0@ == m
        },
    }
}

impl PeerMessage {
    /// The message type of the message; a keep-alive has none.
    pub fn get_msg_type(&self) -> (res: Option<MessageType>)
        ensures
            res is None <==> message_id(self@) is None,
            res matches Some(t) ==> message_id(self@) == Some(type_id(t)),
    {
        match self {
            PeerMessage::Choke(_) => Some(MessageType::Choke),
            PeerMessage::Unchoke(_) => Some(MessageType::Unchoke),
            PeerMessage::Interested(_) => Some(MessageType::Interested),
            PeerMessage::NotInterested(_) => Some(MessageType::NotInterested),
            PeerMessage::Have(_) => Some(MessageType::Have),
            PeerMessage::Bitfield(_) => Some(MessageType::Bitfield),
            PeerMessage::Request(_) => Some(MessageType::Request),
            PeerMessage::Piece(_) => Some(MessageType::Piece),
            PeerMessage::Cancel(_) => Some(MessageType::Cancel),
            PeerMessage::KeepAlive(_) => None,
            PeerMessage::Extended(_) => Some(MessageType::Extended),
        }
    }

    /// The payload bytes of the message.
    pub fn to_be_bytes(&self) -> (res: Vec<u8>)
        ensures
            res@ == payload_bytes(self@),
    {
        match self {
            PeerMessage::Choke(p) => p.to_be_bytes(),
            PeerMessage::Unchoke(p) => p.to_be_bytes(),
            PeerMessage::Interested(p) => p.to_be_bytes(),
            PeerMessage::NotInterested(p) => p.to_be_bytes(),
            PeerMessage::Have(p) => p.to_be_bytes(),
            PeerMessage::Bitfield(p) => {
                let bytes = p.to_be_bytes();
                proof {
                    lemma_packed_bytes_unique(p.pieces_available@, bytes@);
                }
                bytes
            },
            PeerMessage::Request(p) => p.to_be_bytes(),
            PeerMessage::Piece(p) => p.to_be_bytes(),
            PeerMessage::Cancel(p) => p.to_be_bytes(),
            PeerMessage::KeepAlive(p) => p.to_be_bytes(),
            PeerMessage::Extended(p) => p.to_be_bytes(),
        }
    }
}

/// Any bytes that hold the bits of `bits` (padded with `false`) are its packed bytes.
pub proof fn lemma_packed_bytes_unique(bits: Seq<bool>, b: Seq<u8>)
    requires
        b.len() == packed_len(bits.len()),
        unpacked_bits(b) == padded_bits(bits, packed_len(bits.len()) * 8),
    ensures
        packed_bytes(bits) == b,
{
    lemma_packed_bytes(bits);
    lemma_unpacked_injective(packed_bytes(bits), b);
}

/// The framing of peer messages.
pub struct MessageFramer;

impl MessageFramer {
    /// Reads the frame at the start of the buffered bytes `src`. When the frame is not
    /// complete yet nothing is consumed and no message is returned; a frame with an unknown
    /// id is consumed without a message.
    pub fn decode_frame(src: &[u8]) -> (res: Result<DecodeStep, FrameError>)
        requires
            frame_well_sized(src@),
        ensures
            decode_matches(res, decode_spec(src@)),
    {
        if src.len() < 4 {
            return Ok(DecodeStep { consumed: 0, message: None });
        }
        let data_length = read_be_u32(src, 0);
        if data_length == 0 {
            return Ok(DecodeStep { consumed: 4, message: Some(PeerMessage::KeepAlive(NoPayload)) });
        }
        if src.len() < 5 {
            return Ok(DecodeStep { consumed: 0, message: None });
        }
        if data_length > MAX_FRAME_LEN {
            return Err(FrameError::TooLarge(data_length));
        }
        if (src.len() as u32) < 4 + data_length {
            return Ok(DecodeStep { consumed: 0, message: None });
        }
        let end: usize = 4 + data_length as usize;
        proof {
            if src@.len() < 0x1_0000_0000 {
                assert((src@.len() as usize) as u32 == src@.len());
            }
            assert(end <= src@.len());
        }
        let data: &[u8] = if data_length > 1 {
            &src[5..end]
        } else {
            &src[0..0]
        };
        proof {
            assert(data@ == frame_payload(src@));
        }
        let msg_type = src[4];
        let message = match MessageType::from_repr(msg_type) {
            Some(MessageType::Choke) => PeerMessage::Choke(NoPayload),
            Some(MessageType::Unchoke) => PeerMessage::Unchoke(NoPayload),
            Some(MessageType::Interested) => PeerMessage::Interested(NoPayload),
            Some(MessageType::NotInterested) => PeerMessage::NotInterested(NoPayload),
            Some(MessageType::Have) => PeerMessage::Have(HavePayload::from_be_bytes(data)),
            Some(MessageType::Bitfield) => {
                proof {
                    assert(data@.len() * 8 <= usize::MAX);
                }
                PeerMessage::Bitfield(BitfieldPayload::from_be_bytes(data))
            },
            Some(MessageType::Request) => PeerMessage::Request(
                RequestPiecePayload::from_be_bytes(data),
            ),
            Some(MessageType::Piece) => PeerMessage::Piece(ResponsePiecePayload::from_be_bytes(data)),
            Some(MessageType::Cancel) => PeerMessage::Cancel(RequestPiecePayload::from_be_bytes(data)),
            Some(MessageType::Extended) => PeerMessage::Extended(
                BasicExtensionPayload::from_be_bytes(data),
            ),
            None => {
                return Ok(DecodeStep { consumed: end, message: None });
            },
        };
        proof {
            assert(message@ == message_of(msg_type, data@).unwrap());
        }
        Ok(DecodeStep { consumed: end, message: Some(message) })
    }

    /// Whether the frame at the start of `src` can be read: when the frame is complete and
    /// its id is known, its payload is long enough for that message type.
    pub fn is_frame_well_sized(src: &[u8]) -> (res: bool)
        ensures
            res == frame_well_sized(src@),
    {
        if src.len() < 5 {
            return true;
        }
        let data_length = read_be_u32(src, 0);
        if data_length == 0 || data_length > MAX_FRAME_LEN || (src.len() as u32) < 4
            + data_length {
            return true;
        }
        let n: u32 = if data_length > 1 {
            data_length - 1
        } else {
            0
        };
        let t = src[4];
        if t == 4 {
            n >= 4
        } else if t == 6 || t == 8 {
            n >= 12
        } else if t == 7 {
            n >= 8
        } else if t == 20 {
            n >= 1
        } else {
            true
        }
    }

    /// Appends the frame of `item` to `dst`: the big-endian length of id and payload, the id,
    /// then the payload. A keep-alive appends a length of zero. Fails, appending nothing, when the
    /// frame length is above the limit.
    pub fn encode_frame(item: &PeerMessage, dst: &mut Vec<u8>) -> (res: Result<(), FrameError>)
        requires
            payload_bytes(item@).len() < usize::MAX,
        ensures
            encoded_frame(item@) matches Some(frame) ==> res is Ok && final(dst)@ == old(dst)@
                + frame,
            encoded_frame(item@) is None ==> res == Err::<(), FrameError>(
                FrameError::TooLarge(((payload_bytes(item@).len() + 1) as usize) as u32),
            ) && final(dst)@ == old(dst)@,
    {
        let bytes = item.to_be_bytes();
        let length = bytes.len() + 1;
        if length as u32 > MAX_FRAME_LEN {
            return Err(FrameError::TooLarge(length as u32));
        }
        let msg_type = match item.get_msg_type() {
            Some(t) => t,
            None => {
                push_be_u32(dst, 0);
                return Ok(());
            },
        };
        push_be_u32(dst, length as u32);
        dst.push(msg_type.id());
        crate::wire::push_all(dst, bytes.as_slice());
        proof {
            assert(dst@ =~= old(dst)@ + (be_bytes(length as u32) + seq![type_id(msg_type)]
                + bytes@));
        }
        Ok(())
    }
}

/// The message a peer reads back from a frame: the message itself, except that a bitfield
/// comes back extended with `false` to a whole number of bytes.
pub open spec fn wire_view(m: MessageView) -> MessageView {
    match m {
        MessageView::Bitfield(bits) => MessageView::Bitfield(
            padded_bits(bits, packed_len(bits.len()) * 8),
        ),
        _ => m,
    }
}

/// Reading back the payload of a message with its id gives the message (a bitfield padded).
pub proof fn lemma_payload_roundtrip(m: MessageView)
    requires
        message_id(m) is Some,
    ensures
        message_of(message_id(m)->Some_0, payload_bytes(m)) == Some(wire_view(m)),
        payload_fits(message_id(m)->Some_0, payload_bytes(m).len()),
{
    match m {
        MessageView::Have(i) => {
            lemma_be_value_of_bytes(i);
        },
        MessageView::Bitfield(bits) => {
            lemma_packed_bytes(bits);
        },
        MessageView::Request(p) => {
            law_request_roundtrip(p);
        },
        MessageView::Cancel(p) => {
            law_request_roundtrip(p);
        },
        MessageView::Piece(index, begin, block) => {
            law_response_roundtrip(index, begin, block);
        },
        MessageView::Extended(id, data) => {
            assert((seq![id] + data).subrange(1, (seq![id] + data).len() as int) =~= data);
        },
        _ => {},
    }
}

/// A frame written for a message is read back as that message (a bitfield padded with
/// `false` to whole bytes), consuming exactly the frame, whatever bytes follow it. Holds as
/// long as the buffer is shorter than 2^32 bytes: the buffer length is compared after a
/// cast to `u32`.
pub proof fn law_frame_roundtrip(m: MessageView, rest: Seq<u8>)
    requires
        message_id(m) is Some,
        encoded_frame(m) is Some,
        encoded_frame(m)->Some_0.len() + rest.len() <= u32::MAX,
    ensures
        decode_spec(encoded_frame(m)->Some_0 + rest) == DecodeView::Frame(
            encoded_frame(m)->Some_0.len(),
            Some(wire_view(m)),
        ),
        frame_well_sized(encoded_frame(m)->Some_0 + rest),
{
    let f = encoded_frame(m)->Some_0;
    let p = payload_bytes(m);
    let id = message_id(m)->Some_0;
    let length = ((p.len() + 1) as usize) as u32;
    let src = f + rest;
    assert(f == be_bytes(length) + seq![id] + p);
    assert(length == p.len() + 1);
    lemma_be_value_of_bytes(length);
    assert(src.subrange(0, 4) =~= be_bytes(length));
    assert(frame_len(src) == be_value(src.subrange(0, 4), 0));
    assert(frame_len(src) == length);
    assert(src[4] == id);
    assert(frame_payload(src) =~= p);
    assert((src.len() as usize) as u32 == src.len());
    lemma_payload_roundtrip(m);
}

/// The bytes of a frame of length one.
proof fn lemma_length_one()
    ensures
        be_bytes(1) == seq![0u8, 0u8, 0u8, 1u8],
        be_value(seq![0u8, 0u8, 0u8, 1u8], 0) == 1u32,
{
    assert((1u32 >> 24u32) as u8 == 0u8) by (bit_vector);
    assert((1u32 >> 16u32) as u8 == 0u8) by (bit_vector);
    assert((1u32 >> 8u32) as u8 == 0u8) by (bit_vector);
    assert(be_bytes(1) =~= seq![0u8, 0u8, 0u8, 1u8]);
    lemma_be_value_of_bytes(1);
}

/// The ids of BEP 3 on the wire: choke 0, unchoke 1, interested 2, not interested 3, have 4,
/// bitfield 5, request 6, piece 7, cancel 8 and extended 20 (BEP 10). A message without
/// payload is the four-byte length 1 and its id, and every other message's id byte follows
/// its four-byte length.
pub proof fn law_message_ids(m: MessageView)
    ensures
        encoded_frame(MessageView::Choke) == Some(seq![0u8, 0u8, 0u8, 1u8, 0u8]),
        encoded_frame(MessageView::Unchoke) == Some(seq![0u8, 0u8, 0u8, 1u8, 1u8]),
        encoded_frame(MessageView::Interested) == Some(seq![0u8, 0u8, 0u8, 1u8, 2u8]),
        encoded_frame(MessageView::NotInterested) == Some(seq![0u8, 0u8, 0u8, 1u8, 3u8]),
        !(m is KeepAlive) ==> (encoded_frame(m) matches Some(f) ==> f.len() >= 5 && f[4] == match m {
            MessageView::Choke => 0u8,
            MessageView::Unchoke => 1u8,
            MessageView::Interested => 2u8,
            MessageView::NotInterested => 3u8,
            MessageView::Have(_) => 4u8,
            MessageView::Bitfield(_) => 5u8,
            MessageView::Request(_) => 6u8,
            MessageView::Piece(_, _, _) => 7u8,
            MessageView::Cancel(_) => 8u8,
            MessageView::Extended(_, _) => 20u8,
            MessageView::KeepAlive => 0u8,
        }),
{
    lemma_length_one();
    assert(seq![0u8, 0u8, 0u8, 1u8] + seq![0u8] + Seq::<u8>::empty() =~= seq![0u8, 0u8, 0u8, 1u8, 0u8]);
    assert(seq![0u8, 0u8, 0u8, 1u8] + seq![1u8] + Seq::<u8>::empty() =~= seq![0u8, 0u8, 0u8, 1u8, 1u8]);
    assert(seq![0u8, 0u8, 0u8, 1u8] + seq![2u8] + Seq::<u8>::empty() =~= seq![0u8, 0u8, 0u8, 1u8, 2u8]);
    assert(seq![0u8, 0u8, 0u8, 1u8] + seq![3u8] + Seq::<u8>::empty() =~= seq![0u8, 0u8, 0u8, 1u8, 3u8]);
}

/// A frame of length one (`0, 0, 0, 1`) followed by the id byte `t`, then any bytes.
pub open spec fn one_byte_frame(t: u8, rest: Seq<u8>) -> Seq<u8> {
    seq![0u8, 0u8, 0u8, 1u8, t] + rest
}

/// A frame of length one is read as the message whose BEP 3 id is its byte, whatever follows:
/// 0 choke, 1 unchoke, 2 interested, 3 not interested.
pub proof fn law_one_byte_frames(t: u8, rest: Seq<u8>)
    requires
        t <= 3,
        rest.len() + 5 <= u32::MAX,
    ensures
        decode_spec(one_byte_frame(t, rest)) == DecodeView::Frame(
            5,
            Some(
                if t == 0 {
                    MessageView::Choke
                } else if t == 1 {
                    MessageView::Unchoke
                } else if t == 2 {
                    MessageView::Interested
                } else {
                    MessageView::NotInterested
                },
            ),
        ),
{
    lemma_length_one();
    let src = one_byte_frame(t, rest);
    assert(src.subrange(0, 4) =~= seq![0u8, 0u8, 0u8, 1u8]);
    assert(src[0] == 0u8 && src[1] == 0u8 && src[2] == 0u8 && src[3] == 1u8);
    assert(frame_len(src) == be_value(seq![0u8, 0u8, 0u8, 1u8], 0));
    assert(src[4] == t);
    assert((src.len() as usize) as u32 == src.len());
}

} // verus!
