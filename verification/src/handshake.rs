//! The handshake that opens a connection between two peers (BEP 3), with the bit of the
//! reserved bytes that announces the extension protocol (BEP 10).
use vstd::prelude::*;

use crate::deps::{bincode_decode_handshake, bincode_encode_handshake};
use crate::torrent::InfoHash;
use crate::wire::bytes20_eq;

verus! {

/// The length of a handshake on the wire.
pub const HANDSHAKE_LEN: usize = 68;

/// The 19 bytes of the protocol name, "BitTorrent protocol".
pub open spec fn protocol_name() -> Seq<u8> {
    seq![66u8, 105, 116, 84, 111, 114, 114, 101, 110, 116, 32, 112, 114, 111, 116, 111, 99, 111, 108]
}

/// The handshake.
#[derive(Debug, Clone, Copy)]
pub struct Handshake {
    /// The length of the protocol name: 19.
    pub length: u8,
    /// The protocol name.
    pub protocol: [u8; 19],
    /// Reserved bytes, whose bits announce extensions.
    pub reserved: [u8; 8],
    pub info_hash: InfoHash,
    pub peer_id: [u8; 20],
}

/// The 68 bytes of a handshake: the length byte, the protocol name, the reserved bytes, the
/// info hash and the peer id, one after the other.
pub open spec fn handshake_bytes(h: Handshake) -> Seq<u8> {
    seq![h.length] + h.protocol@ + h.reserved@ + h.info_hash.0@ + h.peer_id@
}

/// Whether 68 bytes start as a handshake must: with 19 and the protocol name.
pub open spec fn is_handshake_start(bytes: Seq<u8>) -> bool {
    &&& bytes.len() == HANDSHAKE_LEN
    &&& bytes[0] == 19
    &&& bytes.subrange(1, 20) == protocol_name()
}

/// Why a handshake was refused.
#[derive(Debug, Clone, Copy, PartialEq, Eq)]
pub enum HandshakeError {
    /// The other peer answered for another torrent.
    InfoHashMismatch,
}

impl Handshake {
    /// Our handshake for the torrent `info_hash`, announcing the extension protocol: bit 20
    /// from the right of the reserved bytes (0x10 in the sixth byte).
    pub fn new(info_hash: InfoHash, peer_id: [u8; 20]) -> (res: Self)
        ensures
            res.length == 19,
            res.protocol@ == protocol_name(),
            res.reserved@ == seq![0u8, 0, 0, 0, 0, 0x10, 0, 0],
            res.info_hash == info_hash,
            res.peer_id == peer_id,
    {
        let mut reserved = [0u8; 8];
        reserved[5] = 0x10;
        let protocol: [u8; 19] = [66, 105, 116, 84, 111, 114, 114, 101, 110, 116, 32, 112, 114, 111, 116, 111, 99, 111, 108];
        let res = Self { length: 19, protocol, reserved, info_hash, peer_id };
        proof {
            assert(res.protocol@ =~= protocol_name());
            assert(res.reserved@ =~= seq![0u8, 0, 0, 0, 0, 0x10, 0, 0]);
        }
        res
    }

    /// Whether the other peer announces the extension protocol.
    pub fn has_extensions_enabled(&self) -> (res: bool)
        ensures
            res == (self.reserved@[5] & 0x10 == 0x10),
    {
        let extension_bit = self.reserved[5] & 0x10;
        extension_bit == 0x10
    }

    /// The handshake's bytes, as they go on the wire.
    pub fn to_bytes(&self) -> (res: [u8; 68])
        ensures
            res@ == handshake_bytes(*self),
    {
        bincode_encode_handshake(self.length, self.protocol, self.reserved, self.info_hash.0, self.peer_id)
    }

    /// Whether 68 received bytes start as a handshake must.
    pub fn is_valid(bytes: &[u8; 68]) -> (res: bool)
        ensures
            res == is_handshake_start(bytes@),
    {
        let protocol: [u8; 19] = [66, 105, 116, 84, 111, 114, 114, 101, 110, 116, 32, 112, 114, 111, 116, 111, 99, 111, 108];
        if bytes[0] != 19 {
            return false;
        }
        let mut i: usize = 0;
        while i < 19
            invariant
                i <= 19,
                protocol@ == protocol_name(),
                forall|k: int| 0 <= k < i ==> bytes@[1 + k] == protocol_name()[k],
            decreases 19 - i,
        {
            if bytes[i + 1] != protocol[i] {
                proof {
                    assert(bytes@.subrange(1, 20)[i as int] != protocol_name()[i as int]);
                }
                return false;
            }
            i = i + 1;
        }
        proof {
            assert(bytes@.subrange(1, 20) =~= protocol_name());
        }
        true
    }

    /// Reads a received handshake from its 68 bytes.
    pub fn from_bytes(bytes: &[u8; 68]) -> (res: Self)
        requires
            is_handshake_start(bytes@),
        ensures
            handshake_bytes(res) == bytes@,
            res.length == 19,
            res.protocol@ == protocol_name(),
    {
        let (length, protocol, reserved, info_hash, peer_id) = bincode_decode_handshake(bytes);
        let res = Handshake { length, protocol, reserved, info_hash: InfoHash(info_hash), peer_id };
        proof {
            assert(handshake_bytes(res) =~= bytes@);
        }
        res
    }

    /// Checks the handshake the other peer answered ours with: it must be for our torrent.
    pub fn check_reply(&self, received: Handshake) -> (res: Result<Handshake, HandshakeError>)
        ensures
            received.info_hash != self.info_hash ==> res == Err::<Handshake, HandshakeError>(
                HandshakeError::InfoHashMismatch,
            ),
            received.info_hash == self.info_hash ==> res == Ok::<Handshake, HandshakeError>(received),
    {
        if !bytes20_eq(&received.info_hash.0, &self.info_hash.0) {
            return Err(HandshakeError::InfoHashMismatch);
        }
        proof {
            assert(received.info_hash == self.info_hash);
        }
        Ok(received)
    }
}

/// Reading a handshake back from its bytes gives the handshake.
pub proof fn law_handshake_roundtrip(h: Handshake, r: Handshake)
    requires
        handshake_bytes(r) == handshake_bytes(h),
    ensures
        r == h,
{
    let a = handshake_bytes(h);
    let b = handshake_bytes(r);
    assert(a[0] == h.length && b[0] == r.length);
    assert(r.protocol@ =~= b.subrange(1, 20));
    assert(h.protocol@ =~= a.subrange(1, 20));
    assert(r.protocol =~= h.protocol);
    assert(r.reserved@ =~= b.subrange(20, 28));
    assert(h.reserved@ =~= a.subrange(20, 28));
    assert(r.reserved =~= h.reserved);
    assert(r.info_hash.0@ =~= b.subrange(28, 48));
    assert(h.info_hash.0@ =~= a.subrange(28, 48));
    assert(r.info_hash.0 =~= h.info_hash.0);
    assert(r.peer_id@ =~= b.subrange(48, 68));
    assert(h.peer_id@ =~= a.subrange(48, 68));
    assert(r.peer_id =~= h.peer_id);
}

/// The state of a connection to a peer.
#[derive(Debug, Clone, Copy, PartialEq, Eq)]
pub enum PeerState {
    /// Before anything happened.
    NotConnected,
    /// The TCP connection is established.
    Connected,
    /// The handshake succeeded.
    DataTransfer,
}

impl Default for PeerState {
    fn default() -> (res: Self)
        ensures
            res == PeerState::NotConnected,
    {
        PeerState::NotConnected
    }
}

} // verus!
