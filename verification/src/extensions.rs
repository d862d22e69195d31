//! The extension protocol (BEP 10): the extended message payload, the supported extensions,
//! and the decisions taken on extension messages.
use vstd::prelude::*;
use vstd::string::{StrSliceExecFns, StringExecFns};

use crate::messages::PeerMessage;

verus! {

/// The payload of an extended message: the extended message id and its data.
#[derive(Debug, Clone, PartialEq)]
pub struct BasicExtensionPayload {
    pub extension_id: u8,
    pub data: Vec<u8>,
}

impl BasicExtensionPayload {
    /// Reads an extended message: the first byte is the id, the rest is the data.
    pub fn from_be_bytes(data: &[u8]) -> (res: Self)
        requires
            data@.len() >= 1,
        ensures
            res.extension_id == data@[0],
            res.data@ == data@.subrange(1, data@.len() as int),
    {
        let extension_id = data[0];
        let data = crate::wire::copy_range(data, 1, data.len());
        Self { extension_id, data }
    }

    /// The id followed by the data.
    pub fn to_be_bytes(&self) -> (res: Vec<u8>)
        ensures
            res@ == seq![self.extension_id] + self.data@,
    {
        let mut bytes: Vec<u8> = Vec::new();
        bytes.push(self.extension_id);
        crate::wire::push_all(&mut bytes, self.data.as_slice());
        bytes
    }
}


/// The extensions this client knows.
#[derive(Debug, Clone, Copy, PartialEq, Eq, Structural, Hash)]
pub enum ExtensionType {
    /// The extended handshake itself (extended message id 0).
    Handshake,
    /// `ut_metadata` (BEP 9): fetching the info dictionary from peers.
    Metadata,
}

/// The name `ut_metadata`.
pub open spec fn ut_metadata_name() -> Seq<char> {
    seq!['u', 't', '_', 'm', 'e', 't', 'a', 'd', 'a', 't', 'a']
}

impl ExtensionType {
    /// The extension with the given name in an extended handshake: only `ut_metadata` is
    /// known (the handshake has no name).
    pub fn from_str(name: &str) -> (res: Option<ExtensionType>)
        ensures
            name@ == ut_metadata_name() ==> res == Some(ExtensionType::Metadata),
            name@ != ut_metadata_name() ==> res is None,
    {
        let expected: [char; 11] = ['u', 't', '_', 'm', 'e', 't', 'a', 'd', 'a', 't', 'a'];
        proof {
            assert(expected@ =~= ut_metadata_name());
        }
        if name.unicode_len() != 11 {
            return None;
        }
        let mut i: usize = 0;
        while i < 11
            invariant
                i <= 11,
                name@.len() == 11,
                expected@ == ut_metadata_name(),
                forall|k: int| 0 <= k < i ==> name@[k] == ut_metadata_name()[k],
            decreases 11 - i,
        {
            if name.get_char(i) != expected[i] {
                return None;
            }
            i = i + 1;
        }
        proof {
            assert(name@ =~= ut_metadata_name());
        }
        Some(ExtensionType::Metadata)
    }

    /// The extension's id in our extended handshake: 0 for the handshake, 1 for
    /// `ut_metadata`.
    pub fn id(&self) -> (res: u8)
        ensures
            res == (match *self {
                ExtensionType::Handshake => 0u8,
                ExtensionType::Metadata => 1u8,
            }),
    {
        match self {
            ExtensionType::Handshake => 0,
            ExtensionType::Metadata => 1,
        }
    }
}

/// The extensions our extended handshake announces, by name, with our id for each: only
/// `ut_metadata`, under id 1.
pub fn handshake_extensions() -> (res: Vec<(String, u8)>)
    ensures
        res@.len() == 1,
        res@[0].0@ == ut_metadata_name(),
        res@[0].1 == 1,
{
    let name = String::from_str("ut_metadata");
    proof {
        reveal_strlit("ut_metadata");
        assert(name@ =~= ut_metadata_name());
    }
    let mut m: Vec<(String, u8)> = Vec::new();
    m.push((name, ExtensionType::Metadata.id()));
    m
}

/// The extension that our extended message id `id` stands for: 0 is the handshake, and the
/// active extensions follow (`ut_metadata` only).
pub open spec fn active_extension(id: u8) -> Option<ExtensionType> {
    if id == 1 {
        Some(ExtensionType::Metadata)
    } else {
        None
    }
}

/// A message from an extension to the peer manager.
#[derive(Debug, Clone, PartialEq)]
pub enum ExtensionMessage {
    /// The peer can give metadata: a piece of it should be requested.
    NeedMetadataPiece,
    /// A piece of the metadata arrived.
    ReceivedMetadataPiece { piece_index: u32, data: Vec<u8> },
    /// The peer told the size of the metadata.
    GotMetadataLength(usize),
}

/// What a peer does after an extension handled a message.
#[derive(Debug, PartialEq)]
pub enum ExtensionAction {
    /// Send a message to the remote peer.
    SendPeer(PeerMessage),
    /// Send a message to the peer manager.
    SendPeerManager(ExtensionMessage),
    /// Several actions, in order.
    Multiple(Vec<ExtensionAction>),
    /// Nothing.
    Nothing,
}

/// The kind of a `ut_metadata` message.
#[derive(Debug, Clone, Copy, PartialEq, Eq)]
pub enum MetadataMsgType {
    Request,
    Data,
    Reject,
    Other,
}

/// The bencoded dictionary that starts a `ut_metadata` message.
#[derive(Debug, Clone, Copy, PartialEq, Eq)]
pub struct MetadataMsg {
    pub msg_type: MetadataMsgType,
    pub piece_index: u32,
    pub total_size: Option<u32>,
}

/// What a `ut_metadata` message makes the peer do, given its bytes and the dictionary read
/// from them (`None` when they do not start with one): when the dictionary gives a total
/// size that the message can hold, its last `total_size` bytes are a piece of metadata for
/// the peer manager.
pub open spec fn metadata_action(data: Seq<u8>, msg: Option<MetadataMsg>) -> Option<(u32, Seq<u8>)> {
    match msg {
        None => None,
        Some(m) => match m.total_size {
            None => None,
            Some(t) => if t <= data.len() {
                Some((m.piece_index, data.subrange(data.len() - t, data.len() as int)))
            } else {
                None
            },
        },
    }
}

/// The `ut_metadata` extension on the side of a peer.
#[derive(Debug, Clone, Copy, PartialEq, Eq)]
pub struct MetadataRequester;

impl MetadataRequester {
    pub fn new() -> (res: Self)
        ensures
            res == MetadataRequester,
    {
        MetadataRequester
    }

    /// Handles a `ut_metadata` message `data`, of which `msg` is the dictionary it starts
    /// with (`None` when it does not parse).
    pub fn handle_message(&self, data: &[u8], msg: Option<MetadataMsg>) -> (res: ExtensionAction)
        ensures
            metadata_action(data@, msg) is None ==> res == ExtensionAction::Nothing,
            metadata_action(data@, msg) matches Some((i, d)) ==> (res matches ExtensionAction::SendPeerManager(
                ExtensionMessage::ReceivedMetadataPiece { piece_index, data: out },
            ) && piece_index == i && out@ == d),
    {
        let m = match msg {
            Some(m) => m,
            None => return ExtensionAction::Nothing,
        };
        let total_size = match m.total_size {
            Some(t) => t,
            None => return ExtensionAction::Nothing,
        };
        if (total_size as usize) > data.len() {
            return ExtensionAction::Nothing;
        }
        let offset = data.len() - total_size as usize;
        let piece = crate::wire::copy_range(data, offset, data.len());
        ExtensionAction::SendPeerManager(
            ExtensionMessage::ReceivedMetadataPiece { piece_index: m.piece_index, data: piece },
        )
    }

    /// What the extension does once the peer's extended handshake arrived, given the
    /// metadata size it announced: tell the manager the size (when known) and ask for a
    /// metadata piece.
    pub fn on_handshake(&self, metadata_size: Option<usize>) -> (res: ExtensionAction)
        ensures
            metadata_size is None ==> res == ExtensionAction::SendPeerManager(
                ExtensionMessage::NeedMetadataPiece,
            ),
            metadata_size matches Some(length) ==> (res matches ExtensionAction::Multiple(v) && v@ == seq![
                ExtensionAction::SendPeerManager(ExtensionMessage::GotMetadataLength(length)),
                ExtensionAction::SendPeerManager(ExtensionMessage::NeedMetadataPiece),
            ]),
    {
        let length = match metadata_size {
            Some(length) => length,
            None => return ExtensionAction::SendPeerManager(ExtensionMessage::NeedMetadataPiece),
        };
        let mut requests: Vec<ExtensionAction> = Vec::new();
        requests.push(ExtensionAction::SendPeerManager(ExtensionMessage::GotMetadataLength(length)));
        requests.push(ExtensionAction::SendPeerManager(ExtensionMessage::NeedMetadataPiece));
        proof {
            assert(requests@ =~= seq![
                ExtensionAction::SendPeerManager(ExtensionMessage::GotMetadataLength(length)),
                ExtensionAction::SendPeerManager(ExtensionMessage::NeedMetadataPiece),
            ]);
        }
        ExtensionAction::Multiple(requests)
    }

    pub fn get_ext_type(&self) -> (res: ExtensionType)
        ensures
            res == ExtensionType::Metadata,
    {
        ExtensionType::Metadata
    }
}

} // verus!
