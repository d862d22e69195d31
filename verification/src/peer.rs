//! A connection to one remote peer as a state machine: the flags of both sides, the queue of
//! requests to send, the extensions the peer supports, and what the peer does on each message
//! from the remote peer or from its manager. Sending, receiving and timing are the caller's.
use vstd::prelude::*;

use crate::extensions::{
    active_extension, metadata_action, ut_metadata_name, BasicExtensionPayload, ExtensionAction,
    ExtensionMessage, ExtensionType, MetadataMsg, MetadataRequester,
};
use crate::handshake::Handshake;
use crate::messages::{MessageView, PeerMessage};
use crate::payloads::{
    BitfieldPayload, HavePayload, NoPayload, RequestPiecePayload, ResponsePiecePayload,
};
use crate::torrent::InfoHash;

verus! {

/// How many requests a peer takes at once unless its extended handshake says otherwise.
pub const DEFAULT_MAX_REQUESTS: u32 = 100;

/// The choking and interest flags of both sides of a connection.
#[derive(Debug, Clone, Copy, PartialEq, Eq)]
pub struct PeerState {
    /// The remote peer's id.
    pub peer_id: [u8; 20],
    pub am_choking: bool,
    pub am_interested: bool,
    pub peer_choking: bool,
    pub peer_interested: bool,
    /// How many requests the remote peer takes at once.
    pub max_req: u32,
}

/// The state at the start of a connection: both sides choke and neither is interested.
pub open spec fn initial_state(peer_id: [u8; 20]) -> PeerState {
    PeerState {
        peer_id,
        am_choking: true,
        am_interested: false,
        peer_choking: true,
        peer_interested: false,
        max_req: DEFAULT_MAX_REQUESTS,
    }
}

impl PeerState {
    /// The state at the start of a connection.
    pub fn new(peer_id: [u8; 20]) -> (res: Self)
        ensures
            res == initial_state(peer_id),
    {
        PeerState {
            peer_id,
            am_choking: true,
            am_interested: false,
            peer_choking: true,
            peer_interested: false,
            max_req: DEFAULT_MAX_REQUESTS,
        }
    }
}

/// Messages from a peer to its manager.
#[derive(Debug, Clone, PartialEq)]
pub enum ReqMessage {
    NeedBlockQueue,
    GotBlock(ResponsePiecePayload),
    NeedBlock(RequestPiecePayload),
    WhatDoWeHave,
    Extension(ExtensionMessage),
    PeerDisconnected(InfoHash),
    PeerHas(HavePayload),
    PeerBitfield(BitfieldPayload),
}

/// Messages from the manager to a peer.
#[derive(Debug, Clone, PartialEq)]
pub enum ResMessage {
    /// Start the download loop.
    StartDownload,
    NewBlockQueue(Vec<RequestPiecePayload>),
    Block(Option<ResponsePiecePayload>),
    WeHave(Option<BitfieldPayload>),
    FinishedPiece(u32),
    FinishedFile,
    /// Data for an extension message; the peer adds its own id for the extension.
    ExtensionData(ExtensionType, Vec<u8>),
    CancelDownload,
    PauseDownload,
}

/// What reaches a peer: a message of its manager, a message of the remote peer, no message
/// for a while, or the end of the connection.
#[derive(Debug, Clone, PartialEq)]
pub enum Msg {
    Manager(ResMessage),
    Data(PeerMessage),
    Timeout,
    CloseConnection,
}

/// An extended handshake as read from its bencoded dictionary.
#[derive(Debug, Clone, PartialEq)]
pub struct ExtendedHandshake {
    /// The extensions the peer supports, by name, with the ids it wants for them.
    pub m: Vec<(String, u8)>,
    /// The size of the metadata, when the peer has it.
    pub metadata_size: Option<usize>,
    /// How many requests the peer takes at once.
    pub reqq: Option<u32>,
}

/// What the data of an extended message reads as: an extended handshake and a
/// `ut_metadata` dictionary (`None` where it does not read as one).
#[derive(Debug, Clone, PartialEq)]
pub struct ParsedExtension {
    pub handshake: Option<ExtendedHandshake>,
    pub metadata: Option<MetadataMsg>,
}

/// What a peer does.
#[derive(Debug, Clone, PartialEq)]
pub enum PeerAction {
    /// Send a message to the remote peer.
    SendPeer(PeerMessage),
    /// Send a message to the manager.
    SendPeerManager(ReqMessage),
}

/// Why a peer stops.
#[derive(Debug, Clone, Copy, PartialEq, Eq)]
pub enum PeerStop {
    /// The download is over (finished or cancelled).
    Done,
    /// The remote peer closed the connection.
    Disconnected,
    /// The remote peer's extended handshake could not be read.
    InvalidExtendedHandshake,
}

/// The outcome of one message: the actions, in order, and whether the peer stops.
#[derive(Debug)]
pub struct Reaction {
    pub actions: Vec<PeerAction>,
    pub stop: Option<PeerStop>,
}

/// The requests to send and the number of requests sent and not answered yet.
#[derive(Debug)]
pub struct ReqQueue {
    pub to_send: Vec<PeerMessage>,
    pub have_sent: usize,
}

/// A message to the manager, with its byte strings and flags as sequences.
pub ghost enum ReqView {
    NeedBlockQueue,
    GotBlock(u32, u32, Seq<u8>),
    NeedBlock(RequestPiecePayload),
    WhatDoWeHave,
    NeedMetadataPiece,
    ReceivedMetadataPiece(u32, Seq<u8>),
    GotMetadataLength(usize),
    PeerDisconnected(InfoHash),
    PeerHas(u32),
    PeerBitfield(Seq<bool>),
}

impl View for ReqMessage {
    type V = ReqView;

    open spec fn view(&self) -> ReqView {
        match self {
            ReqMessage::NeedBlockQueue => ReqView::NeedBlockQueue,
            ReqMessage::GotBlock(p) => ReqView::GotBlock(p.index, p.begin, p.block@),
            ReqMessage::NeedBlock(p) => ReqView::NeedBlock(*p),
            ReqMessage::WhatDoWeHave => ReqView::WhatDoWeHave,
            ReqMessage::Extension(ExtensionMessage::NeedMetadataPiece) => ReqView::NeedMetadataPiece,
            ReqMessage::Extension(ExtensionMessage::ReceivedMetadataPiece { piece_index, data }) => {
                ReqView::ReceivedMetadataPiece(*piece_index, data@)
            },
            ReqMessage::Extension(ExtensionMessage::GotMetadataLength(l)) => ReqView::GotMetadataLength(*l),
            ReqMessage::PeerDisconnected(h) => ReqView::PeerDisconnected(*h),
            ReqMessage::PeerHas(p) => ReqView::PeerHas(p.piece_index),
            ReqMessage::PeerBitfield(p) => ReqView::PeerBitfield(p.pieces_available@),
        }
    }
}

/// An action, with the messages taken by their views.
pub ghost enum ActionView {
    SendPeer(MessageView),
    SendPeerManager(ReqView),
}

impl View for PeerAction {
    type V = ActionView;

    open spec fn view(&self) -> ActionView {
        match self {
            PeerAction::SendPeer(m) => ActionView::SendPeer(m@),
            PeerAction::SendPeerManager(m) => ActionView::SendPeerManager(m@),
        }
    }
}

/// The views of a list of actions.
pub open spec fn actions_view(actions: Seq<PeerAction>) -> Seq<ActionView> {
    Seq::new(actions.len(), |i: int| actions[i]@)
}

/// The views of a list of messages.
pub open spec fn messages_view(msgs: Seq<PeerMessage>) -> Seq<MessageView> {
    Seq::new(msgs.len(), |i: int| msgs[i]@)
}

/// The extension table with the entries for extension `t` taken out.
pub open spec fn table_remove_type(table: Seq<(u8, ExtensionType)>, t: ExtensionType) -> Seq<(u8, ExtensionType)>
    decreases table.len(),
{
    if table.len() == 0 {
        table
    } else {
        let rest = table_remove_type(table.drop_last(), t);
        if table.last().1 == t {
            rest
        } else {
            rest.push(table.last())
        }
    }
}

/// The position of `key` in the table, if it is there (the first one).
pub open spec fn table_position(table: Seq<(u8, ExtensionType)>, key: u8) -> Option<int>
    decreases table.len(),
{
    if table.len() == 0 {
        None
    } else if table[0].0 == key {
        Some(0)
    } else {
        match table_position(table.drop_first(), key) {
            Some(p) => Some(p + 1),
            None => None,
        }
    }
}

/// The table with `key` mapped to `t`: the entry of `key` changed where there is one,
/// else a new entry at the end.
pub open spec fn table_insert(table: Seq<(u8, ExtensionType)>, key: u8, t: ExtensionType) -> Seq<(u8, ExtensionType)> {
    match table_position(table, key) {
        Some(p) => table.update(p, (key, t)),
        None => table.push((key, t)),
    }
}

/// The id of the first entry of the table for extension `t`.
pub open spec fn table_find(table: Seq<(u8, ExtensionType)>, t: ExtensionType) -> Option<u8>
    decreases table.len(),
{
    if table.len() == 0 {
        None
    } else if table[0].1 == t {
        Some(table[0].0)
    } else {
        table_find(table.drop_first(), t)
    }
}

/// The names and ids of an extended handshake, names as characters.
pub open spec fn names_view(m: Seq<(String, u8)>) -> Seq<(Seq<char>, u8)> {
    Seq::new(m.len(), |i: int| (m[i].0@, m[i].1))
}

/// The extension table after the entries `m` of an extended handshake, in order (BEP 10):
/// an entry named `ut_metadata` with id 0 disables the metadata extension, taking its
/// entries out; with another id, it maps that id to the metadata extension. Entries with
/// other names change nothing.
pub open spec fn table_after(table: Seq<(u8, ExtensionType)>, m: Seq<(Seq<char>, u8)>) -> Seq<(u8, ExtensionType)>
    decreases m.len(),
{
    if m.len() == 0 {
        table
    } else {
        let prev = table_after(table, m.drop_last());
        let (name, id) = m.last();
        if name != ut_metadata_name() {
            prev
        } else if id == 0 {
            table_remove_type(prev, ExtensionType::Metadata)
        } else {
            table_insert(prev, id, ExtensionType::Metadata)
        }
    }
}

/// What the metadata extension asks of the manager once a handshake announced
/// `metadata_size`.
pub open spec fn on_handshake_view(metadata_size: Option<usize>) -> Seq<ActionView> {
    match metadata_size {
        Some(l) => seq![
            ActionView::SendPeerManager(ReqView::GotMetadataLength(l)),
            ActionView::SendPeerManager(ReqView::NeedMetadataPiece),
        ],
        None => seq![ActionView::SendPeerManager(ReqView::NeedMetadataPiece)],
    }
}

/// The actions of the extended handshake entries `m`: those of the metadata extension for
/// each entry named `ut_metadata` with an id other than 0.
pub open spec fn handshake_actions(m: Seq<(Seq<char>, u8)>, metadata_size: Option<usize>) -> Seq<ActionView>
    decreases m.len(),
{
    if m.len() == 0 {
        Seq::empty()
    } else {
        let prev = handshake_actions(m.drop_last(), metadata_size);
        if m.last().0 == ut_metadata_name() && m.last().1 != 0 {
            prev + on_handshake_view(metadata_size)
        } else {
            prev
        }
    }
}

/// Takes the entries for extension `t` out of the table.
pub fn remove_extension_type(table: &mut Vec<(u8, ExtensionType)>, t: ExtensionType)
    ensures
        final(table)@ == table_remove_type(old(table)@, t),
{
    let mut kept: Vec<(u8, ExtensionType)> = Vec::new();
    let mut i: usize = 0;
    while i < table.len()
        invariant
            i <= table@.len(),
            kept@ == table_remove_type(table@.subrange(0, i as int), t),
        decreases table@.len() - i,
    {
        assert(table@.subrange(0, i + 1).drop_last() =~= table@.subrange(0, i as int));
        let e = table[i];
        if e.1 != t {
            kept.push(e);
        }
        i = i + 1;
    }
    assert(table@.subrange(0, table@.len() as int) =~= table@);
    *table = kept;
}

/// A position that the table gives `key` holds `key`.
pub proof fn lemma_table_position(table: Seq<(u8, ExtensionType)>, key: u8)
    ensures
        table_position(table, key) matches Some(p) ==> 0 <= p < table.len() && table[p].0 == key,
    decreases table.len(),
{
    if table.len() > 0 && table[0].0 != key {
        lemma_table_position(table.drop_first(), key);
    }
}

/// The position of `key` in the table.
pub fn find_position(table: &Vec<(u8, ExtensionType)>, key: u8) -> (res: Option<usize>)
    ensures
        res is None <==> table_position(table@, key) is None,
        res matches Some(p) ==> table_position(table@, key) == Some(p as int) && p < table@.len(),
{
    assert(table@.subrange(0, table@.len() as int) =~= table@);
    let mut i: usize = 0;
    while i < table.len()
        invariant
            i <= table@.len(),
            forall|k: int| 0 <= k < i ==> table@[k].0 != key,
            table_position(table@, key) == match table_position(table@.subrange(i as int, table@.len() as int), key) {
                Some(p) => Some(p + i),
                None => None,
            },
        decreases table@.len() - i,
    {
        let ghost rest = table@.subrange(i as int, table@.len() as int);
        assert(rest.drop_first() =~= table@.subrange(i + 1, table@.len() as int));
        if table[i].0 == key {
            return Some(i);
        }
        i = i + 1;
    }
    None
}

/// Maps `key` to extension `t` in the table.
pub fn insert_extension(table: &mut Vec<(u8, ExtensionType)>, key: u8, t: ExtensionType)
    ensures
        final(table)@ == table_insert(old(table)@, key, t),
{
    proof {
        lemma_table_position(table@, key);
    }
    match find_position(table, key) {
        Some(p) => {
            assert(table_position(table@, key) == Some(p as int));
            table.set(p, (key, t));
        },
        None => {
            table.push((key, t));
        },
    }
}

/// The id the table gives extension `t`, if any.
pub fn find_extension(table: &Vec<(u8, ExtensionType)>, t: ExtensionType) -> (res: Option<u8>)
    ensures
        res == table_find(table@, t),
{
    assert(table@.subrange(0, table@.len() as int) =~= table@);
    let mut i: usize = 0;
    while i < table.len()
        invariant
            i <= table@.len(),
            table_find(table@, t) == table_find(table@.subrange(i as int, table@.len() as int), t),
        decreases table@.len() - i,
    {
        let ghost rest = table@.subrange(i as int, table@.len() as int);
        assert(rest.drop_first() =~= table@.subrange(i + 1, table@.len() as int));
        if table[i].1 == t {
            return Some(table[i].0);
        }
        i = i + 1;
    }
    None
}


/// The actions that an extension action stands for, one after the other.
pub open spec fn flatten_action(a: ExtensionAction) -> Seq<ActionView>
    decreases a,
{
    match a {
        ExtensionAction::SendPeer(m) => seq![ActionView::SendPeer(m@)],
        ExtensionAction::SendPeerManager(msg) => seq![
            ActionView::SendPeerManager(ReqMessage::Extension(msg)@),
        ],
        ExtensionAction::Multiple(v) => flatten_actions(v@),
        ExtensionAction::Nothing => Seq::empty(),
    }
}

/// The actions that a list of extension actions stands for.
pub open spec fn flatten_actions(s: Seq<ExtensionAction>) -> Seq<ActionView>
    decreases s,
{
    if s.len() == 0 {
        Seq::empty()
    } else {
        flatten_actions(s.drop_last()) + flatten_action(s.last())
    }
}

/// How many metadata pieces an extension action hands to the manager.
pub open spec fn received_count(a: ExtensionAction) -> nat
    decreases a,
{
    match a {
        ExtensionAction::SendPeerManager(ExtensionMessage::ReceivedMetadataPiece { .. }) => 1,
        ExtensionAction::Multiple(v) => received_counts(v@),
        _ => 0,
    }
}

/// How many metadata pieces a list of extension actions hands to the manager.
pub open spec fn received_counts(s: Seq<ExtensionAction>) -> nat
    decreases s,
{
    if s.len() == 0 {
        0
    } else {
        received_counts(s.drop_last()) + received_count(s.last())
    }
}

/// The metadata pieces handed over by a prefix are at most those of the whole list.
pub proof fn lemma_received_counts_prefix(s: Seq<ExtensionAction>, k: int)
    requires
        0 <= k <= s.len(),
    ensures
        received_counts(s.subrange(0, k)) <= received_counts(s),
    decreases s.len() - k,
{
    if k < s.len() {
        lemma_received_counts_prefix(s, k + 1);
        assert(s.subrange(0, k + 1).drop_last() =~= s.subrange(0, k));
    } else {
        assert(s.subrange(0, k) =~= s);
    }
}

/// The actions of a message and whether the peer stops, with the peer after it.
pub type Outcome = (PeerModel, Seq<ActionView>, Option<PeerStop>);

/// The peer with our interest set to `want`, and the message that tells the remote peer when
/// it changed.
pub open spec fn interest(m: PeerModel, want: bool) -> (PeerModel, Seq<ActionView>) {
    if m.state.am_interested != want {
        (
            PeerModel { state: PeerState { am_interested: want, ..m.state }, ..m },
            seq![ActionView::SendPeer(if want { MessageView::Interested } else { MessageView::NotInterested })],
        )
    } else {
        (m, Seq::empty())
    }
}

/// Asking the manager for requests: when none are queued and we are interested.
pub open spec fn request_queue(m: PeerModel) -> Seq<ActionView> {
    if m.to_send.len() == 0 && m.state.am_interested {
        seq![ActionView::SendPeerManager(ReqView::NeedBlockQueue)]
    } else {
        Seq::empty()
    }
}

/// What an extended message with id `id` and `data` does, `parsed` being what the data reads
/// as: nothing without the extension protocol; the extended handshake (id 0) updates the
/// table and the request limit, and lets the metadata extension ask the manager; a
/// `ut_metadata` message hands a metadata piece to the manager.
pub open spec fn extension_step(m: PeerModel, id: u8, data: Seq<u8>, parsed: ParsedExtension) -> Outcome {
    match m.extensions {
        None => (m, Seq::empty(), None),
        Some(table) => if id == 0 {
            match parsed.handshake {
                None => (m, Seq::empty(), Some(PeerStop::InvalidExtendedHandshake)),
                Some(h) => {
                    let state = match h.reqq {
                        Some(r) => PeerState { max_req: r, ..m.state },
                        None => m.state,
                    };
                    (
                        PeerModel {
                            state,
                            extensions: Some(table_after(table, names_view(h.m@))),
                            ..m
                        },
                        handshake_actions(names_view(h.m@), h.metadata_size),
                        None,
                    )
                },
            }
        } else if active_extension(id) is Some && table_find(table, ExtensionType::Metadata) is Some {
            match metadata_action(data, parsed.metadata) {
                Some((i, d)) => (
                    PeerModel { have_sent: (m.have_sent - 1) as nat, ..m },
                    seq![ActionView::SendPeerManager(ReqView::ReceivedMetadataPiece(i, d))],
                    None,
                ),
                None => (m, Seq::empty(), None),
            }
        } else {
            (m, Seq::empty(), None)
        },
    }
}

/// What one message does to a peer, before queued requests go out.
pub open spec fn react_spec(m: PeerModel, msg: Msg, parsed: ParsedExtension) -> Outcome {
    match msg {
        Msg::Manager(r) => match r {
            ResMessage::FinishedFile => if !m.state.peer_interested {
                (m, Seq::empty(), Some(PeerStop::Done))
            } else {
                (m, Seq::empty(), None)
            },
            ResMessage::FinishedPiece(i) => (m, seq![ActionView::SendPeer(MessageView::Have(i))], None),
            ResMessage::NewBlockQueue(reqs) => (
                PeerModel {
                    to_send: m.to_send + Seq::new(reqs@.len(), |i: int| MessageView::Request(reqs@[i])),
                    ..m
                },
                Seq::empty(),
                None,
            ),
            ResMessage::Block(b) => match b {
                Some(p) => (m, seq![ActionView::SendPeer(MessageView::Piece(p.index, p.begin, p.block@))], None),
                None => (m, Seq::empty(), None),
            },
            ResMessage::WeHave(b) => match b {
                Some(bf) => if forall|i: int| 0 <= i < bf.pieces_available@.len() ==> bf.pieces_available@[i] {
                    let (m1, a1) = interest(m, false);
                    (m1, a1, None)
                } else {
                    let (m1, a1) = interest(m, true);
                    (m1, a1 + seq![ActionView::SendPeer(MessageView::Bitfield(bf.pieces_available@))] + request_queue(m1), None)
                },
                None => {
                    let (m1, a1) = interest(m, true);
                    (m1, a1 + request_queue(m1), None)
                },
            },
            ResMessage::ExtensionData(t, data) => match m.extensions {
                Some(table) => match table_find(table, t) {
                    Some(id) => (
                        PeerModel { to_send: m.to_send.push(MessageView::Extended(id, data@)), ..m },
                        Seq::empty(),
                        None,
                    ),
                    None => (m, Seq::empty(), None),
                },
                None => (m, Seq::empty(), None),
            },
            ResMessage::StartDownload => (m, seq![ActionView::SendPeerManager(ReqView::WhatDoWeHave)], None),
            ResMessage::CancelDownload => {
                let (m1, a1) = interest(m, false);
                (m1, a1, Some(PeerStop::Done))
            },
            ResMessage::PauseDownload => {
                let (m1, a1) = interest(m, false);
                (m1, a1, None)
            },
        },
        Msg::Data(d) => match d {
            PeerMessage::Choke(_) => (PeerModel { state: PeerState { peer_choking: true, ..m.state }, ..m }, Seq::empty(), None),
            PeerMessage::Unchoke(_) => (PeerModel { state: PeerState { peer_choking: false, ..m.state }, ..m }, Seq::empty(), None),
            PeerMessage::Interested(_) => (
                PeerModel { state: PeerState { peer_interested: true, ..m.state }, ..m },
                seq![ActionView::SendPeer(MessageView::Unchoke)],
                None,
            ),
            PeerMessage::NotInterested(_) => (PeerModel { state: PeerState { peer_interested: false, ..m.state }, ..m }, Seq::empty(), None),
            PeerMessage::Have(p) => (m, seq![ActionView::SendPeerManager(ReqView::PeerHas(p.piece_index))], None),
            PeerMessage::Bitfield(p) => (
                m,
                seq![ActionView::SendPeerManager(ReqView::PeerBitfield(p.pieces_available@))] + request_queue(m),
                None,
            ),
            PeerMessage::Request(p) => (m, seq![ActionView::SendPeerManager(ReqView::NeedBlock(p))], None),
            PeerMessage::Piece(p) => (
                PeerModel { have_sent: (m.have_sent - 1) as nat, ..m },
                seq![ActionView::SendPeerManager(ReqView::GotBlock(p.index, p.begin, p.block@))],
                None,
            ),
            PeerMessage::Cancel(_) => (m, Seq::empty(), None),
            PeerMessage::KeepAlive(_) => (m, Seq::empty(), None),
            PeerMessage::Extended(p) => extension_step(m, p.extension_id, p.data@, parsed),
        },
        Msg::Timeout => (m, seq![ActionView::SendPeer(MessageView::KeepAlive)], None),
        Msg::CloseConnection => (m, Seq::empty(), Some(PeerStop::Disconnected)),
    }
}

/// Sending the queued requests: when none is unanswered, we are interested and the remote
/// peer does not choke us, every queued request goes out and the manager is asked for more.
pub open spec fn flush_spec(m: PeerModel) -> (PeerModel, Seq<ActionView>) {
    if m.have_sent == 0 && m.state.am_interested && !m.state.peer_choking {
        (
            PeerModel { to_send: Seq::empty(), have_sent: m.to_send.len(), ..m },
            Seq::new(m.to_send.len(), |i: int| ActionView::SendPeer(m.to_send[i]))
                + seq![ActionView::SendPeerManager(ReqView::NeedBlockQueue)],
        )
    } else {
        (m, Seq::empty())
    }
}

/// What one message does to a peer: its own effect, then, unless the peer stops, sending
/// the queued requests.
pub open spec fn handle_spec(m: PeerModel, msg: Msg, parsed: ParsedExtension) -> Outcome {
    let (m1, a1, stop) = react_spec(m, msg, parsed);
    if stop is Some {
        (m1, a1, stop)
    } else {
        let (m2, a2) = flush_spec(m1);
        (m2, a1 + a2, None)
    }
}

/// Whether a message can be handled: a cancel message is not, and a block or a metadata
/// piece must answer a request that was sent.
pub open spec fn can_handle_spec(m: PeerModel, msg: Msg, parsed: ParsedExtension) -> bool {
    match msg {
        Msg::Data(PeerMessage::Cancel(_)) => false,
        Msg::Data(PeerMessage::Piece(_)) => m.have_sent >= 1,
        Msg::Data(PeerMessage::Extended(p)) => {
            m.extensions is Some && p.extension_id != 0 && active_extension(p.extension_id) is Some
                && table_find(m.extensions->Some_0, ExtensionType::Metadata) is Some
                && metadata_action(p.data@, parsed.metadata) is Some ==> m.have_sent >= 1
        },
        _ => true,
    }
}

/// What the metadata extension answers a handshake with stands for the actions of
/// `on_handshake_view` and hands no metadata piece over.
proof fn lemma_on_handshake_flat(action: ExtensionAction, metadata_size: Option<usize>)
    requires
        metadata_size is None ==> action == ExtensionAction::SendPeerManager(
            ExtensionMessage::NeedMetadataPiece,
        ),
        metadata_size matches Some(length) ==> (action matches ExtensionAction::Multiple(v) && v@ == seq![
            ExtensionAction::SendPeerManager(ExtensionMessage::GotMetadataLength(length)),
            ExtensionAction::SendPeerManager(ExtensionMessage::NeedMetadataPiece),
        ]),
    ensures
        flatten_action(action) == on_handshake_view(metadata_size),
        received_count(action) == 0,
{
    match metadata_size {
        None => {},
        Some(length) => {
            let v = action->Multiple_0@;
            let a = ExtensionAction::SendPeerManager(ExtensionMessage::GotMetadataLength(length));
            let b = ExtensionAction::SendPeerManager(ExtensionMessage::NeedMetadataPiece);
            assert(v.drop_last() =~= seq![a]);
            assert(seq![a].drop_last() =~= Seq::<ExtensionAction>::empty());
            assert(seq![a].last() == a);
            assert(v.last() == b);
            assert(flatten_actions(Seq::<ExtensionAction>::empty()) =~= Seq::<ActionView>::empty());
            assert(received_counts(Seq::<ExtensionAction>::empty()) == 0);
            assert(flatten_actions(seq![a]) =~= flatten_action(a));
            assert(flatten_actions(v) =~= flatten_action(a) + flatten_action(b));
            assert(flatten_action(action) == flatten_actions(v));
            assert(flatten_action(action) =~= on_handshake_view(metadata_size));
            assert(received_count(a) == 0);
            assert(received_count(b) == 0);
            assert(received_counts(seq![a]) == 0);
            assert(received_counts(v) == 0);
        },
    }
}

/// Updates the extension table from the entries of an extended handshake, in order, and
/// returns what the extensions named there do in answer.
pub fn update_extensions_from_handshake(
    extensions: &mut Vec<(u8, ExtensionType)>,
    handshake: &ExtendedHandshake,
) -> (res: Vec<ExtensionAction>)
    ensures
        final(extensions)@ == table_after(old(extensions)@, names_view(handshake.m@)),
        flatten_actions(res@) == handshake_actions(names_view(handshake.m@), handshake.metadata_size),
        received_counts(res@) == 0,
{
    let ghost names = names_view(handshake.m@);
    let mut actions: Vec<ExtensionAction> = Vec::new();
    let mut i: usize = 0;
    proof {
        assert(names.subrange(0, 0) =~= Seq::<(Seq<char>, u8)>::empty());
    }
    while i < handshake.m.len()
        invariant
            names == names_view(handshake.m@),
            i <= handshake.m@.len(),
            extensions@ == table_after(old(extensions)@, names.subrange(0, i as int)),
            flatten_actions(actions@) == handshake_actions(names.subrange(0, i as int), handshake.metadata_size),
            received_counts(actions@) == 0,
        decreases handshake.m@.len() - i,
    {
        proof {
            assert(names.subrange(0, i + 1).drop_last() =~= names.subrange(0, i as int));
            assert(names.subrange(0, i + 1).last() == (handshake.m@[i as int].0@, handshake.m@[i as int].1));
        }
        let msg_id = handshake.m[i].1;
        match ExtensionType::from_str(handshake.m[i].0.as_str()) {
            Some(_) if msg_id == 0 => {
                remove_extension_type(extensions, ExtensionType::Metadata);
            },
            Some(_) => {
                let action = MetadataRequester::new().on_handshake(handshake.metadata_size);
                let ghost before = actions@;
                proof {
                    lemma_on_handshake_flat(action, handshake.metadata_size);
                }
                actions.push(action);
                proof {
                    assert(actions@.drop_last() =~= before);
                }
                insert_extension(extensions, msg_id, ExtensionType::Metadata);
            },
            None => {},
        }
        i = i + 1;
    }
    proof {
        assert(names.subrange(0, names.len() as int) =~= names);
    }
    actions
}

/// A peer: the flags of both sides, the request queue and the extension table (`None` when
/// the remote peer does not speak the extension protocol).
#[derive(Debug)]
pub struct Peer {
    pub state: PeerState,
    pub queue: ReqQueue,
    pub extensions: Option<Vec<(u8, ExtensionType)>>,
}

/// A peer with its vectors as sequences.
pub ghost struct PeerModel {
    pub state: PeerState,
    pub to_send: Seq<MessageView>,
    pub have_sent: nat,
    pub extensions: Option<Seq<(u8, ExtensionType)>>,
}

impl View for Peer {
    type V = PeerModel;

    open spec fn view(&self) -> PeerModel {
        PeerModel {
            state: self.state,
            to_send: messages_view(self.queue.to_send@),
            have_sent: self.queue.have_sent as nat,
            extensions: match self.extensions {
                Some(t) => Some(t@),
                None => None,
            },
        }
    }
}

impl Peer {
    /// The peer after a handshake: nothing queued, and an empty extension table when the
    /// remote peer announced the extension protocol.
    pub fn new_from_handshake(handshake_recv: &Handshake) -> (res: Self)
        ensures
            res.state == initial_state(handshake_recv.peer_id),
            res.queue.to_send@.len() == 0,
            res.queue.have_sent == 0,
            (handshake_recv.reserved@[5] & 0x10 == 0x10) ==> (res.extensions matches Some(t) && t@.len() == 0),
            !(handshake_recv.reserved@[5] & 0x10 == 0x10) ==> res.extensions is None,
    {
        let state = PeerState::new(handshake_recv.peer_id);
        let extensions = if handshake_recv.has_extensions_enabled() {
            Some(Vec::new())
        } else {
            None
        };
        Peer { state, queue: ReqQueue { to_send: Vec::new(), have_sent: 0 }, extensions }
    }

    /// The remote peer's id.
    pub fn get_id(&self) -> (res: [u8; 20])
        ensures
            res == self.state.peer_id,
    {
        self.state.peer_id
    }

    /// Sets our interest, telling the remote peer when it changes.
    pub fn set_interested(&mut self, interested: bool, out: &mut Vec<PeerAction>)
        ensures
            final(self)@ == interest(old(self)@, interested).0,
            actions_view(final(out)@) == actions_view(old(out)@) + interest(old(self)@, interested).1,
    {
        if self.state.am_interested != interested {
            self.state.am_interested = interested;
            let msg = if interested {
                PeerMessage::Interested(NoPayload)
            } else {
                PeerMessage::NotInterested(NoPayload)
            };
            out.push(PeerAction::SendPeer(msg));
        }
        proof {
            assert(actions_view(out@) =~= actions_view(old(out)@) + interest(old(self)@, interested).1);
        }
    }

    /// Asks the manager for requests when none are queued and we are interested.
    pub fn request_block_queue(&self, out: &mut Vec<PeerAction>)
        ensures
            actions_view(final(out)@) == actions_view(old(out)@) + request_queue(self@),
    {
        if self.queue.to_send.len() == 0 && self.state.am_interested {
            out.push(PeerAction::SendPeerManager(ReqMessage::NeedBlockQueue));
        }
        proof {
            assert(actions_view(out@) =~= actions_view(old(out)@) + request_queue(self@));
        }
    }

    /// Carries out extension actions in order.
    pub fn handle_actions(&mut self, actions: Vec<ExtensionAction>, out: &mut Vec<PeerAction>)
        requires
            old(self).queue.have_sent >= received_counts(actions@),
        ensures
            actions_view(final(out)@) == actions_view(old(out)@) + flatten_actions(actions@),
            final(self).queue.have_sent == old(self).queue.have_sent - received_counts(actions@),
            final(self).queue.to_send@ == old(self).queue.to_send@,
            final(self).state == old(self).state,
            final(self).extensions == old(self).extensions,
    {
        let ghost all = actions@;
        let mut rest = actions;
        let mut i: usize = 0;
        let n = rest.len();
        proof {
            assert(all.subrange(0, 0 as int) =~= Seq::<ExtensionAction>::empty());
            assert(all.subrange(0, all.len() as int) =~= all);
            lemma_received_counts_prefix(all, 0);
        }
        while i < n
            invariant
                rest@ == all.subrange(i as int, n as int),
                n == all.len(),
                i <= n,
                received_counts(all) <= old(self).queue.have_sent,
                received_counts(all.subrange(0, i as int)) <= received_counts(all),
                self.queue.have_sent == old(self).queue.have_sent - received_counts(all.subrange(0, i as int)),
                actions_view(out@) == actions_view(old(out)@) + flatten_actions(all.subrange(0, i as int)),
                self.queue.to_send@ == old(self).queue.to_send@,
                self.state == old(self).state,
                self.extensions == old(self).extensions,
            decreases n - i,
        {
            let a = rest.remove(0);
            proof {
                assert(a == all[i as int]);
                assert(all.subrange(0, i + 1).drop_last() =~= all.subrange(0, i as int));
                assert(all.subrange(0, i + 1).last() == a);
                lemma_received_counts_prefix(all, i + 1);
            }
            self.handle_action(a, out);
            proof {
                assert(rest@ =~= all.subrange(i + 1, n as int));
            }
            i = i + 1;
        }
    }

    /// Handles an extended message; `parsed` is what its data reads as. Returns why the peer
    /// stops, if it does.
    pub fn on_extension_data(
        &mut self,
        payload: BasicExtensionPayload,
        parsed: &ParsedExtension,
        out: &mut Vec<PeerAction>,
    ) -> (res: Option<PeerStop>)
        requires
            old(self).extensions is Some && payload.extension_id != 0 && active_extension(payload.extension_id) is Some
                && table_find(old(self).extensions->Some_0@, ExtensionType::Metadata) is Some
                && metadata_action(payload.data@, parsed.metadata) is Some ==> old(self).queue.have_sent >= 1,
        ensures
            (final(self)@, actions_view(final(out)@).subrange(
                actions_view(old(out)@).len() as int,
                actions_view(final(out)@).len() as int,
            ), res) == extension_step(old(self)@, payload.extension_id, payload.data@, *parsed),
            actions_view(final(out)@).subrange(0, actions_view(old(out)@).len() as int) == actions_view(old(out)@),
    {
        let ghost m = self@;
        let ghost out0 = actions_view(out@);
        if self.extensions.is_none() {
            proof {
                assert(actions_view(out@).subrange(out0.len() as int, actions_view(out@).len() as int) =~= Seq::<ActionView>::empty());
                assert(actions_view(out@).subrange(0, out0.len() as int) =~= out0);
            }
            return None;
        }
        if payload.extension_id == 0 {
            match &parsed.handshake {
                None => {
                    proof {
                        assert(actions_view(out@).subrange(out0.len() as int, actions_view(out@).len() as int) =~= Seq::<ActionView>::empty());
                        assert(actions_view(out@).subrange(0, out0.len() as int) =~= out0);
                    }
                    return Some(PeerStop::InvalidExtendedHandshake);
                },
                Some(h) => {
                    match h.reqq {
                        Some(r) => {
                            self.state.max_req = r;
                        },
                        None => {},
                    }
                    let mut actions: Vec<ExtensionAction> = Vec::new();
                    match &mut self.extensions {
                        Some(table) => {
                            actions = update_extensions_from_handshake(table, h);
                        },
                        None => {},
                    }
                    self.handle_actions(actions, out);
                    proof {
                        assert(actions_view(out@) =~= out0 + handshake_actions(names_view(h.m@), h.metadata_size));
                        assert(actions_view(out@).subrange(out0.len() as int, actions_view(out@).len() as int) =~= handshake_actions(names_view(h.m@), h.metadata_size));
                        assert(actions_view(out@).subrange(0, out0.len() as int) =~= out0);
                    }
                    return None;
                },
            }
        }
        let known = match &self.extensions {
            Some(table) => payload.extension_id == 1 && find_extension(table, ExtensionType::Metadata).is_some(),
            None => false,
        };
        if known {
            let action = MetadataRequester::new().handle_message(payload.data.as_slice(), parsed.metadata);
            proof {
                match metadata_action(payload.data@, parsed.metadata) {
                    Some((i, d)) => {
                        assert(received_count(action) == 1);
                    },
                    None => {
                        assert(received_count(action) == 0);
                    },
                }
            }
            self.handle_action(action, out);
            proof {
                assert(actions_view(out@).subrange(0, out0.len() as int) =~= out0);
                let tail = actions_view(out@).subrange(out0.len() as int, actions_view(out@).len() as int);
                assert(tail =~= flatten_action(action));
                match metadata_action(payload.data@, parsed.metadata) {
                    Some((i, d)) => {
                        assert(flatten_action(action) =~= seq![ActionView::SendPeerManager(ReqView::ReceivedMetadataPiece(i, d))]);
                    },
                    None => {
                        assert(flatten_action(action) =~= Seq::<ActionView>::empty());
                    },
                }
            }
            return None;
        }
        proof {
            assert(actions_view(out@).subrange(out0.len() as int, actions_view(out@).len() as int) =~= Seq::<ActionView>::empty());
            assert(actions_view(out@).subrange(0, out0.len() as int) =~= out0);
        }
        None
    }

    /// What one message does, before queued requests go out; `parsed` is what the data of
    /// an extended message reads as (it matters for nothing else).
    pub fn react(&mut self, msg: Msg, parsed: &ParsedExtension) -> (res: Reaction)
        requires
            can_handle_spec(old(self)@, msg, *parsed),
        ensures
            (final(self)@, actions_view(res.actions@), res.stop) == react_spec(old(self)@, msg, *parsed),
    {
        let ghost m = self@;
        let mut out: Vec<PeerAction> = Vec::new();
        let mut stop: Option<PeerStop> = None;
        match msg {
            Msg::Manager(r) => match r {
                ResMessage::FinishedFile => {
                    if !self.state.peer_interested {
                        stop = Some(PeerStop::Done);
                    }
                },
                ResMessage::FinishedPiece(piece_index) => {
                    out.push(PeerAction::SendPeer(PeerMessage::Have(HavePayload { piece_index })));
                },
                ResMessage::NewBlockQueue(reqs) => {
                    let ghost ts0 = self.queue.to_send@;
                    let mut i: usize = 0;
                    while i < reqs.len()
                        invariant
                            i <= reqs@.len(),
                            self.state == m.state,
                            self.extensions == old(self).extensions,
                            self.queue.have_sent == old(self).queue.have_sent,
                            messages_view(self.queue.to_send@) == m.to_send + Seq::new(
                                i as nat,
                                |k: int| MessageView::Request(reqs@[k]),
                            ),
                        decreases reqs@.len() - i,
                    {
                        let ghost before = self.queue.to_send@;
                        let r = reqs[i];
                        self.queue.to_send.push(PeerMessage::Request(r));
                        proof {
                            assert(self.queue.to_send@ == before.push(PeerMessage::Request(r)));
                            assert(messages_view(self.queue.to_send@) =~= messages_view(before).push(
                                MessageView::Request(reqs@[i as int]),
                            ));
                            assert(messages_view(self.queue.to_send@) =~= m.to_send + Seq::new(
                                (i + 1) as nat,
                                |k: int| MessageView::Request(reqs@[k]),
                            ));
                        }
                        i = i + 1;
                    }
                },
                ResMessage::Block(b) => {
                    match b {
                        Some(payload) => {
                            out.push(PeerAction::SendPeer(PeerMessage::Piece(payload)));
                        },
                        None => {},
                    }
                },
                ResMessage::WeHave(b) => {
                    match b {
                        Some(bitfield) => {
                            if bitfield.is_finished() {
                                self.set_interested(false, &mut out);
                            } else {
                                self.set_interested(true, &mut out);
                                out.push(PeerAction::SendPeer(PeerMessage::Bitfield(bitfield)));
                                if self.queue.to_send.len() == 0 {
                                    self.request_block_queue(&mut out);
                                }
                            }
                        },
                        None => {
                            self.set_interested(true, &mut out);
                            self.request_block_queue(&mut out);
                        },
                    }
                },
                ResMessage::ExtensionData(ext_type, data) => {
                    let id = match &self.extensions {
                        Some(table) => find_extension(table, ext_type),
                        None => None,
                    };
                    match id {
                        Some(extension_id) => {
                            self.queue.to_send.push(
                                PeerMessage::Extended(BasicExtensionPayload { extension_id, data }),
                            );
                            proof {
                                assert(messages_view(self.queue.to_send@) =~= m.to_send.push(
                                    MessageView::Extended(extension_id, data@),
                                ));
                            }
                        },
                        None => {},
                    }
                },
                ResMessage::StartDownload => {
                    out.push(PeerAction::SendPeerManager(ReqMessage::WhatDoWeHave));
                },
                ResMessage::CancelDownload => {
                    self.set_interested(false, &mut out);
                    stop = Some(PeerStop::Done);
                },
                ResMessage::PauseDownload => {
                    self.set_interested(false, &mut out);
                },
            },
            Msg::Data(d) => match d {
                PeerMessage::Choke(_) => {
                    self.state.peer_choking = true;
                },
                PeerMessage::Unchoke(_) => {
                    self.state.peer_choking = false;
                },
                PeerMessage::Interested(_) => {
                    self.state.peer_interested = true;
                    out.push(PeerAction::SendPeer(PeerMessage::Unchoke(NoPayload)));
                },
                PeerMessage::NotInterested(_) => {
                    self.state.peer_interested = false;
                },
                PeerMessage::Have(have_payload) => {
                    out.push(PeerAction::SendPeerManager(ReqMessage::PeerHas(have_payload)));
                },
                PeerMessage::Bitfield(bitfield_payload) => {
                    out.push(PeerAction::SendPeerManager(ReqMessage::PeerBitfield(bitfield_payload)));
                    self.request_block_queue(&mut out);
                },
                PeerMessage::Request(request_piece_payload) => {
                    out.push(PeerAction::SendPeerManager(ReqMessage::NeedBlock(request_piece_payload)));
                },
                PeerMessage::Piece(response_piece_payload) => {
                    self.queue.have_sent = self.queue.have_sent - 1;
                    out.push(PeerAction::SendPeerManager(ReqMessage::GotBlock(response_piece_payload)));
                },
                PeerMessage::Cancel(_) => {},
                PeerMessage::KeepAlive(_) => {},
                PeerMessage::Extended(extension_payload) => {
                    stop = self.on_extension_data(extension_payload, parsed, &mut out);
                    proof {
                        assert(actions_view(out@).subrange(0, 0) =~= Seq::<ActionView>::empty());
                        assert(actions_view(out@).subrange(0, actions_view(out@).len() as int) =~= actions_view(out@));
                    }
                },
            },
            Msg::Timeout => {
                out.push(PeerAction::SendPeer(PeerMessage::KeepAlive(NoPayload)));
            },
            Msg::CloseConnection => {
                stop = Some(PeerStop::Disconnected);
            },
        }
        proof {
            let e = react_spec(m, msg, *parsed);
            assert(actions_view(out@) =~= e.1);
            assert(self@.to_send =~= e.0.to_send);
        }
        Reaction { actions: out, stop }
    }

    /// Sends the queued requests when none is unanswered, we are interested and the remote
    /// peer does not choke us, and then asks the manager for more.
    pub fn flush_queue(&mut self) -> (res: Vec<PeerAction>)
        ensures
            (final(self)@, actions_view(res@)) == flush_spec(old(self)@),
    {
        let ghost m = self@;
        let mut out: Vec<PeerAction> = Vec::new();
        if self.queue.have_sent == 0 && self.state.am_interested && !self.state.peer_choking {
            let mut queue = Vec::new();
            std::mem::swap(&mut queue, &mut self.queue.to_send);
            let ghost all = queue@;
            let n = queue.len();
            self.queue.have_sent = n;
            let mut i: usize = 0;
            while i < n
                invariant
                    n == all.len(),
                    i <= n,
                    queue@ == all.subrange(i as int, n as int),
                    messages_view(all) == m.to_send,
                    actions_view(out@) == Seq::new(i as nat, |k: int| ActionView::SendPeer(m.to_send[k])),
                decreases n - i,
            {
                let msg = queue.remove(0);
                proof {
                    assert(msg == all[i as int]);
                    assert(messages_view(all)[i as int] == msg@);
                    assert(m.to_send[i as int] == msg@);
                }
                let ghost before = out@;
                let ghost mv = msg@;
                out.push(PeerAction::SendPeer(msg));
                proof {
                    assert(actions_view(out@) =~= actions_view(before).push(ActionView::SendPeer(mv)));
                    assert(queue@ =~= all.subrange(i + 1, n as int));
                    assert(actions_view(out@) =~= Seq::new((i + 1) as nat, |k: int| ActionView::SendPeer(m.to_send[k])));
                }
                i = i + 1;
            }
            self.request_block_queue(&mut out);
            proof {
                assert(self@.to_send =~= Seq::<MessageView>::empty());
                assert(actions_view(out@) =~= flush_spec(m).1);
            }
        } else {
            proof {
                assert(actions_view(out@) =~= Seq::<ActionView>::empty());
            }
        }
        out
    }

    /// What one message does to the peer: its own effect, then, unless the peer stops,
    /// sending the queued requests.
    pub fn handle_message(&mut self, msg: Msg, parsed: &ParsedExtension) -> (res: Reaction)
        requires
            can_handle_spec(old(self)@, msg, *parsed),
        ensures
            (final(self)@, actions_view(res.actions@), res.stop) == handle_spec(old(self)@, msg, *parsed),
    {
        let mut reaction = self.react(msg, parsed);
        if reaction.stop.is_none() {
            let mut more = self.flush_queue();
            let ghost a1 = reaction.actions@;
            let ghost a2 = more@;
            reaction.actions.append(&mut more);
            proof {
                assert(actions_view(reaction.actions@) =~= actions_view(a1) + actions_view(a2));
            }
        }
        reaction
    }

    /// Whether a message can be handled: a cancel message is not, and a block or a metadata
    /// piece must answer a request that was sent.
    pub fn can_handle(&self, msg: &Msg, parsed: &ParsedExtension) -> (res: bool)
        ensures
            res == can_handle_spec(self@, *msg, *parsed),
    {
        match msg {
            Msg::Data(PeerMessage::Cancel(_)) => false,
            Msg::Data(PeerMessage::Piece(_)) => self.queue.have_sent >= 1,
            Msg::Data(PeerMessage::Extended(p)) => {
                let metadata_piece = match &self.extensions {
                    Some(table) => p.extension_id == 1 && find_extension(table, ExtensionType::Metadata).is_some()
                        && match parsed.metadata {
                        Some(m) => match m.total_size {
                            Some(t) => (t as usize) <= p.data.len(),
                            None => false,
                        },
                        None => false,
                    },
                    None => false,
                };
                !metadata_piece || self.queue.have_sent >= 1
            },
            _ => true,
        }
    }

    /// What the peer does when its loop starts: it stops choking, and it sends its extended
    /// handshake (the bencoded `handshake_data`) when the remote peer speaks the extension
    /// protocol.
    pub fn start(&mut self, handshake_data: Vec<u8>) -> (res: Vec<PeerAction>)
        ensures
            final(self)@ == (PeerModel { state: PeerState { am_choking: false, ..old(self)@.state }, ..old(self)@ }),
            old(self).extensions is Some ==> actions_view(res@) == seq![
                ActionView::SendPeer(MessageView::Extended(0, handshake_data@)),
            ],
            old(self).extensions is None ==> res@.len() == 0,
    {
        self.state.am_choking = false;
        let mut out: Vec<PeerAction> = Vec::new();
        if self.extensions.is_some() {
            out.push(PeerAction::SendPeer(
                PeerMessage::Extended(BasicExtensionPayload { extension_id: 0, data: handshake_data }),
            ));
            proof {
                assert(actions_view(out@) =~= seq![
                    ActionView::SendPeer(MessageView::Extended(0, handshake_data@)),
                ]);
            }
        }
        out
    }

    /// Carries out an extension action: appends what it stands for to `out`, and counts a
    /// metadata piece handed to the manager as an answered request.
    pub fn handle_action(&mut self, action: ExtensionAction, out: &mut Vec<PeerAction>)
        requires
            old(self).queue.have_sent >= received_count(action),
        ensures
            actions_view(final(out)@) == actions_view(old(out)@) + flatten_action(action),
            final(self).queue.have_sent == old(self).queue.have_sent - received_count(action),
            final(self).queue.to_send@ == old(self).queue.to_send@,
            final(self).state == old(self).state,
            final(self).extensions == old(self).extensions,
        decreases action,
    {
        match action {
            ExtensionAction::SendPeer(peer_message) => {
                out.push(PeerAction::SendPeer(peer_message));
                proof {
                    assert(actions_view(out@) =~= actions_view(old(out)@) + flatten_action(action));
                }
            },
            ExtensionAction::SendPeerManager(msg) => {
                if let ExtensionMessage::ReceivedMetadataPiece { .. } = msg {
                    self.queue.have_sent = self.queue.have_sent - 1;
                }
                out.push(PeerAction::SendPeerManager(ReqMessage::Extension(msg)));
                proof {
                    assert(actions_view(out@) =~= actions_view(old(out)@) + flatten_action(action));
                }
            },
            ExtensionAction::Nothing => {
                proof {
                    assert(actions_view(out@) =~= actions_view(old(out)@) + flatten_action(action));
                }
            },
            ExtensionAction::Multiple(actions) => {
                let ghost all = actions@;
                let mut rest = actions;
                let mut i: usize = 0;
                let n = rest.len();
                proof {
                    assert(all.subrange(0, 0) =~= Seq::<ExtensionAction>::empty());
                    assert(all.subrange(0, 0 as int) =~= Seq::<ExtensionAction>::empty());
                    assert(all.subrange(0, all.len() as int) =~= all);
                    lemma_received_counts_prefix(all, 0);
                }
                while i < n
                    invariant
                        action == ExtensionAction::Multiple(actions),
                        all == actions@,
                        rest@ == all.subrange(i as int, n as int),
                        n == all.len(),
                        i <= n,
                        received_counts(all) <= old(self).queue.have_sent,
                        received_counts(all.subrange(0, i as int)) <= received_counts(all),
                        self.queue.have_sent == old(self).queue.have_sent - received_counts(
                            all.subrange(0, i as int),
                        ),
                        actions_view(out@) == actions_view(old(out)@) + flatten_actions(
                            all.subrange(0, i as int),
                        ),
                        self.queue.to_send@ == old(self).queue.to_send@,
                        self.state == old(self).state,
                        self.extensions == old(self).extensions,
                    decreases n - i,
                {
                    let a = rest.remove(0);
                    proof {
                        assert(a == all[i as int]);
                        assert(all.subrange(0, i + 1).drop_last() =~= all.subrange(0, i as int));
                        assert(all.subrange(0, i + 1).last() == a);
                        lemma_received_counts_prefix(all, i + 1);
                        assert(decreases_to!(action => action->Multiple_0));
                        assert(decreases_to!(action->Multiple_0 => action->Multiple_0@));
                        assert(decreases_to!(action->Multiple_0@ => action->Multiple_0@[i as int]));
                    }
                    self.handle_action(a, out);
                    proof {
                        assert(rest@ =~= all.subrange(i + 1, n as int));
                    }
                    i = i + 1;
                }
            },
        }
    }
}


/// Setting our interest twice to the same value tells the remote peer once.
pub proof fn law_interest_idempotent(m: PeerModel, want: bool)
    ensures
        interest(interest(m, want).0, want).0 == interest(m, want).0,
        interest(interest(m, want).0, want).1.len() == 0,
        interest(m, want).0.state.am_interested == want,
{
}

/// Sending the queued requests empties the queue and counts each as unanswered; while they
/// are unanswered, nothing more goes out.
pub proof fn law_flush_sends_once(m: PeerModel)
    requires
        m.have_sent == 0,
        m.state.am_interested,
        !m.state.peer_choking,
        m.to_send.len() > 0,
    ensures
        flush_spec(m).0.to_send.len() == 0,
        flush_spec(m).0.have_sent == m.to_send.len(),
        flush_spec(m).1.len() == m.to_send.len() + 1,
        flush_spec(flush_spec(m).0).1.len() == 0,
        flush_spec(flush_spec(m).0).0 == flush_spec(m).0,
{
}

/// While the remote peer chokes us or we are not interested, no queued request goes out:
/// the queue and the count of unanswered requests stay as they are.
pub proof fn law_no_requests_while_choked(m: PeerModel)
    requires
        m.state.peer_choking || !m.state.am_interested,
    ensures
        flush_spec(m).0 == m,
        flush_spec(m).1.len() == 0,
{
}

/// Whether an action writes a request to the remote peer.
pub open spec fn sends_request(a: ActionView) -> bool {
    a matches ActionView::SendPeer(MessageView::Request(_))
}

/// The peer after the first `k` messages of `steps`, starting from `m`.
pub open spec fn run_state(m: PeerModel, steps: Seq<(Msg, ParsedExtension)>, k: nat) -> PeerModel
    decreases k,
{
    if k == 0 {
        m
    } else {
        let prev = run_state(m, steps, (k - 1) as nat);
        handle_spec(prev, steps[k - 1].0, steps[k - 1].1).0
    }
}

/// The extended handshake's actions only go to the manager.
proof fn lemma_handshake_actions_to_manager(names: Seq<(Seq<char>, u8)>, metadata_size: Option<usize>)
    ensures
        forall|i: int|
            0 <= i < handshake_actions(names, metadata_size).len() ==> !(#[trigger] handshake_actions(
                names,
                metadata_size,
            )[i] is SendPeer),
    decreases names.len(),
{
    if names.len() > 0 {
        lemma_handshake_actions_to_manager(names.drop_last(), metadata_size);
        let prev = handshake_actions(names.drop_last(), metadata_size);
        let all = handshake_actions(names, metadata_size);
        assert forall|i: int| 0 <= i < all.len() implies !(#[trigger] all[i] is SendPeer) by {
            if i < prev.len() {
                if names.last().0 == ut_metadata_name() && names.last().1 != 0 {
                    assert(all[i] == prev[i]);
                }
            }
        }
    }
}

/// Handling a message never writes a request by itself: requests only go out when the queue
/// is sent.
proof fn lemma_react_sends_no_request(m: PeerModel, msg: Msg, parsed: ParsedExtension)
    ensures
        forall|i: int|
            0 <= i < react_spec(m, msg, parsed).1.len() ==> !sends_request(#[trigger] react_spec(m, msg, parsed).1[i]),
{
    if let Msg::Data(PeerMessage::Extended(p)) = msg {
        if let Some(table) = m.extensions {
            if p.extension_id == 0 {
                if let Some(h) = parsed.handshake {
                    lemma_handshake_actions_to_manager(names_view(h.m@), h.metadata_size);
                }
            }
        }
    }
}

/// Over any run of a peer: a request is written to the remote peer only when, after the
/// message that step handled, the remote peer does not choke us, we are interested, and every
/// request sent before was answered.
pub proof fn law_run_requests_only_when_allowed(m: PeerModel, steps: Seq<(Msg, ParsedExtension)>)
    ensures
        forall|k: int, j: int|
            0 <= k < steps.len() && 0 <= j < handle_spec(run_state(m, steps, k as nat), steps[k].0, steps[k].1).1.len()
                && sends_request(
                #[trigger] handle_spec(run_state(m, steps, k as nat), steps[k].0, steps[k].1).1[j],
            ) ==> {
                let r = react_spec(run_state(m, steps, k as nat), steps[k].0, steps[k].1).0;
                &&& !r.state.peer_choking
                &&& r.state.am_interested
                &&& r.have_sent == 0
            },
{
    assert forall|k: int, j: int|
        0 <= k < steps.len() && 0 <= j < handle_spec(run_state(m, steps, k as nat), steps[k].0, steps[k].1).1.len()
            && sends_request(
            #[trigger] handle_spec(run_state(m, steps, k as nat), steps[k].0, steps[k].1).1[j],
        ) implies {
        let r = react_spec(run_state(m, steps, k as nat), steps[k].0, steps[k].1).0;
        &&& !r.state.peer_choking
        &&& r.state.am_interested
        &&& r.have_sent == 0
    } by {
        let st = run_state(m, steps, k as nat);
        let (msg, parsed) = steps[k];
        lemma_react_sends_no_request(st, msg, parsed);
        let (m1, a1, stop) = react_spec(st, msg, parsed);
        let out = handle_spec(st, msg, parsed).1;
        if j < a1.len() {
            if stop is None {
                assert(out[j] == (a1 + flush_spec(m1).1)[j]);
            }
            assert(out[j] == a1[j]);
        } else {
            if !(m1.have_sent == 0 && m1.state.am_interested && !m1.state.peer_choking) {
                assert(flush_spec(m1).1.len() == 0);
            }
        }
    }
}

/// Only an unchoke message makes a choking remote peer stop choking us.
proof fn lemma_react_keeps_choke(m: PeerModel, msg: Msg, parsed: ParsedExtension)
    requires
        m.state.peer_choking,
        !(msg matches Msg::Data(PeerMessage::Unchoke(_))),
    ensures
        react_spec(m, msg, parsed).0.state.peer_choking,
{
}

/// Once the remote peer chokes us, it counts as choking us, and no request is written to it,
/// at every later step of the run until an unchoke message comes.
pub proof fn law_choke_holds(m: PeerModel, steps: Seq<(Msg, ParsedExtension)>, k: int, j: int)
    requires
        0 <= k <= j < steps.len(),
        steps[k].0 matches Msg::Data(PeerMessage::Choke(_)),
        forall|l: int| k < l <= j ==> !(#[trigger] steps[l].0 matches Msg::Data(PeerMessage::Unchoke(_))),
    ensures
        react_spec(run_state(m, steps, j as nat), steps[j].0, steps[j].1).0.state.peer_choking,
        forall|i: int|
            0 <= i < handle_spec(run_state(m, steps, j as nat), steps[j].0, steps[j].1).1.len() ==> !sends_request(
                #[trigger] handle_spec(run_state(m, steps, j as nat), steps[j].0, steps[j].1).1[i],
            ),
    decreases j - k,
{
    let st = run_state(m, steps, j as nat);
    let (msg, parsed) = steps[j];
    if j > k {
        law_choke_holds(m, steps, k, j - 1);
        let prev = run_state(m, steps, (j - 1) as nat);
        let m1 = react_spec(prev, steps[j - 1].0, steps[j - 1].1).0;
        assert(m1.state.peer_choking);
        assert(st == handle_spec(prev, steps[j - 1].0, steps[j - 1].1).0);
        assert(st.state.peer_choking);
        assert(!(steps[j].0 matches Msg::Data(PeerMessage::Unchoke(_))));
        lemma_react_keeps_choke(st, msg, parsed);
    }
    lemma_react_sends_no_request(st, msg, parsed);
    let (r1, a1, stop) = react_spec(st, msg, parsed);
    let out = handle_spec(st, msg, parsed).1;
    assert(r1.state.peer_choking);
    assert(flush_spec(r1).1.len() == 0);
    assert forall|i: int| 0 <= i < out.len() implies !sends_request(#[trigger] out[i]) by {
        if stop is None {
            assert(out[i] == (a1 + flush_spec(r1).1)[i]);
        }
        assert(out[i] == a1[i]);
    }
}

/// In every state of a peer, so at every step of every run: a finished piece is announced to
/// the remote peer, a timeout sends a keep-alive, a request from the remote peer goes to the
/// manager, and a block from the remote peer goes to the manager, each as the first action.
pub proof fn law_peer_replies(m: PeerModel, msg: Msg, parsed: ParsedExtension)
    ensures
        msg matches Msg::Manager(ResMessage::FinishedPiece(i)) ==> handle_spec(m, msg, parsed).1.len() >= 1
            && handle_spec(m, msg, parsed).1[0] == ActionView::SendPeer(MessageView::Have(i)),
        msg is Timeout ==> handle_spec(m, msg, parsed).1.len() >= 1 && handle_spec(m, msg, parsed).1[0]
            == ActionView::SendPeer(MessageView::KeepAlive),
        msg matches Msg::Data(PeerMessage::Request(r)) ==> handle_spec(m, msg, parsed).1.len() >= 1
            && handle_spec(m, msg, parsed).1[0] == ActionView::SendPeerManager(ReqView::NeedBlock(r)),
        msg matches Msg::Data(PeerMessage::Piece(b)) ==> handle_spec(m, msg, parsed).1.len() >= 1
            && handle_spec(m, msg, parsed).1[0] == ActionView::SendPeerManager(
            ReqView::GotBlock(b.index, b.begin, b.block@),
        ),
{
}

/// A block from the remote peer answers one sent request and goes to the manager.
pub proof fn law_block_answers_request(m: PeerModel, p: ResponsePiecePayload, parsed: ParsedExtension)
    requires
        m.have_sent >= 1,
    ensures
        react_spec(m, Msg::Data(PeerMessage::Piece(p)), parsed).0.have_sent == m.have_sent - 1,
        react_spec(m, Msg::Data(PeerMessage::Piece(p)), parsed).1 == seq![
            ActionView::SendPeerManager(ReqView::GotBlock(p.index, p.begin, p.block@)),
        ],
        react_spec(m, Msg::Data(PeerMessage::Piece(p)), parsed).2 is None,
{
}

} // verus!
