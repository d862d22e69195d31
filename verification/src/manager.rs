//! The peer manager of one torrent as a state machine: the pieces being downloaded, the piece
//! selector, and what each message of a peer makes the manager do. Files, the database and
//! the channels to the peers are the caller's.
use vstd::prelude::*;

use crate::download::{
    block_fits, block_offset, can_serve, first_with_index, is_download_finished,
    lemma_first_index_exists, piece_offset, written_buf, PieceManager, PieceState,
};
use crate::payloads::ResponsePiecePayload;
use crate::BLOCK_MAX;
use crate::deps::sha1_of;
use crate::extensions::{ExtensionMessage, ExtensionType};
use crate::download::BlockState;
use crate::metadata::{
    metadata_block_open, metadata_blocks, metadata_request_bytes, open_metadata_blocks, MetadataPieceManager,
    METADATA_BLOCK_SIZE,
};
use crate::payloads::{BitfieldPayload, RequestPiecePayload};
use crate::peer::{ReqMessage, ResMessage};
use crate::piece_selector::{
    counts_for, have_applies, peer_bits, peer_index, prio_pushes, prio_rarity, resize_empties, set_peer_bits, PeerId,
    PieceSelector,
};
use crate::torrent::{InfoHash, Metainfo};

verus! {

/// How many requests a peer gets at once.
pub const BLOCK_QUEUE_SIZE: usize = 20;

/// What the manager asks its caller to do.
#[derive(Debug)]
pub enum ManagerAction {
    /// Send a message to one peer.
    Send(PeerId, ResMessage),
    /// Send a message to every peer.
    Broadcast(ResMessage),
    /// Read the block a peer asked for, at `offset` of the file, and send it to the peer
    /// (`Block(None)` when it cannot be read).
    ServeBlock(PeerId, RequestPiecePayload, u64),
    /// Write a checked piece at `offset` of the file and store the new bitfield; then report
    /// it with [`PeerManagerCore::piece_stored`].
    StorePiece { piece_i: u32, offset: u64, data: Vec<u8>, bitfield: Vec<bool> },
    /// The metadata is complete and hashes to the info hash: read the info dictionary from
    /// these bytes and go on with [`MetadataStage::into_downloading`].
    MetadataComplete(Vec<u8>),
}

/// The state of the peer manager of one torrent.
#[derive(Debug)]
pub struct PeerManagerCore {
    pub metainfo: Metainfo,
    pub selector: PieceSelector,
    pub pieces: PieceManager,
}

/// Whether a metainfo describes pieces that can be downloaded: a single file with a length,
/// a piece length, and between one and `u32::MAX` pieces.
pub open spec fn valid_metainfo(m: Metainfo) -> bool {
    &&& m.length is Some
    &&& m.piece_length != 0
    &&& 1 <= m.pieces.0@.len() <= u32::MAX
}

/// What the disconnection of peer `peer_id` does to the selector (`sel_before` becomes
/// `sel_after`): a known peer leaves the list, its pieces count one peer less in the rarities
/// and the changed rarities get queue entries; an unknown peer changes nothing. Our bitfield
/// and the requested pieces stay as they are.
pub open spec fn disconnect_outcome(sel_before: PieceSelector, sel_after: PieceSelector, peer_id: PeerId) -> bool {
    &&& peer_bits(sel_before.peers(), peer_id) is None ==> sel_after.peers() == sel_before.peers()
        && sel_after.rarity() == sel_before.rarity() && sel_after.queue() == sel_before.queue()
    &&& peer_bits(sel_before.peers(), peer_id) matches Some(bits) ==> {
        &&& sel_after.peers() == sel_before.peers().remove(peer_index(sel_before.peers(), peer_id))
        &&& sel_after.rarity() == prio_rarity(sel_before.rarity(), bits, sel_before.own(), false)
        &&& sel_after.queue() == sel_before.queue().add(
            prio_pushes(sel_before.rarity(), bits, sel_before.own(), false, sel_before.rarity().len() as int).to_multiset(),
        )
    }
    &&& sel_after.own() == sel_before.own()
    &&& sel_after.in_flight() == sel_before.in_flight()
}

/// Whether counting a peer with bitfield `bits` leaves every rarity within a `u32`.
pub open spec fn rarities_fit(rarity: Seq<u32>, bits: Seq<bool>, have: Seq<bool>) -> bool {
    forall|i: int| counts_for(rarity, bits, have, i) ==> rarity[i] < u32::MAX
}

/// What a peer's bitfield `bf` does to the selector (`sel_before` becomes `sel_after`): it
/// is cut to the number of pieces; when it is not empty, the unset bitfields of other peers are
/// extended to its length, and when the peer is known and no rarity would overflow, it becomes
/// the peer's bitfield and counts in the rarities. A bitfield that would overflow a rarity is
/// ignored. Requested pieces stay as they are.
pub open spec fn bitfield_outcome(
    sel_before: PieceSelector,
    sel_after: PieceSelector,
    bf: BitfieldPayload,
    peer_id: PeerId,
) -> bool {
    let bits = bf.pieces_available@.take(
        if sel_before.own().len() <= bf.pieces_available@.len() {
            sel_before.own().len() as int
        } else {
            bf.pieces_available@.len() as int
        },
    );
    let resized_peers = resize_empties(sel_before.peers(), bits.len());
    let counted = bits.len() > 0 && peer_bits(resized_peers, peer_id) is Some;
    let fits = rarities_fit(sel_before.rarity(), bits, sel_before.own());
    &&& counted && fits ==> sel_after.peers() == set_peer_bits(resized_peers, peer_id, bits)
        && sel_after.rarity() == prio_rarity(sel_before.rarity(), bits, sel_before.own(), true)
    &&& !(counted && fits) && bits.len() > 0 && fits ==> sel_after.peers() == resized_peers
        && sel_after.rarity() == sel_before.rarity()
    &&& (bits.len() == 0 || !fits) ==> sel_after.peers() == sel_before.peers()
        && sel_after.rarity() == sel_before.rarity()
    &&& sel_after.in_flight() == sel_before.in_flight()
}

/// What block `b` does when `p`, at position `q` of the queue, is the first piece with its
/// index: a block that does not fit is refused and changes nothing; otherwise it is written
/// into the piece. A piece that this completes leaves the queue (the last piece takes its
/// place); when it hashes to its piece hash it is handed out to be stored with our bitfield
/// with it set, and when it does not, it is given up so that it is selected again.
pub open spec fn got_block_outcome(
    before: PeerManagerCore,
    after: PeerManagerCore,
    p: PieceState,
    b: ResponsePiecePayload,
    q: int,
    res: Seq<ManagerAction>,
) -> bool {
    let queue = before.pieces.download_queue.0@;
    let blocks = p.blocks@.update((b.begin / BLOCK_MAX) as int, BlockState::Finished);
    let data = written_buf(p.buf@, b.begin as int, b.block@);
    let done = forall|j: int| 0 <= j < blocks.len() ==> blocks[j] == BlockState::Finished;
    let known = (b.index as int) < before.selector.own().len();
    let hashes_right = known && sha1_of(data) == before.metainfo.pieces.0@[b.index as int]@;
    &&& !block_fits(p, b) ==> res.len() == 0 && after.pieces.download_queue.0@ == queue
        && after.selector.in_flight() == before.selector.in_flight()
    &&& block_fits(p, b) && !done ==> {
        &&& res.len() == 0
        &&& after.pieces.download_queue.0@.len() == queue.len()
        &&& after.pieces.download_queue.0@[q].buf@ == data
        &&& after.pieces.download_queue.0@[q].blocks@ == blocks
        &&& after.selector.in_flight() == before.selector.in_flight()
    }
    &&& block_fits(p, b) && done ==> {
        &&& after.pieces.download_queue.0@ == queue.update(q, queue.last()).drop_last()
        &&& hashes_right ==> res.len() == 1 && (res[0] matches ManagerAction::StorePiece {
            piece_i,
            offset,
            data: d,
            bitfield,
        } && piece_i == b.index && offset == b.index * before.metainfo.piece_length && d@ == data
            && bitfield@ == before.selector.own().update(b.index as int, true))
            && after.selector.in_flight() == before.selector.in_flight()
        &&& known && !hashes_right ==> res.len() == 0 && after.selector.in_flight()
            == before.selector.in_flight().update(b.index as int, false)
        &&& !known ==> res.len() == 0 && after.selector.in_flight() == before.selector.in_flight()
    }
}

impl PeerManagerCore {
    /// The selector and the queue are well formed, the metainfo is valid, and our bitfield
    /// has a flag per piece.
    pub open spec fn wf(&self) -> bool {
        &&& self.selector.wf()
        &&& self.pieces.download_queue.wf()
        &&& valid_metainfo(self.metainfo)
        &&& self.selector.own().len() == self.metainfo.pieces.0@.len()
    }

    /// A manager for a torrent of which we have the pieces `have`.
    pub fn new(metainfo: Metainfo, have: Vec<bool>) -> (res: Self)
        requires
            valid_metainfo(metainfo),
            have@.len() == metainfo.pieces.0@.len(),
        ensures
            res.wf(),
            res.metainfo == metainfo,
            res.selector.own() == have@,
            res.pieces.download_queue.0@.len() == 0,
    {
        let selector = PieceSelector::new(have);
        PeerManagerCore { metainfo, selector, pieces: PieceManager::build() }
    }

    /// A new peer: the selector learns of it and the peer is told to start.
    pub fn on_connect(&mut self, peer_id: PeerId) -> (res: Vec<ManagerAction>)
        requires
            old(self).wf(),
        ensures
            final(self).wf(),
            final(self).selector.own() == old(self).selector.own(),
            peer_bits(final(self).selector.peers(), peer_id) is Some,
            res@.len() == 1,
            res@[0] matches ManagerAction::Send(p, ResMessage::StartDownload) && p == peer_id,
    {
        self.selector.add_peer(peer_id);
        proof {
            let peers = self.selector.peers();
            if peer_bits(old(self).selector.peers(), peer_id) is None {
                assert(peers[peers.len() - 1].0 == peer_id);
            }
        }
        let mut out: Vec<ManagerAction> = Vec::new();
        out.push(ManagerAction::Send(peer_id, ResMessage::StartDownload));
        out
    }

    /// Whether a message of a peer can be handled: a request must be for a piece of the
    /// torrent.
    pub open spec fn can_handle_spec(&self, msg: ReqMessage) -> bool {
        msg matches ReqMessage::NeedBlock(req) ==> (req.index as int) < self.selector.own().len()
    }

    /// Whether a message of a peer can be handled.
    pub fn can_handle(&self, msg: &ReqMessage) -> (res: bool)
        ensures
            res == self.can_handle_spec(*msg),
    {
        match msg {
            ReqMessage::NeedBlock(req) => (req.index as usize) < self.selector.get_have().len(),
            _ => true,
        }
    }

    /// What handling message `msg` of peer `peer_id` at time `now` does: `before` becomes
    /// `after` and the manager asks for `res`. Our bitfield and the metainfo stay; we answer
    /// what we have, hand the peer up to `BLOCK_QUEUE_SIZE` requests, serve blocks of pieces we
    /// have (and refuse the others), and hand a piece to be stored once its last block came
    /// and it hashes right.
    pub open spec fn handled(
        before: Self,
        after: Self,
        peer_id: PeerId,
        msg: ReqMessage,
        now: u64,
        res: Seq<ManagerAction>,
    ) -> bool {
        &&& after.wf()
        &&& after.metainfo == before.metainfo
        &&& after.selector.own() == before.selector.own()
        &&& msg is WhatDoWeHave ==> res.len() == 1 && (res[0] matches ManagerAction::Send(
            p,
            ResMessage::WeHave(Some(bits)),
        ) && p == peer_id && bits.pieces_available@ == before.selector.own())
        &&& msg is NeedBlockQueue ==> exists|r: Option<Vec<RequestPiecePayload>>|
            PieceManager::blocks_prepared(
                before.pieces,
                after.pieces,
                before.selector,
                after.selector,
                BLOCK_QUEUE_SIZE,
                peer_id,
                now,
                r,
            ) && (r is None ==> res.len() == 0) && (r matches Some(v) ==> res.len() == 1 && (res[0] matches ManagerAction::Send(
                p,
                ResMessage::NewBlockQueue(reqs),
            ) && p == peer_id && reqs@ == v@))
        &&& msg matches ReqMessage::PeerBitfield(bf) ==> res.len() == 0 && bitfield_outcome(
            before.selector,
            after.selector,
            bf,
            peer_id,
        )
        &&& msg matches ReqMessage::PeerHas(h) ==> {
            let i = h.piece_index;
            let applies = have_applies(before.selector.peers(), before.selector.rarity(), peer_id, i)
                && !peer_bits(before.selector.peers(), peer_id)->Some_0[i as int];
            &&& res.len() == 0
            &&& applies && before.selector.rarity()[i as int] < u32::MAX ==> after.selector.peers() == set_peer_bits(
                before.selector.peers(),
                peer_id,
                peer_bits(before.selector.peers(), peer_id)->Some_0.update(i as int, true),
            ) && after.selector.rarity() == before.selector.rarity().update(
                i as int,
                (before.selector.rarity()[i as int] + 1) as u32,
            )
            &&& !(applies && before.selector.rarity()[i as int] < u32::MAX) ==> after.selector.peers()
                == before.selector.peers() && after.selector.rarity() == before.selector.rarity()
            &&& after.selector.in_flight() == before.selector.in_flight()
        }
        &&& msg matches ReqMessage::NeedBlock(req) ==> res.len() == 1 && if before.selector.own()[req.index as int] {
            res[0] == ManagerAction::ServeBlock(
                peer_id,
                req,
                (req.index * before.metainfo.piece_length + req.begin) as u64,
            )
        } else {
            res[0] matches ManagerAction::Send(p, ResMessage::Block(None)) && p == peer_id
        }
        &&& msg matches ReqMessage::GotBlock(b) ==> {
            let queue = before.pieces.download_queue.0@;
            &&& res.len() <= 1
            &&& res.len() == 1 ==> (res[0] matches ManagerAction::StorePiece {
                piece_i,
                offset,
                data,
                bitfield,
            } && piece_i == b.index && (piece_i as int) < before.selector.own().len() && offset
                == piece_i * before.metainfo.piece_length && sha1_of(data@)
                == before.metainfo.pieces.0@[piece_i as int]@ && bitfield@ == before.selector.own().update(piece_i as int, true))
            &&& (forall|q: int| 0 <= q < queue.len() ==> queue[q].piece_i != b.index) ==> res.len() == 0
                && after.pieces.download_queue.0@ == queue && after.selector.in_flight() == before.selector.in_flight()
            &&& forall|q: int| #[trigger] first_with_index(queue, b.index, q) ==> got_block_outcome(
                before,
                after,
                queue[q],
                b,
                q,
                res,
            )
        }
        &&& msg is PeerDisconnected ==> disconnect_outcome(before.selector, after.selector, peer_id)
            && after.pieces == before.pieces
        &&& !(msg is WhatDoWeHave || msg is NeedBlockQueue || msg is NeedBlock || msg is GotBlock) ==> res.len() == 0
    }

    /// What a message of peer `peer_id` makes the manager do at time `now`.
    #[verifier::rlimit(60)]
    pub fn handle(&mut self, peer_id: PeerId, msg: ReqMessage, now: u64) -> (res: Vec<ManagerAction>)
        requires
            old(self).wf(),
            old(self).can_handle_spec(msg),
        ensures
            Self::handled(*old(self), *final(self), peer_id, msg, now, res@),
    {
        let mut out: Vec<ManagerAction> = Vec::new();
        match msg {
            ReqMessage::WhatDoWeHave => {
                let have = self.selector.get_have().clone();
                out.push(ManagerAction::Send(peer_id, ResMessage::WeHave(Some(BitfieldPayload::new(have)))));
            },
            ReqMessage::PeerBitfield(bitfield) => {
                let ghost bf = bitfield;
                let n = self.metainfo.n_pieces();
                let bits = bitfield.get_correct_len(n);
                let ghost b = bits@;
                proof {
                    assert(b == bf.pieces_available@.take(
                        if old(self).selector.own().len() <= bf.pieces_available@.len() {
                            old(self).selector.own().len() as int
                        } else {
                            bf.pieces_available@.len() as int
                        },
                    ));
                }
                if self.selector.can_add_bitfield(&bits) {
                    self.selector.add_peer_bitfield(&peer_id, bits);
                }
                proof {
                    let resized_peers = resize_empties(old(self).selector.peers(), b.len());
                    let counted = b.len() > 0 && peer_bits(resized_peers, peer_id) is Some;
                    let fits = rarities_fit(old(self).selector.rarity(), b, old(self).selector.own());
                    assert(counted && fits ==> self.selector.peers() == set_peer_bits(resized_peers, peer_id, b)
                        && self.selector.rarity() == prio_rarity(old(self).selector.rarity(), b, old(self).selector.own(), true));
                    assert(!(counted && fits) && b.len() > 0 && fits ==> self.selector.peers() == resized_peers
                        && self.selector.rarity() == old(self).selector.rarity());
                    assert((b.len() == 0 || !fits) ==> self.selector.peers() == old(self).selector.peers()
                        && self.selector.rarity() == old(self).selector.rarity());
                    assert(self.selector.in_flight() == old(self).selector.in_flight());
                    assert(bitfield_outcome(old(self).selector, self.selector, bf, peer_id));
                }
            },
            ReqMessage::PeerHas(have) => {
                if self.selector.can_count_have(&peer_id, have.piece_index) {
                    self.selector.update_from_peer_have(&peer_id, have.piece_index);
                }
            },
            ReqMessage::NeedBlockQueue => {
                let ghost pieces0 = self.pieces;
                let ghost selector0 = self.selector;
                let prepared = self.pieces.prepare_next_blocks(
                    &mut self.selector,
                    BLOCK_QUEUE_SIZE,
                    &peer_id,
                    &self.metainfo,
                    now,
                );
                let ghost r = prepared;
                proof {
                    assert(PieceManager::blocks_prepared(
                        pieces0,
                        self.pieces,
                        selector0,
                        self.selector,
                        BLOCK_QUEUE_SIZE,
                        peer_id,
                        now,
                        r,
                    ));
                }
                match prepared {
                    Some(requests) => {
                        out.push(ManagerAction::Send(peer_id, ResMessage::NewBlockQueue(requests)));
                    },
                    None => {},
                }
                proof {
                    assert((r is None ==> out@.len() == 0) && (r matches Some(v) ==> out@.len() == 1 && (out@[0] matches ManagerAction::Send(
                        p,
                        ResMessage::NewBlockQueue(reqs),
                    ) && p == peer_id && reqs@ == v@)));
                }
            },
            ReqMessage::GotBlock(block) => {
                if self.pieces.download_queue.accepts_block(&block) {
                    let ghost queue0 = self.pieces.download_queue.0@;
                    let ghost b0 = block;
                    match self.pieces.write_block(block) {
                        Some(piece) => {
                            proof {
                                let q0 = choose|q: int| 0 <= q < queue0.len() && queue0[q].piece_i == b0.index;
                                lemma_first_index_exists(queue0, b0.index, q0);
                                let q = choose|q: int| #[trigger] first_with_index(queue0, b0.index, q);
                                assert(first_with_index(queue0, b0.index, q));
                                assert(piece.piece_i == b0.index);
                            }
                            if (piece.piece_i as usize) < self.metainfo.n_pieces() {
                                match PieceManager::checked_bitfield(&self.selector, &piece, &self.metainfo) {
                                    Some(bitfield) => {
                                        let offset = piece_offset(piece.piece_i, self.metainfo.piece_length);
                                        out.push(ManagerAction::StorePiece {
                                            piece_i: piece.piece_i,
                                            offset,
                                            data: piece.buf,
                                            bitfield,
                                        });
                                    },
                                    None => {
                                        proof {
                                            self.selector.lemma_lens();
                                        }
                                        self.selector.release_piece(piece.piece_i as usize);
                                    },
                                }
                            }
                        },
                        None => {},
                    }
                }
            },
            ReqMessage::NeedBlock(req) => {
                if can_serve(self.selector.get_have().as_slice(), &req) {
                    let offset = block_offset(&req, self.metainfo.piece_length);
                    out.push(ManagerAction::ServeBlock(peer_id, req, offset));
                } else {
                    out.push(ManagerAction::Send(peer_id, ResMessage::Block(None)));
                }
            },
            ReqMessage::PeerDisconnected(_) => {
                self.selector.remove_peer(&peer_id);
            },
            ReqMessage::Extension(_) => {},
        }
        out
    }

    /// `handle` at the current time of the system clock.
    pub fn handle_now(&mut self, peer_id: PeerId, msg: ReqMessage) -> (res: Vec<ManagerAction>)
        requires
            old(self).wf(),
            old(self).can_handle_spec(msg),
        ensures
            exists|now: u64| Self::handled(*old(self), *final(self), peer_id, msg, now, res@),
    {
        let now = crate::deps::now_ms();
        self.handle(peer_id, msg, now)
    }

    /// A checked piece was written and its bitfield stored: it counts as ours, every peer is
    /// told, and when it was the last piece the peers learn that the file is finished.
    pub fn piece_stored(&mut self, piece_i: u32) -> (res: Vec<ManagerAction>)
        requires
            old(self).wf(),
            (piece_i as int) < old(self).selector.own().len(),
        ensures
            final(self).wf(),
            final(self).selector.own() == old(self).selector.own().update(piece_i as int, true),
            1 <= res@.len() <= 2,
            res@[0] matches ManagerAction::Broadcast(ResMessage::FinishedPiece(i)) && i == piece_i,
            res@.len() == 2 <==> forall|k: int|
                0 <= k < final(self).selector.own().len() ==> final(self).selector.own()[k],
            res@.len() == 2 ==> res@[1] matches ManagerAction::Broadcast(ResMessage::FinishedFile),
    {
        self.selector.set_have(piece_i as usize);
        let mut out: Vec<ManagerAction> = Vec::new();
        out.push(ManagerAction::Broadcast(ResMessage::FinishedPiece(piece_i)));
        if is_download_finished(self.selector.get_have().as_slice()) {
            out.push(ManagerAction::Broadcast(ResMessage::FinishedFile));
        }
        out
    }
}


/// The peer manager of a torrent known by its info hash only (from a magnet link), while it
/// collects the metadata from the peers.
#[derive(Debug)]
pub struct MetadataStage {
    pub metadata: MetadataPieceManager,
    pub selector: PieceSelector,
}

impl MetadataStage {
    /// The selector is well formed and knows no piece yet.
    pub open spec fn wf(&self) -> bool {
        &&& self.selector.wf()
        &&& self.selector.own().len() == 0
        &&& self.selector.rarity().len() == 0
    }

    /// A manager for the torrent with info hash `info_hash`, knowing nothing else yet.
    pub fn new(info_hash: InfoHash) -> (res: Self)
        ensures
            res.wf(),
            res.metadata.info_hash == info_hash,
            res.metadata.queue@.len() == 0,
    {
        MetadataStage { metadata: MetadataPieceManager::new(info_hash), selector: PieceSelector::new(Vec::new()) }
    }

    /// The info hash of the torrent.
    pub fn get_info_hash(&self) -> (res: InfoHash)
        ensures
            res == self.metadata.info_hash,
    {
        self.metadata.get_info_hash()
    }

    /// A new peer: the selector learns of it and the peer is told to start.
    pub fn on_connect(&mut self, peer_id: PeerId) -> (res: Vec<ManagerAction>)
        requires
            old(self).wf(),
        ensures
            final(self).wf(),
            final(self).metadata == old(self).metadata,
            res@.len() == 1,
            res@[0] matches ManagerAction::Send(p, ResMessage::StartDownload) && p == peer_id,
    {
        self.selector.add_peer(peer_id);
        let mut out: Vec<ManagerAction> = Vec::new();
        out.push(ManagerAction::Send(peer_id, ResMessage::StartDownload));
        out
    }

    /// What handling message `msg` of peer `peer_id` at time `now` does: `before` becomes
    /// `after` and the manager asks for `res`. Bitfields and have messages are recorded for
    /// later, requests for blocks are refused, and the metadata extension's messages drive the
    /// collection of the metadata.
    pub open spec fn handled(
        before: Self,
        after: Self,
        peer_id: PeerId,
        msg: ReqMessage,
        now: u64,
        res: Seq<ManagerAction>,
    ) -> bool {
        &&& after.wf()
        &&& after.metadata.info_hash == before.metadata.info_hash
        &&& msg is WhatDoWeHave ==> res.len() == 1 && (res[0] matches ManagerAction::Send(
            p,
            ResMessage::WeHave(None),
        ) && p == peer_id)
        &&& msg is NeedBlock ==> res.len() == 1 && (res[0] matches ManagerAction::Send(
            p,
            ResMessage::Block(None),
        ) && p == peer_id)
        &&& msg matches ReqMessage::Extension(ExtensionMessage::GotMetadataLength(l)) ==> {
            &&& res.len() == 0
            &&& before.metadata.queue@.len() == 0 ==> after.metadata.queue@ == Seq::new(
                metadata_blocks(l as nat),
                |i: int| BlockState::Unrequested,
            ) && after.metadata.bytes@ == Seq::new(l as nat, |i: int| 0u8)
            &&& before.metadata.queue@.len() != 0 ==> after.metadata.queue@ == before.metadata.queue@
                && after.metadata.bytes@ == before.metadata.bytes@
        }
        &&& msg matches ReqMessage::Extension(ExtensionMessage::NeedMetadataPiece) ==> {
            &&& after.metadata.bytes@ == before.metadata.bytes@
            &&& after.metadata.queue@.len() == before.metadata.queue@.len()
            &&& forall|k: int|
                0 <= k < before.metadata.queue@.len() ==> #[trigger] after.metadata.queue@[k] == if metadata_block_open(
                    before.metadata.queue@[k],
                    now,
                ) {
                    BlockState::InProcess(now)
                } else {
                    before.metadata.queue@[k]
                }
            &&& res.len() == open_metadata_blocks(
                before.metadata.queue@,
                now,
                before.metadata.queue@.len() as int,
            ).len()
            &&& forall|i: int|
                0 <= i < res.len() ==> (#[trigger] res[i] matches ManagerAction::Send(
                    p,
                    ResMessage::ExtensionData(t, data),
                ) && p == peer_id && t == ExtensionType::Metadata && data@ == metadata_request_bytes(
                    open_metadata_blocks(before.metadata.queue@, now, before.metadata.queue@.len() as int)[i] as u32,
                ))
        }
        &&& msg matches ReqMessage::Extension(ExtensionMessage::ReceivedMetadataPiece { piece_index, data }) ==> {
            let accepted = before.metadata.fits(piece_index, data@);
            let queue = before.metadata.queue@.update(piece_index as int, BlockState::Finished);
            let bytes = before.metadata.bytes@.subrange(0, piece_index * METADATA_BLOCK_SIZE) + data@
                + before.metadata.bytes@.subrange(
                piece_index * METADATA_BLOCK_SIZE + data@.len(),
                before.metadata.bytes@.len() as int,
            );
            &&& res.len() <= 1
            &&& !accepted ==> res.len() == 0 && after.metadata == before.metadata
            &&& accepted ==> after.metadata.bytes@ == bytes
            &&& (res.len() == 1 <==> accepted && (forall|k: int| 0 <= k < queue.len() ==> queue[k]
                == BlockState::Finished) && sha1_of(bytes) == before.metadata.info_hash.0@)
            &&& res.len() == 1 ==> (res[0] matches ManagerAction::MetadataComplete(b) && b@ == bytes)
        }
        &&& !(msg is Extension) ==> after.metadata == before.metadata
        &&& msg is PeerDisconnected ==> disconnect_outcome(before.selector, after.selector, peer_id)
        &&& !(msg is WhatDoWeHave || msg is NeedBlock || msg is Extension) ==> res.len() == 0
    }

    /// What a message of peer `peer_id` makes the manager do at time `now`: bitfields and
    /// have messages are recorded for later, requests for blocks are refused, and the
    /// metadata extension's messages drive the collection of the metadata.
    pub fn handle(&mut self, peer_id: PeerId, msg: ReqMessage, now: u64) -> (res: Vec<ManagerAction>)
        requires
            old(self).wf(),
        ensures
            Self::handled(*old(self), *final(self), peer_id, msg, now, res@),
    {
        let mut out: Vec<ManagerAction> = Vec::new();
        match msg {
            ReqMessage::WhatDoWeHave => {
                out.push(ManagerAction::Send(peer_id, ResMessage::WeHave(None)));
            },
            ReqMessage::PeerBitfield(bitfield) => {
                if self.selector.can_add_bitfield(&bitfield.pieces_available) {
                    self.selector.add_peer_bitfield(&peer_id, bitfield.pieces_available);
                }
            },
            ReqMessage::PeerHas(have) => {
                if self.selector.can_count_have(&peer_id, have.piece_index) {
                    self.selector.update_from_peer_have(&peer_id, have.piece_index);
                }
            },
            ReqMessage::NeedBlock(_) => {
                out.push(ManagerAction::Send(peer_id, ResMessage::Block(None)));
            },
            ReqMessage::PeerDisconnected(_) => {
                self.selector.remove_peer(&peer_id);
            },
            ReqMessage::Extension(ExtensionMessage::GotMetadataLength(length)) => {
                self.metadata.set_len(length);
            },
            ReqMessage::Extension(ExtensionMessage::NeedMetadataPiece) => {
                let mut requests = self.metadata.get_block_req_data(now);
                let ghost all = requests@;
                let n = requests.len();
                let mut i: usize = 0;
                while i < n
                    invariant
                        n == all.len(),
                        i <= n,
                        requests@ == all.subrange(i as int, n as int),
                        out@.len() == i,
                        forall|k: int|
                            0 <= k < i ==> (#[trigger] out@[k] matches ManagerAction::Send(
                                p,
                                ResMessage::ExtensionData(t, data),
                            ) && p == peer_id && t == ExtensionType::Metadata && data@ == all[k]@),
                    decreases n - i,
                {
                    let data = requests.remove(0);
                    proof {
                        assert(data == all[i as int]);
                        assert(requests@ =~= all.subrange(i + 1, n as int));
                    }
                    out.push(ManagerAction::Send(peer_id, ResMessage::ExtensionData(ExtensionType::Metadata, data)));
                    i = i + 1;
                }
            },
            ReqMessage::Extension(ExtensionMessage::ReceivedMetadataPiece { piece_index, data }) => {
                if self.metadata.accepts_block(piece_index, data.len()) {
                    self.metadata.add_block(piece_index, data.as_slice());
                    if self.metadata.check_finished() {
                        let bytes = self.metadata.bytes.clone();
                        proof {
                            assert(bytes@ =~= self.metadata.bytes@);
                        }
                        out.push(ManagerAction::MetadataComplete(bytes));
                    }
                }
            },
            _ => {},
        }
        out
    }

    /// `handle` at the current time of the system clock.
    pub fn handle_now(&mut self, peer_id: PeerId, msg: ReqMessage) -> (res: Vec<ManagerAction>)
        requires
            old(self).wf(),
        ensures
            exists|now: u64| Self::handled(*old(self), *final(self), peer_id, msg, now, res@),
    {
        let now = crate::deps::now_ms();
        self.handle(peer_id, msg, now)
    }

    /// Goes on with the download once the metadata is read: our bitfield gets a flag per
    /// piece, none set, and the peers' bitfields recorded so far are counted. `None` when the
    /// selector cannot take the pieces (more than `u32::MAX` peers).
    pub fn into_downloading(self, metainfo: Metainfo) -> (res: Option<PeerManagerCore>)
        requires
            self.wf(),
            valid_metainfo(metainfo),
        ensures
            self.selector.peers().len() <= u32::MAX ==> res is Some,
            res matches Some(core) ==> {
                &&& core.wf()
                &&& core.metainfo == metainfo
                &&& core.selector.own() == Seq::new(metainfo.pieces.0@.len(), |i: int| false)
                &&& core.pieces.download_queue.0@.len() == 0
            },
    {
        let mut selector = self.selector;
        let n = metainfo.n_pieces();
        if selector.n_peers() > 4294967295 || selector.n_pieces() > n {
            return None;
        }
        let have = crate::database::new_bitfield(n);
        selector.update_from_self_have(have);
        Some(PeerManagerCore { metainfo, selector, pieces: PieceManager::build() })
    }
}

} // verus!
