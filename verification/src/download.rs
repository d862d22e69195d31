//! The pieces being downloaded: which blocks of each piece are requested or done, the
//! requests to send next, and the bookkeeping when a block arrives.
use vstd::multiset::Multiset;
use vstd::prelude::*;

use crate::payloads::{RequestPiecePayload, ResponsePiecePayload};
use crate::piece_selector::{eligible, peer_bits, PeerId, PieceSelector};
use crate::torrent::{block_len_spec, get_block_len, get_piece_size, piece_size_spec, Metainfo};
use crate::deps::{now_ms, sha1_digest, sha1_of};
use crate::wire::bytes20_eq;
use crate::BLOCK_MAX;

verus! {

/// How many pieces are selected at once.
pub const MAX_PIECES_IN_PARALLEL: usize = 20;

/// After how many milliseconds a request without an answer counts as lost (10 s).
pub const TIMEOUT_FOR_REQ_MS: u64 = 10000;

/// The state of one block.
#[derive(Debug, Clone, Copy, PartialEq, Eq)]
pub enum BlockState {
    Finished,
    /// Requested at the given time (milliseconds).
    InProcess(u64),
    /// Never requested.
    Unrequested,
}

/// Whether a block still has to be requested at time `now`: it never was, or its request
/// is at least `TIMEOUT_FOR_REQ_MS` old.
pub open spec fn not_requested(b: BlockState, now: u64) -> bool {
    match b {
        BlockState::Unrequested => true,
        BlockState::InProcess(t) => now >= t && now - t >= TIMEOUT_FOR_REQ_MS,
        BlockState::Finished => false,
    }
}

impl BlockState {
    pub fn is_finished(&self) -> (res: bool)
        ensures
            res == (*self == BlockState::Finished),
    {
        match self {
            BlockState::Finished => true,
            _ => false,
        }
    }

    /// Whether the block was never requested.
    pub fn is_none(&self) -> (res: bool)
        ensures
            res == (*self == BlockState::Unrequested),
    {
        match self {
            BlockState::Unrequested => true,
            _ => false,
        }
    }

    /// Whether the block still has to be requested at time `now` (milliseconds).
    pub fn is_not_requested(&self, now: u64) -> (res: bool)
        ensures
            res == not_requested(*self, now),
    {
        match self {
            BlockState::Unrequested => true,
            BlockState::InProcess(t) => now >= *t && now - *t >= TIMEOUT_FOR_REQ_MS,
            BlockState::Finished => false,
        }
    }
}

/// The number of blocks of a piece of `size` bytes.
pub open spec fn n_blocks_spec(size: nat) -> nat {
    ((size + BLOCK_MAX - 1) / (BLOCK_MAX as int)) as nat
}

/// The indices, in order, of the blocks among the first `k` that still have to be requested
/// at time `now`.
pub open spec fn open_blocks(blocks: Seq<BlockState>, now: u64, k: int) -> Seq<int>
    decreases k,
{
    if k <= 0 {
        Seq::empty()
    } else {
        let prev = open_blocks(blocks, now, k - 1);
        if not_requested(blocks[k - 1], now) {
            prev.push(k - 1)
        } else {
            prev
        }
    }
}

/// The request for block `j` of piece `piece_i`, a piece of `size` bytes in `n_blocks`
/// blocks.
pub open spec fn block_request(piece_i: u32, n_blocks: nat, size: nat, j: int) -> RequestPiecePayload {
    RequestPiecePayload {
        index: piece_i,
        begin: (j * BLOCK_MAX) as u32,
        length: block_len_spec(n_blocks as u32, size as u32, j as u32),
    }
}

/// The state of block `k` after requesting at most `n` blocks at time `now`: the open
/// blocks become in process, in order, until `n` of them are.
pub open spec fn after_requesting(blocks: Seq<BlockState>, now: u64, n: nat, k: int) -> BlockState {
    if not_requested(blocks[k], now) && open_blocks(blocks, now, k).len() < n {
        BlockState::InProcess(now)
    } else {
        blocks[k]
    }
}

/// The state of a piece that was just put into the queue: its index, a zeroed buffer of the
/// piece's size, and one unrequested block per block of that size.
pub open spec fn fresh_piece(p: PieceState, torrent_info: Metainfo, piece_i: u32) -> bool {
    let size = piece_size_spec(
        torrent_info.length->Some_0,
        torrent_info.piece_length,
        torrent_info.pieces.0@.len(),
        piece_i,
    ) as nat;
    &&& p.wf()
    &&& p.piece_i == piece_i
    &&& p.buf@ == Seq::new(size, |i: int| 0u8)
    &&& p.blocks@ == Seq::new(n_blocks_spec(size), |i: int| BlockState::Unrequested)
}

/// Whether some block of the piece still has to be requested at time `now`.
pub open spec fn has_open_block(p: PieceState, now: u64) -> bool {
    exists|j: int| 0 <= j < p.blocks@.len() && not_requested(#[trigger] p.blocks@[j], now)
}

/// Whether a peer with bitfield `peer_has` can help with piece state `p` at time `now`: it
/// has the piece, and a block of it still has to be requested.
pub open spec fn wanted_from(p: PieceState, peer_has: Seq<bool>, now: u64) -> bool {
    &&& (p.piece_i as int) < peer_has.len()
    &&& peer_has[p.piece_i as int]
    &&& has_open_block(p, now)
}

/// Whether `block` lies within the piece's buffer and its first byte names a block of the
/// piece.
pub open spec fn block_fits(p: PieceState, block: ResponsePiecePayload) -> bool {
    &&& block.begin + block.block@.len() <= p.buf@.len()
    &&& (block.begin / BLOCK_MAX) < p.blocks@.len()
}

/// The buffer after writing `data` at offset `begin`.
pub open spec fn written_buf(buf: Seq<u8>, begin: int, data: Seq<u8>) -> Seq<u8> {
    buf.subrange(0, begin) + data + buf.subrange(begin + data.len(), buf.len() as int)
}

/// Whether `new` is `old` after block `block` arrived: its bytes are written into the
/// buffer and the block it starts in is finished.
pub open spec fn piece_updated(new: PieceState, old: PieceState, block: ResponsePiecePayload) -> bool {
    &&& new.piece_i == old.piece_i
    &&& new.buf@ == written_buf(old.buf@, block.begin as int, block.block@)
    &&& new.blocks@ == old.blocks@.update(
        (block.begin / BLOCK_MAX) as int,
        BlockState::Finished,
    )
}

/// Whether a piece with index `i` was put into the queue after its first `old_len` pieces.
pub open spec fn newly_queued(queue: Seq<PieceState>, old_len: int, i: int) -> bool {
    exists|q: int| old_len <= q < queue.len() && (#[trigger] queue[q]).piece_i == i as u32
}

/// Whether `q` is the first position in the queue of a piece with index `index`.
pub open spec fn first_with_index(queue: Seq<PieceState>, index: u32, q: int) -> bool {
    &&& 0 <= q < queue.len()
    &&& queue[q].piece_i == index
    &&& forall|r: int| 0 <= r < q ==> queue[r].piece_i != index
}

/// Each open block index is below `k`, and they increase.
pub proof fn lemma_open_blocks_range(blocks: Seq<BlockState>, now: u64, k: int)
    ensures
        forall|i: int|
            0 <= i < open_blocks(blocks, now, k).len() ==> 0 <= #[trigger] open_blocks(
                blocks,
                now,
                k,
            )[i] < k,
        open_blocks(blocks, now, k).len() <= if k < 0 { 0 } else { k },
    decreases k,
{
    if k > 0 {
        lemma_open_blocks_range(blocks, now, k - 1);
    }
}

/// The `k`-th open block among the first `m` is open, and `k` open blocks come before it.
pub proof fn lemma_open_blocks_index(blocks: Seq<BlockState>, now: u64, m: int, k: int)
    requires
        0 <= k < open_blocks(blocks, now, m).len(),
    ensures
        0 <= open_blocks(blocks, now, m)[k] < m,
        not_requested(blocks[open_blocks(blocks, now, m)[k]], now),
        open_blocks(blocks, now, open_blocks(blocks, now, m)[k]).len() == k,
    decreases m,
{
    lemma_open_blocks_range(blocks, now, m);
    if m > 0 {
        let prev = open_blocks(blocks, now, m - 1);
        if k < prev.len() {
            lemma_open_blocks_index(blocks, now, m - 1, k);
        }
    }
}

/// An open block among the first `k` makes the list of open blocks non-empty.
pub proof fn lemma_open_blocks_nonempty(blocks: Seq<BlockState>, now: u64, k: int, j: int)
    requires
        0 <= j < k,
        not_requested(blocks[j], now),
    ensures
        open_blocks(blocks, now, k).len() >= 1,
    decreases k,
{
    if j < k - 1 {
        lemma_open_blocks_nonempty(blocks, now, k - 1, j);
    }
}

/// A piece being downloaded: the state of each of its blocks and its bytes so far.
#[derive(Debug, Clone, PartialEq)]
pub struct PieceState {
    pub blocks: Vec<BlockState>,
    pub piece_i: u32,
    pub buf: Vec<u8>,
}

impl PieceState {
    /// One block state per block of the buffer, and a buffer that a `u32` can measure.
    pub open spec fn wf(&self) -> bool {
        &&& self.buf@.len() <= u32::MAX
        &&& self.blocks@.len() == n_blocks_spec(self.buf@.len())
    }

    /// Whether every block is finished.
    pub open spec fn complete(&self) -> bool {
        forall|j: int| 0 <= j < self.blocks@.len() ==> self.blocks@[j] == BlockState::Finished
    }

    /// A piece with all blocks still to request and a zeroed buffer of the piece's size.
    pub fn new(torrent_info: &Metainfo, piece_i: u32) -> (res: Self)
        requires
            torrent_info.length is Some,
            torrent_info.piece_length != 0,
            1 <= torrent_info.pieces.0@.len() <= u32::MAX,
        ensures
            fresh_piece(res, *torrent_info, piece_i),
    {
        let piece_size = get_piece_size(torrent_info, piece_i);
        let n_blocks: u32 = piece_size / BLOCK_MAX + if piece_size % BLOCK_MAX != 0 {
            1
        } else {
            0
        };
        proof {
            assert(n_blocks == n_blocks_spec(piece_size as nat)) by (nonlinear_arith)
                requires
                    piece_size % 16384 != 0 ==> n_blocks == piece_size / 16384 + 1,
                    piece_size % 16384 == 0 ==> n_blocks == piece_size / 16384,
            ;
        }
        let blocks = vec![BlockState::Unrequested; n_blocks as usize];
        let buf = vec![0u8; piece_size as usize];
        let res = PieceState { blocks, piece_i, buf };
        proof {
            assert(res.buf@ =~= Seq::new(piece_size as nat, |i: int| 0u8));
            assert(res.blocks@ =~= Seq::new(n_blocks as nat, |i: int| BlockState::Unrequested));
        }
        res
    }


    /// Marks at most `n` of the blocks that still have to be requested at time `now` as
    /// requested, in order, and returns a request for each of them.
    pub fn prepare_requests_for_piece(&mut self, n: usize, now: u64) -> (res: Vec<RequestPiecePayload>)
        requires
            old(self).wf(),
        ensures
            final(self).wf(),
            final(self).piece_i == old(self).piece_i,
            final(self).buf@ == old(self).buf@,
            final(self).blocks@.len() == old(self).blocks@.len(),
            forall|k: int|
                0 <= k < old(self).blocks@.len() ==> #[trigger] final(self).blocks@[k]
                    == after_requesting(old(self).blocks@, now, n as nat, k),
            res@.len() == vstd::math::min(
                n as int,
                open_blocks(old(self).blocks@, now, old(self).blocks@.len() as int).len() as int,
            ),
            forall|i: int|
                0 <= i < res@.len() ==> #[trigger] res@[i] == block_request(
                    old(self).piece_i,
                    old(self).blocks@.len(),
                    old(self).buf@.len(),
                    open_blocks(old(self).blocks@, now, old(self).blocks@.len() as int)[i],
                ),
    {
        let n_blocks = self.blocks.len() as u32;
        let piece_size = self.buf.len() as u32;
        let ghost old_blocks = self.blocks@;
        let mut requests: Vec<RequestPiecePayload> = Vec::new();
        let mut j: usize = 0;
        while j < self.blocks.len()
            invariant
                self.wf(),
                self.piece_i == old(self).piece_i,
                self.buf@ == old(self).buf@,
                old_blocks == old(self).blocks@,
                n_blocks == old_blocks.len(),
                piece_size == self.buf@.len(),
                self.blocks@.len() == old_blocks.len(),
                j <= old_blocks.len(),
                requests@.len() == vstd::math::min(
                    n as int,
                    open_blocks(old_blocks, now, j as int).len() as int,
                ),
                forall|i: int|
                    0 <= i < requests@.len() ==> #[trigger] requests@[i] == block_request(
                        self.piece_i,
                        old_blocks.len(),
                        self.buf@.len(),
                        open_blocks(old_blocks, now, j as int)[i],
                    ),
                forall|k: int|
                    0 <= k < j ==> #[trigger] self.blocks@[k] == after_requesting(
                        old_blocks,
                        now,
                        n as nat,
                        k,
                    ),
                forall|k: int| j <= k < old_blocks.len() ==> #[trigger] self.blocks@[k] == old_blocks[k],
            decreases old_blocks.len() - j,
        {
            let ghost prev = open_blocks(old_blocks, now, j as int);
            assert(open_blocks(old_blocks, now, j + 1) == if not_requested(old_blocks[j as int], now) {
                prev.push(j as int)
            } else {
                prev
            });
            if requests.len() < n && self.blocks[j].is_not_requested(now) {
                proof {
                    assert(j * 16384 < u32::MAX) by (nonlinear_arith)
                        requires
                            j < n_blocks,
                            n_blocks == (piece_size + 16384 - 1) / 16384,
                            piece_size <= u32::MAX,
                    ;
                }
                let begin = (j as u32) * BLOCK_MAX;
                let length = get_block_len(n_blocks, piece_size, j as u32);
                requests.push(RequestPiecePayload::new(self.piece_i, begin, length));
                self.blocks.set(j, BlockState::InProcess(now));
            }
            j = j + 1;
        }
        requests
    }


    /// Whether some block still has to be requested at time `now`.
    pub fn has_open_block(&self, now: u64) -> (res: bool)
        ensures
            res == has_open_block(*self, now),
    {
        let mut j: usize = 0;
        while j < self.blocks.len()
            invariant
                j <= self.blocks@.len(),
                forall|k: int| 0 <= k < j ==> !not_requested(#[trigger] self.blocks@[k], now),
            decreases self.blocks@.len() - j,
        {
            if self.blocks[j].is_not_requested(now) {
                return true;
            }
            j = j + 1;
        }
        false
    }

    /// Writes an arrived block into the buffer and marks the block it starts in finished.
    pub fn update_state(&mut self, block: &ResponsePiecePayload)
        requires
            old(self).wf(),
            block_fits(*old(self), *block),
        ensures
            final(self).wf(),
            piece_updated(*final(self), *old(self), *block),
    {
        let begin = block.begin as usize;
        let ghost old_buf = self.buf@;
        let mut i: usize = 0;
        while i < block.block.len()
            invariant
                begin == block.begin,
                block_fits(*old(self), *block),
                old(self).wf(),
                old_buf == old(self).buf@,
                self.blocks@ == old(self).blocks@,
                self.piece_i == old(self).piece_i,
                begin + block.block@.len() <= old_buf.len(),
                self.buf@.len() == old_buf.len(),
                i <= block.block@.len(),
                forall|k: int| 0 <= k < begin ==> #[trigger] self.buf@[k] == old_buf[k],
                forall|k: int| 0 <= k < i ==> #[trigger] self.buf@[begin + k] == block.block@[k],
                forall|k: int| begin + i <= k < old_buf.len() ==> #[trigger] self.buf@[k] == old_buf[k],
            decreases block.block@.len() - i,
        {
            self.buf.set(begin + i, block.block[i]);
            i = i + 1;
        }
        proof {
            let w = written_buf(old_buf, begin as int, block.block@);
            assert forall|k: int| 0 <= k < old_buf.len() implies self.buf@[k] == w[k] by {
                if k < begin {
                } else if k < begin + block.block@.len() {
                    assert(self.buf@[begin + (k - begin)] == block.block@[k - begin]);
                } else {
                }
            }
            assert(self.buf@ =~= w);
        }
        let block_i = block.begin / BLOCK_MAX;
        self.blocks.set(block_i as usize, BlockState::Finished);
    }

    /// Whether the SHA-1 digest of the buffer is the piece's hash in the metainfo.
    pub fn check_hash(&self, torrent_info: &Metainfo) -> (res: bool)
        requires
            (self.piece_i as int) < torrent_info.pieces.0@.len(),
        ensures
            res == (sha1_of(self.buf@) == torrent_info.pieces.0@[self.piece_i as int]@),
    {
        let hash = sha1_digest(self.buf.as_slice());
        let torrent_hash = torrent_info.pieces.0[self.piece_i as usize];
        let res = bytes20_eq(&hash, &torrent_hash);
        proof {
            if sha1_of(self.buf@) == torrent_hash@ {
                assert(hash =~= torrent_hash);
            }
        }
        res
    }

    /// Whether every block is finished.
    pub fn is_complete(&self) -> (res: bool)
        ensures
            res == self.complete(),
    {
        let mut j: usize = 0;
        while j < self.blocks.len()
            invariant
                j <= self.blocks@.len(),
                forall|k: int| 0 <= k < j ==> self.blocks@[k] == BlockState::Finished,
            decreases self.blocks@.len() - j,
        {
            if !self.blocks[j].is_finished() {
                return false;
            }
            j = j + 1;
        }
        true
    }
}


/// The pieces being downloaded, in the order they were selected.
#[derive(Debug)]
pub struct DownloadQueue(pub Vec<PieceState>);

impl DownloadQueue {
    /// Every piece state in the queue is well formed.
    pub open spec fn wf(&self) -> bool {
        forall|q: int| 0 <= q < self.0@.len() ==> (#[trigger] self.0@[q]).wf()
    }

    /// An empty queue.
    pub fn new() -> (res: Self)
        ensures
            res.0@.len() == 0,
            res.wf(),
    {
        DownloadQueue(Vec::new())
    }

    /// The position of the first piece in the queue that the peer has and that has a block
    /// to request at time `now`, if there is one.
    pub fn get_piece_for_peer(&self, peer_has: &[bool], now: u64) -> (res: Option<usize>)
        ensures
            res is None <==> forall|q: int|
                0 <= q < self.0@.len() ==> !wanted_from(#[trigger] self.0@[q], peer_has@, now),
            res matches Some(q) ==> q < self.0@.len() && wanted_from(self.0@[q as int], peer_has@, now)
                && forall|r: int| 0 <= r < q ==> !wanted_from(#[trigger] self.0@[r], peer_has@, now),
    {
        let mut q: usize = 0;
        while q < self.0.len()
            invariant
                q <= self.0@.len(),
                forall|r: int| 0 <= r < q ==> !wanted_from(#[trigger] self.0@[r], peer_has@, now),
            decreases self.0@.len() - q,
        {
            let piece = &self.0[q];
            let i = piece.piece_i as usize;
            if i < peer_has.len() && peer_has[i] && piece.has_open_block(now) {
                return Some(q);
            }
            q = q + 1;
        }
        None
    }

    /// Appends a fresh piece state for each of `pieces`, in order.
    pub fn add_pieces_to_queue(&mut self, pieces: Vec<u32>, metainfo: &Metainfo)
        requires
            old(self).wf(),
            metainfo.length is Some,
            metainfo.piece_length != 0,
            1 <= metainfo.pieces.0@.len() <= u32::MAX,
        ensures
            final(self).wf(),
            final(self).0@.len() == old(self).0@.len() + pieces@.len(),
            forall|q: int| 0 <= q < old(self).0@.len() ==> #[trigger] final(self).0@[q] == old(self).0@[q],
            forall|i: int|
                0 <= i < pieces@.len() ==> fresh_piece(
                    #[trigger] final(self).0@[old(self).0@.len() + i],
                    *metainfo,
                    pieces@[i],
                ),
    {
        let mut i: usize = 0;
        while i < pieces.len()
            invariant
                self.wf(),
                i <= pieces@.len(),
                metainfo.length is Some,
                metainfo.piece_length != 0,
                1 <= metainfo.pieces.0@.len() <= u32::MAX,
                self.0@.len() == old(self).0@.len() + i,
                forall|q: int| 0 <= q < old(self).0@.len() ==> #[trigger] self.0@[q] == old(self).0@[q],
                forall|k: int|
                    0 <= k < i ==> fresh_piece(
                        #[trigger] self.0@[old(self).0@.len() + k],
                        *metainfo,
                        pieces@[k],
                    ),
            decreases pieces@.len() - i,
        {
            let piece_state = PieceState::new(metainfo, pieces[i]);
            self.0.push(piece_state);
            proof {
                assert(self.0@[old(self).0@.len() + i as int] == piece_state);
            }
            i = i + 1;
        }
    }

    /// The first position of a piece with index `index` in the queue.
    pub fn position_of(&self, index: u32) -> (res: Option<usize>)
        ensures
            res is None ==> forall|q: int| 0 <= q < self.0@.len() ==> self.0@[q].piece_i != index,
            res matches Some(q) ==> first_with_index(self.0@, index, q as int),
    {
        let mut q: usize = 0;
        while q < self.0.len()
            invariant
                q <= self.0@.len(),
                forall|r: int| 0 <= r < q ==> self.0@[r].piece_i != index,
            decreases self.0@.len() - q,
        {
            if self.0[q].piece_i == index {
                return Some(q);
            }
            q = q + 1;
        }
        None
    }

    /// Whether an arrived block can be written: no piece in the queue has its index, or it
    /// lies within the first piece that has.
    pub fn accepts_block(&self, block: &ResponsePiecePayload) -> (res: bool)
        ensures
            res == forall|q: int|
                #[trigger] first_with_index(self.0@, block.index, q) ==> block_fits(self.0@[q], *block),
    {
        let mut q: usize = 0;
        while q < self.0.len()
            invariant
                q <= self.0@.len(),
                forall|r: int| 0 <= r < q ==> self.0@[r].piece_i != block.index,
            decreases self.0@.len() - q,
        {
            if self.0[q].piece_i == block.index {
                assert(first_with_index(self.0@, block.index, q as int));
                let p = &self.0[q];
                let fits = (block.begin as usize) <= p.buf.len() && block.block.len() <= p.buf.len()
                    - block.begin as usize && ((block.begin / BLOCK_MAX) as usize) < p.blocks.len();
                proof {
                    assert forall|r: int| #[trigger] first_with_index(self.0@, block.index, r) implies r
                        == q by {
                        if r < q {
                        } else if r > q {
                            assert(self.0@[q as int].piece_i == block.index);
                        }
                    }
                }
                return fits;
            }
            q = q + 1;
        }
        true
    }

    /// Writes an arrived block into the first piece of the queue with its index. When that
    /// piece is then complete, it leaves the queue (the last piece takes its place) and is
    /// returned; a block of a piece not in the queue is ignored.
    pub fn update_piece_state(&mut self, block: ResponsePiecePayload) -> (res: Option<PieceState>)
        requires
            old(self).wf(),
            forall|q: int|
                #[trigger] first_with_index(old(self).0@, block.index, q) ==> block_fits(
                    old(self).0@[q],
                    block,
                ),
        ensures
            final(self).wf(),
            (forall|q: int| 0 <= q < old(self).0@.len() ==> old(self).0@[q].piece_i != block.index)
                ==> res is None && final(self).0@ == old(self).0@,
            forall|q: int| #[trigger]
                first_with_index(old(self).0@, block.index, q) ==> match res {
                    Some(p) => {
                        &&& piece_updated(p, old(self).0@[q], block)
                        &&& p.complete()
                        &&& p.wf()
                        &&& final(self).0@ == old(self).0@.update(q, old(self).0@.last()).drop_last()
                    },
                    None => {
                        &&& final(self).0@.len() == old(self).0@.len()
                        &&& piece_updated(final(self).0@[q], old(self).0@[q], block)
                        &&& !final(self).0@[q].complete()
                        &&& forall|r: int|
                            0 <= r < old(self).0@.len() && r != q ==> #[trigger] final(self).0@[r]
                                == old(self).0@[r]
                    },
                },
    {
        let q = match self.position_of(block.index) {
            Some(q) => q,
            None => return None,
        };
        proof {
            assert forall|r: int| #[trigger] first_with_index(old(self).0@, block.index, r) implies r
                == q by {
                if r > q {
                    assert(self.0@[q as int].piece_i == block.index);
                }
            }
        }
        self.0[q].update_state(&block);
        if self.0[q].is_complete() {
            let ghost mid = self.0@;
            let p = self.0.swap_remove(q);
            proof {
                assert(self.0@ =~= old(self).0@.update(q as int, old(self).0@.last()).drop_last());
            }
            Some(p)
        } else {
            None
        }
    }
}


/// Whether request `r` is for a block that is in process since `now` in a piece of the
/// queue, and is the request for that block.
pub open spec fn requested_in(queue: Seq<PieceState>, r: RequestPiecePayload, now: u64) -> bool {
    exists|q: int, j: int|
        0 <= q < queue.len() && 0 <= j < queue[q].blocks@.len() && #[trigger] queue[q].blocks@[j]
            == BlockState::InProcess(now) && r == #[trigger] block_request(
            queue[q].piece_i,
            queue[q].blocks@.len(),
            queue[q].buf@.len(),
            j,
        )
}

/// Whether `new` keeps the pieces of `old` at their positions, with their indices and
/// bytes, and only moves blocks of them that were open at `now` into process since `now`.
pub open spec fn queue_extends(old: Seq<PieceState>, new: Seq<PieceState>, now: u64) -> bool {
    &&& old.len() <= new.len()
    &&& forall|q: int|
        0 <= q < old.len() ==> {
            &&& (#[trigger] new[q]).piece_i == old[q].piece_i
            &&& new[q].buf@ == old[q].buf@
            &&& new[q].blocks@.len() == old[q].blocks@.len()
            &&& forall|j: int|
                0 <= j < old[q].blocks@.len() ==> #[trigger] new[q].blocks@[j] == old[q].blocks@[j]
                    || (not_requested(old[q].blocks@[j], now) && new[q].blocks@[j]
                    == BlockState::InProcess(now))
        }
}

/// A position with index `index` makes a first such position exist.
pub proof fn lemma_first_index_exists(queue: Seq<PieceState>, index: u32, q: int)
    requires
        0 <= q < queue.len(),
        queue[q].piece_i == index,
    ensures
        exists|r: int| #[trigger] first_with_index(queue, index, r),
    decreases q,
{
    if forall|r: int| 0 <= r < q ==> queue[r].piece_i != index {
        assert(first_with_index(queue, index, q));
    } else {
        let r = choose|r: int| 0 <= r < q && queue[r].piece_i == index;
        lemma_first_index_exists(queue, index, r);
    }
}

/// Keeps the pieces being downloaded; the file they go to is the caller's.
#[derive(Debug)]
pub struct PieceManager {
    pub download_queue: DownloadQueue,
}

impl PieceManager {
    /// A manager with an empty download queue.
    pub fn build() -> (res: Self)
        ensures
            res.download_queue.0@.len() == 0,
            res.download_queue.wf(),
    {
        PieceManager { download_queue: DownloadQueue::new() }
    }

    /// `prepare_next_blocks` at the current time of the system clock.
    pub fn prepare_next_blocks_now(
        &mut self,
        piece_selector: &mut PieceSelector,
        n: usize,
        peer_id: &PeerId,
        metainfo: &Metainfo,
    ) -> (res: Option<Vec<RequestPiecePayload>>)
        requires
            old(self).download_queue.wf(),
            old(piece_selector).wf(),
            metainfo.length is Some,
            metainfo.piece_length != 0,
            1 <= metainfo.pieces.0@.len() <= u32::MAX,
        ensures
            exists|now: u64|
                Self::blocks_prepared(
                    *old(self),
                    *final(self),
                    *old(piece_selector),
                    *final(piece_selector),
                    n,
                    *peer_id,
                    now,
                    res,
                ),
    {
        let now = now_ms();
        self.prepare_next_blocks(piece_selector, n, peer_id, metainfo, now)
    }

    /// Writes an arrived block into its piece; returns the piece when that made it complete
    /// (it then leaves the queue, the last piece taking its place). A block of a piece that
    /// is not in the queue is ignored.
    pub fn write_block(&mut self, block: ResponsePiecePayload) -> (res: Option<PieceState>)
        requires
            old(self).download_queue.wf(),
            forall|q: int|
                #[trigger] first_with_index(old(self).download_queue.0@, block.index, q) ==> block_fits(
                    old(self).download_queue.0@[q],
                    block,
                ),
        ensures
            final(self).download_queue.wf(),
            (forall|q: int|
                0 <= q < old(self).download_queue.0@.len() ==> old(self).download_queue.0@[q].piece_i
                    != block.index) ==> res is None && final(self).download_queue.0@
                == old(self).download_queue.0@,
            forall|q: int| #[trigger]
                first_with_index(old(self).download_queue.0@, block.index, q) ==> match res {
                    Some(p) => {
                        &&& piece_updated(p, old(self).download_queue.0@[q], block)
                        &&& p.complete()
                        &&& p.wf()
                        &&& final(self).download_queue.0@ == old(self).download_queue.0@.update(
                            q,
                            old(self).download_queue.0@.last(),
                        ).drop_last()
                    },
                    None => {
                        &&& final(self).download_queue.0@.len() == old(self).download_queue.0@.len()
                        &&& piece_updated(final(self).download_queue.0@[q], old(self).download_queue.0@[q], block)
                        &&& !final(self).download_queue.0@[q].complete()
                        &&& forall|r: int|
                            0 <= r < old(self).download_queue.0@.len() && r != q
                                ==> #[trigger] final(self).download_queue.0@[r] == old(self).download_queue.0@[r]
                    },
                },
    {
        self.download_queue.update_piece_state(block)
    }

    /// What a complete piece changes of our bitfield `have`: `None` when its bytes do not
    /// hash to the piece's hash (the caller gives it up in the selector, see
    /// [`PieceSelector::release_piece`], so that it is selected again), else `have`
    /// with the piece set.
    pub fn checked_bitfield(
        piece_selector: &PieceSelector,
        piece_state: &PieceState,
        metainfo: &Metainfo,
    ) -> (res: Option<Vec<bool>>)
        requires
            (piece_state.piece_i as int) < metainfo.pieces.0@.len(),
            (piece_state.piece_i as int) < piece_selector.own().len(),
        ensures
            sha1_of(piece_state.buf@) != metainfo.pieces.0@[piece_state.piece_i as int]@ ==> res is None,
            sha1_of(piece_state.buf@) == metainfo.pieces.0@[piece_state.piece_i as int]@ ==> res
                is Some && res->Some_0@ == piece_selector.own().update(
                piece_state.piece_i as int,
                true,
            ),
    {
        if !piece_state.check_hash(metainfo) {
            return None;
        }
        let mut new_bitfield = piece_selector.get_have().clone();
        proof {
            assert(new_bitfield@ == piece_selector.own());
        }
        new_bitfield.set(piece_state.piece_i as usize, true);
        Some(new_bitfield)
    }

    /// What preparing at most `n` requests for peer `peer_id` at time `now` does: the manager
    /// goes from `before` to `after` and the selector from `sel_before` to `sel_after`, and
    /// `res` holds the requests. Our bitfield, the peers and the rarities stay; queued pieces
    /// keep their place and only blocks open at `now` become requested at `now`; each request
    /// is for such a block of a piece the peer has; when fewer than `n` came, no queued
    /// piece has an open block the peer could send and the selector has no piece left for the
    /// peer; and nothing comes only when neither the queue nor the selector had anything the
    /// peer could send.
    pub open spec fn blocks_prepared(
        before: Self,
        after: Self,
        sel_before: PieceSelector,
        sel_after: PieceSelector,
        n: usize,
        peer_id: PeerId,
        now: u64,
        res: Option<Vec<RequestPiecePayload>>,
    ) -> bool {
        &&& after.download_queue.wf()
        &&& sel_after.wf()
        &&& sel_after.own() == sel_before.own()
        &&& sel_after.peers() == sel_before.peers()
        &&& sel_after.rarity() == sel_before.rarity()
        &&& queue_extends(before.download_queue.0@, after.download_queue.0@, now)
        &&& peer_bits(sel_before.peers(), peer_id) is None ==> res is None
            && after.download_queue.0@ == before.download_queue.0@
            && sel_after.queue() == sel_before.queue()
            && sel_after.in_flight() == sel_before.in_flight()
        &&& res matches Some(v) ==> 1 <= v@.len() <= n && forall|i: int|
            0 <= i < v@.len() ==> {
                &&& requested_in(after.download_queue.0@, #[trigger] v@[i], now)
                &&& (v@[i].index as int) < peer_bits(sel_before.peers(), peer_id)->Some_0.len()
                &&& peer_bits(sel_before.peers(), peer_id)->Some_0[v@[i].index as int]
            }
        &&& peer_bits(sel_before.peers(), peer_id) is Some && n > 0 && (res is None || res->Some_0@.len() < n) ==> forall|q: int|
            0 <= q < after.download_queue.0@.len() ==> !wanted_from(
                #[trigger] after.download_queue.0@[q],
                peer_bits(sel_before.peers(), peer_id)->Some_0,
                now,
            )
        &&& peer_bits(sel_before.peers(), peer_id) is Some && n > 0 && (res is None || res->Some_0@.len() < n) ==> forall|i: int|
            !eligible(
                sel_after.rarity(),
                sel_after.own(),
                sel_after.in_flight(),
                peer_bits(sel_before.peers(), peer_id)->Some_0,
                i,
            )
        &&& sel_after.in_flight().len() == sel_before.in_flight().len()
        &&& forall|i: int|
            0 <= i < sel_before.in_flight().len() ==> #[trigger] sel_after.in_flight()[i] == (
            sel_before.in_flight()[i] || newly_queued(
                after.download_queue.0@,
                before.download_queue.0@.len() as int,
                i,
            ))
        &&& peer_bits(sel_before.peers(), peer_id) is Some && n > 0 && res is None ==> {
            &&& forall|i: int|
                !eligible(
                    sel_before.rarity(),
                    sel_before.own(),
                    sel_before.in_flight(),
                    peer_bits(sel_before.peers(), peer_id)->Some_0,
                    i,
                )
            &&& forall|q: int|
                0 <= q < before.download_queue.0@.len() ==> !wanted_from(
                    #[trigger] before.download_queue.0@[q],
                    peer_bits(sel_before.peers(), peer_id)->Some_0,
                    now,
                )
        }
    }

    /// Prepares at most `n` block requests for peer `peer_id` at time `now`: blocks of the
    /// first queued piece the peer can help with, then of the next, and when none is left,
    /// of pieces newly selected for the peer and appended to the queue. `None` when there is
    /// nothing to request.
    pub fn prepare_next_blocks(
        &mut self,
        piece_selector: &mut PieceSelector,
        n: usize,
        peer_id: &PeerId,
        metainfo: &Metainfo,
        now: u64,
    ) -> (res: Option<Vec<RequestPiecePayload>>)
        requires
            old(self).download_queue.wf(),
            old(piece_selector).wf(),
            metainfo.length is Some,
            metainfo.piece_length != 0,
            1 <= metainfo.pieces.0@.len() <= u32::MAX,
        ensures
            Self::blocks_prepared(
                *old(self),
                *final(self),
                *old(piece_selector),
                *final(piece_selector),
                n,
                *peer_id,
                now,
                res,
            ),
    {
        let ghost bits = peer_bits(old(piece_selector).peers(), *peer_id);
        let mut requests: Vec<RequestPiecePayload> = Vec::new();
        let mut exhausted = false;
        let ghost mut added = false;
        while requests.len() < n && !exhausted
            invariant
                self.download_queue.wf(),
                piece_selector.wf(),
                piece_selector.own() == old(piece_selector).own(),
                piece_selector.peers() == old(piece_selector).peers(),
                piece_selector.rarity() == old(piece_selector).rarity(),
                bits == peer_bits(piece_selector.peers(), *peer_id),
                metainfo.length is Some,
                metainfo.piece_length != 0,
                1 <= metainfo.pieces.0@.len() <= u32::MAX,
                requests@.len() <= n,
                queue_extends(old(self).download_queue.0@, self.download_queue.0@, now),
                bits is None ==> requests@.len() == 0 && self.download_queue.0@
                    == old(self).download_queue.0@ && piece_selector.queue() == old(
                    piece_selector,
                ).queue() && piece_selector.in_flight() == old(piece_selector).in_flight(),
                forall|i: int|
                    0 <= i < requests@.len() ==> {
                        &&& requested_in(self.download_queue.0@, #[trigger] requests@[i], now)
                        &&& (requests@[i].index as int) < bits->Some_0.len()
                        &&& bits->Some_0[requests@[i].index as int]
                    },
                exhausted && bits is Some ==> forall|q: int|
                    0 <= q < self.download_queue.0@.len() ==> !wanted_from(
                        #[trigger] self.download_queue.0@[q],
                        bits->Some_0,
                        now,
                    ),
                exhausted && bits is Some && n > 0 ==> forall|i: int|
                    !eligible(piece_selector.rarity(), piece_selector.own(), piece_selector.in_flight(), bits->Some_0, i),
                requests@.len() == 0 && !added ==> self.download_queue.0@ == old(self).download_queue.0@
                    && piece_selector.in_flight() == old(piece_selector).in_flight(),
                added ==> bits is Some,
                piece_selector.in_flight().len() == old(piece_selector).in_flight().len(),
                forall|i: int|
                    0 <= i < old(piece_selector).in_flight().len() ==> #[trigger] piece_selector.in_flight()[i] == (
                    old(piece_selector).in_flight()[i] || newly_queued(
                        self.download_queue.0@,
                        old(self).download_queue.0@.len() as int,
                        i,
                    )),
                added && requests@.len() == 0 ==> exists|q: int|
                    0 <= q < self.download_queue.0@.len() && wanted_from(
                        #[trigger] self.download_queue.0@[q],
                        bits->Some_0,
                        now,
                    ),
            decreases n - requests@.len(), piece_selector.queue().len(), if exhausted { 0int } else { 1int },
        {
            let peer_has = match piece_selector.get_peer_has(peer_id) {
                Some(b) => b,
                None => {
                    exhausted = true;
                    continue;
                },
            };
            match self.download_queue.get_piece_for_peer(peer_has.as_slice(), now) {
                Some(q) => {
                    let ghost queue0 = self.download_queue.0@;
                    let ghost reqs0 = requests@;
                    let ghost p0 = queue0[q as int];
                    proof {
                        let j = choose|j: int|
                            0 <= j < p0.blocks@.len() && not_requested(#[trigger] p0.blocks@[j], now);
                        lemma_open_blocks_nonempty(p0.blocks@, now, p0.blocks@.len() as int, j);
                        lemma_open_blocks_range(p0.blocks@, now, p0.blocks@.len() as int);
                    }
                    let mut more = self.download_queue.0[q].prepare_requests_for_piece(
                        n - requests.len(),
                        now,
                    );
                    let ghost more0 = more@;
                    requests.append(&mut more);
                    proof {
                        let queue1 = self.download_queue.0@;
                        assert forall|i: int|
                            0 <= i < old(piece_selector).in_flight().len() implies newly_queued(
                            queue1,
                            old(self).download_queue.0@.len() as int,
                            i,
                        ) == newly_queued(queue0, old(self).download_queue.0@.len() as int, i) by {
                            if newly_queued(queue1, old(self).download_queue.0@.len() as int, i) {
                                let w = choose|w: int|
                                    old(self).download_queue.0@.len() <= w < queue1.len() && (#[trigger] queue1[w]).piece_i == i as u32;
                                assert(queue0[w].piece_i == queue1[w].piece_i);
                            }
                            if newly_queued(queue0, old(self).download_queue.0@.len() as int, i) {
                                let w = choose|w: int|
                                    old(self).download_queue.0@.len() <= w < queue0.len() && (#[trigger] queue0[w]).piece_i == i as u32;
                                assert(queue0[w].piece_i == queue1[w].piece_i);
                            }
                        }
                        assert forall|qq: int| 0 <= qq < queue1.len() implies (#[trigger] queue1[qq]).wf() by {
                            if qq != q {
                                assert(queue1[qq] == queue0[qq]);
                            }
                        }
                        assert forall|qq: int| 0 <= qq < old(self).download_queue.0@.len() implies {
                            &&& (#[trigger] queue1[qq]).piece_i == old(self).download_queue.0@[qq].piece_i
                            &&& queue1[qq].buf@ == old(self).download_queue.0@[qq].buf@
                            &&& queue1[qq].blocks@.len() == old(self).download_queue.0@[qq].blocks@.len()
                            &&& forall|j: int|
                                0 <= j < old(self).download_queue.0@[qq].blocks@.len() ==> #[trigger] queue1[qq].blocks@[j]
                                    == old(self).download_queue.0@[qq].blocks@[j] || (not_requested(
                                    old(self).download_queue.0@[qq].blocks@[j],
                                    now,
                                ) && queue1[qq].blocks@[j] == BlockState::InProcess(now))
                        } by {
                            if qq == q {
                                assert forall|j: int|
                                    0 <= j < old(self).download_queue.0@[qq].blocks@.len() implies #[trigger] queue1[qq].blocks@[j]
                                        == old(self).download_queue.0@[qq].blocks@[j] || (not_requested(
                                        old(self).download_queue.0@[qq].blocks@[j],
                                        now,
                                    ) && queue1[qq].blocks@[j] == BlockState::InProcess(now)) by {
                                    assert(queue1[qq].blocks@[j] == after_requesting(p0.blocks@, now, (n - reqs0.len()) as nat, j));
                                    assert(queue0[qq].blocks@[j] == old(self).download_queue.0@[qq].blocks@[j]
                                        || (not_requested(old(self).download_queue.0@[qq].blocks@[j], now)
                                        && queue0[qq].blocks@[j] == BlockState::InProcess(now)));
                                }
                            } else {
                                assert(queue1[qq] == queue0[qq]);
                            }
                        }
                        assert forall|i: int| 0 <= i < requests@.len() implies {
                            &&& requested_in(queue1, #[trigger] requests@[i], now)
                            &&& (requests@[i].index as int) < bits->Some_0.len()
                            &&& bits->Some_0[requests@[i].index as int]
                        } by {
                            if i < reqs0.len() {
                                assert(requests@[i] == reqs0[i]);
                                assert(requested_in(queue0, reqs0[i], now));
                                let (rq, rj) = choose|rq: int, rj: int|
                                    0 <= rq < queue0.len() && 0 <= rj < queue0[rq].blocks@.len()
                                        && #[trigger] queue0[rq].blocks@[rj] == BlockState::InProcess(now)
                                        && reqs0[i] == #[trigger] block_request(
                                        queue0[rq].piece_i,
                                        queue0[rq].blocks@.len(),
                                        queue0[rq].buf@.len(),
                                        rj,
                                    );
                                if rq == q {
                                    assert(queue1[rq].blocks@[rj] == after_requesting(p0.blocks@, now, (n - reqs0.len()) as nat, rj));
                                } else {
                                    assert(queue1[rq] == queue0[rq]);
                                }
                                assert(queue1[rq].blocks@[rj] == BlockState::InProcess(now));
                            } else {
                                let k = i - reqs0.len();
                                assert(requests@[i] == more0[k]);
                                let op = open_blocks(p0.blocks@, now, p0.blocks@.len() as int);
                                let j = op[k];
                                assert(0 <= j < p0.blocks@.len());
                                assert(open_blocks(p0.blocks@, now, j).len() == k) by {
                                    lemma_open_blocks_index(p0.blocks@, now, p0.blocks@.len() as int, k);
                                }
                                assert(not_requested(p0.blocks@[j], now)) by {
                                    lemma_open_blocks_index(p0.blocks@, now, p0.blocks@.len() as int, k);
                                }
                                assert(queue1[q as int].blocks@[j] == after_requesting(p0.blocks@, now, (n - reqs0.len()) as nat, j));
                                assert(queue1[q as int].blocks@[j] == BlockState::InProcess(now));
                                assert(more0[k] == block_request(p0.piece_i, p0.blocks@.len(), p0.buf@.len(), j));
                            }
                        }
                    }
                },
                None => {
                    let ghost queue_before = piece_selector.queue();
                    let ghost in_flight_before = piece_selector.in_flight();
                    match piece_selector.select_pieces_for_peer(peer_id, MAX_PIECES_IN_PARALLEL) {
                        Some(pieces) => {
                            assert(piece_selector.queue().len() < queue_before.len());
                            let ghost queue0 = self.download_queue.0@;
                            let ghost pieces0 = pieces@;
                            let ghost pieces_v = pieces;
                            self.download_queue.add_pieces_to_queue(pieces, metainfo);
                            proof {
                                let queue1 = self.download_queue.0@;
                                let ol = old(self).download_queue.0@.len() as int;
                                assert forall|i: int|
                                    0 <= i < old(piece_selector).in_flight().len() implies #[trigger] piece_selector.in_flight()[i] == (
                                    old(piece_selector).in_flight()[i] || newly_queued(queue1, ol, i)) by {
                                    if newly_queued(queue0, ol, i) {
                                        let w = choose|w: int| ol <= w < queue0.len() && (#[trigger] queue0[w]).piece_i == i as u32;
                                        assert(queue1[w] == queue0[w]);
                                    }
                                    if crate::piece_selector::taken(Some(pieces_v), i) {
                                        let k = choose|k: int| 0 <= k < pieces0.len() && pieces0[k] == i as u32;
                                        assert(fresh_piece(queue1[queue0.len() + k], *metainfo, pieces0[k]));
                                        assert(queue1[queue0.len() + k].piece_i == i as u32);
                                    }
                                    if newly_queued(queue1, ol, i) {
                                        let w = choose|w: int| ol <= w < queue1.len() && (#[trigger] queue1[w]).piece_i == i as u32;
                                        if w >= queue0.len() {
                                            let k = w - queue0.len();
                                            assert(fresh_piece(queue1[queue0.len() + k], *metainfo, pieces0[k]));
                                            assert(pieces0[k] == i as u32);
                                            assert(pieces0.contains(i as u32));
                                        } else {
                                            assert(queue1[w] == queue0[w]);
                                        }
                                    }
                                }
                                added = true;
                                assert(bits == peer_bits(piece_selector.peers(), *peer_id));
                                assert(pieces0.len() >= 1);
                                let p = self.download_queue.0@[queue0.len() + 0int];
                                assert(fresh_piece(p, *metainfo, pieces0[0]));
                                assert(eligible(
                                    old(piece_selector).rarity(),
                                    old(piece_selector).own(),
                                    in_flight_before,
                                    bits->Some_0,
                                    pieces0[0] as int,
                                ));
                                let size = piece_size_spec(
                                    metainfo.length->Some_0,
                                    metainfo.piece_length,
                                    metainfo.pieces.0@.len(),
                                    pieces0[0],
                                );
                                assert(size >= 1);
                                assert(n_blocks_spec(size as nat) >= 1);
                                assert(p.blocks@[0] == BlockState::Unrequested);
                                assert(not_requested(p.blocks@[0], now));
                                assert(has_open_block(p, now));
                                assert(wanted_from(self.download_queue.0@[queue0.len() as int], bits->Some_0, now));
                            }
                            proof {
                                let queue1 = self.download_queue.0@;
                                assert forall|i: int| 0 <= i < requests@.len() implies requested_in(
                                    queue1,
                                    #[trigger] requests@[i],
                                    now,
                                ) by {
                                    assert(requested_in(queue0, requests@[i], now));
                                    let (rq, rj) = choose|rq: int, rj: int|
                                        0 <= rq < queue0.len() && 0 <= rj < queue0[rq].blocks@.len()
                                            && #[trigger] queue0[rq].blocks@[rj] == BlockState::InProcess(now)
                                            && requests@[i] == #[trigger] block_request(
                                            queue0[rq].piece_i,
                                            queue0[rq].blocks@.len(),
                                            queue0[rq].buf@.len(),
                                            rj,
                                        );
                                    assert(queue1[rq] == queue0[rq]);
                                }
                                assert forall|qq: int| 0 <= qq < old(self).download_queue.0@.len() implies #[trigger] queue1[qq] == queue0[qq] by {}
                            }
                        },
                        None => {
                            proof {
                                if n > 0 {
                                    assert forall|i: int|
                                        !eligible(
                                            piece_selector.rarity(),
                                            piece_selector.own(),
                                            piece_selector.in_flight(),
                                            bits->Some_0,
                                            i,
                                        ) by {
                                        if eligible(
                                            old(piece_selector).rarity(),
                                            old(piece_selector).own(),
                                            in_flight_before,
                                            bits->Some_0,
                                            i,
                                        ) {
                                            assert(!crate::piece_selector::taken(None, i));
                                        }
                                    }
                                }
                            }
                            exhausted = true;
                        },
                    }
                },
            }
        }
        if requests.len() == 0 {
            None
        } else {
            Some(requests)
        }
    }
}


/// The bytes of the pieces that bitfield `have` lacks, for a single file of `length` bytes
/// in `n_pieces` pieces of `piece_length` bytes (the last one holding the rest).
pub open spec fn bytes_left_spec(have: Seq<bool>, length: u32, piece_length: u32, n_pieces: nat) -> int
    decreases have.len(),
{
    if have.len() == 0 {
        0
    } else {
        bytes_left_spec(have.drop_last(), length, piece_length, n_pieces) + if have.last() {
            0
        } else {
            piece_size_spec(length, piece_length, n_pieces, (have.len() - 1) as u32) as int
        }
    }
}

/// The bytes left to download, as told to a tracker: the sizes of the pieces we lack
/// added up, 0 when we have them all.
pub fn get_bytes_left_to_download(have: &[bool], metainfo: &Metainfo) -> (res: u64)
    requires
        have@.len() == metainfo.pieces.0@.len(),
        metainfo.length is Some,
        metainfo.piece_length != 0,
        1 <= metainfo.pieces.0@.len() <= u32::MAX,
    ensures
        res == bytes_left_spec(
            have@,
            metainfo.length->Some_0,
            metainfo.piece_length,
            metainfo.pieces.0@.len(),
        ),
{
    let ghost length = metainfo.length->Some_0;
    let ghost n = metainfo.pieces.0@.len();
    let mut left: u64 = 0;
    let mut i: usize = 0;
    while i < have.len()
        invariant
            i <= have@.len(),
            have@.len() == n,
            n <= u32::MAX,
            metainfo.length == Some(length),
            metainfo.piece_length != 0,
            n == metainfo.pieces.0@.len(),
            1 <= n,
            left == bytes_left_spec(have@.subrange(0, i as int), length, metainfo.piece_length, n),
            left <= i * 4294967295,
        decreases have@.len() - i,
    {
        assert(have@.subrange(0, i + 1).drop_last() =~= have@.subrange(0, i as int));
        if !have[i] {
            let size = get_piece_size(metainfo, i as u32);
            left = left + size as u64;
        }
        i = i + 1;
    }
    assert(have@.subrange(0, have@.len() as int) =~= have@);
    left
}

/// Whether we have every piece, and so the download is finished.
pub fn is_download_finished(have: &[bool]) -> (res: bool)
    ensures
        res == forall|i: int| 0 <= i < have@.len() ==> have@[i],
{
    let mut i: usize = 0;
    while i < have.len()
        invariant
            i <= have@.len(),
            forall|k: int| 0 <= k < i ==> have@[k],
        decreases have@.len() - i,
    {
        if !have[i] {
            return false;
        }
        i = i + 1;
    }
    true
}

/// Where piece `piece_i` starts in the file: the piece index times the piece length.
pub fn piece_offset(piece_i: u32, piece_length: u32) -> (res: u64)
    ensures
        res == piece_i * piece_length,
{
    proof {
        assert(piece_i * piece_length <= u32::MAX * u32::MAX) by (nonlinear_arith)
            requires
                piece_i <= u32::MAX,
                piece_length <= u32::MAX,
        ;
    }
    (piece_i as u64) * (piece_length as u64)
}

/// Where the block that `req` asks for starts in the file.
pub fn block_offset(req: &RequestPiecePayload, piece_length: u32) -> (res: u64)
    ensures
        res == req.index * piece_length + req.begin,
{
    let start = piece_offset(req.index, piece_length);
    proof {
        assert(req.index * piece_length <= u32::MAX * u32::MAX) by (nonlinear_arith)
            requires
                req.index <= u32::MAX,
                piece_length <= u32::MAX,
        ;
    }
    start + req.begin as u64
}

/// Whether a peer's request can be served: we have the piece it asks for.
pub fn can_serve(have: &[bool], req: &RequestPiecePayload) -> (res: bool)
    requires
        (req.index as int) < have@.len(),
    ensures
        res == have@[req.index as int],
{
    have[req.index as usize]
}


/// A request counts as lost, and its block is to be requested again, exactly when it is at
/// least `TIMEOUT_FOR_REQ_MS` old.
pub proof fn law_request_timeout(requested_at: u64, now: u64)
    requires
        now >= requested_at,
    ensures
        not_requested(BlockState::InProcess(requested_at), now) <==> now - requested_at >= TIMEOUT_FOR_REQ_MS,
        !not_requested(BlockState::Finished, now),
        not_requested(BlockState::Unrequested, now),
{
}

/// The blocks of a piece cover it exactly: all but the last are `BLOCK_MAX` long, and the
/// last holds the rest.
pub proof fn law_blocks_cover_piece(size: u32)
    requires
        size > 0,
    ensures
        n_blocks_spec(size as nat) >= 1,
        (n_blocks_spec(size as nat) - 1) * BLOCK_MAX + block_len_spec(
            n_blocks_spec(size as nat) as u32,
            size,
            (n_blocks_spec(size as nat) - 1) as u32,
        ) == size,
{
    let n = n_blocks_spec(size as nat);
    let q = size / 16384;
    let r = size % 16384;
    assert(size == q * 16384 + r && 0 <= r < 16384) by (nonlinear_arith)
        requires
            q == size / 16384,
            r == size % 16384,
    ;
    if r == 0 {
        assert(n == q) by (nonlinear_arith)
            requires
                n == (size + 16383) / 16384,
                size == q * 16384,
        ;
        assert(q >= 1) by (nonlinear_arith)
            requires
                size == q * 16384,
                size > 0,
        ;
        assert(n <= u32::MAX);
    } else {
        assert(n == q + 1) by (nonlinear_arith)
            requires
                n == (size + 16383) / 16384,
                size == q * 16384 + r,
                0 < r < 16384,
        ;
        assert(q < u32::MAX);
    }
}

/// Nothing is left exactly when no piece is missing; otherwise at least one piece's bytes
/// are.
pub proof fn law_bytes_left(have: Seq<bool>, length: u32, piece_length: u32, n_pieces: nat)
    requires
        piece_length != 0,
    ensures
        bytes_left_spec(have, length, piece_length, n_pieces) == 0 <==> forall|i: int|
            0 <= i < have.len() ==> have[i],
        bytes_left_spec(have, length, piece_length, n_pieces) >= 0,
    decreases have.len(),
{
    if have.len() > 0 {
        law_bytes_left(have.drop_last(), length, piece_length, n_pieces);
        let i = (have.len() - 1) as u32;
        assert(piece_size_spec(length, piece_length, n_pieces, i) >= 1);
        if forall|k: int| 0 <= k < have.len() ==> have[k] {
            assert forall|k: int| 0 <= k < have.drop_last().len() implies have.drop_last()[k] by {
                assert(have[k]);
            }
        }
        if bytes_left_spec(have, length, piece_length, n_pieces) == 0 {
            assert forall|k: int| 0 <= k < have.len() implies have[k] by {
                if k < have.len() - 1 {
                    assert(have.drop_last()[k] == have[k]);
                }
            }
        }
    }
}

/// Clearing one flag of the bitfield adds exactly that piece's bytes to what is left.
proof fn lemma_bytes_left_flag(have: Seq<bool>, i: int, length: u32, piece_length: u32, n_pieces: nat)
    requires
        0 <= i < have.len(),
    ensures
        bytes_left_spec(have.update(i, false), length, piece_length, n_pieces) == bytes_left_spec(
            have.update(i, true),
            length,
            piece_length,
            n_pieces,
        ) + piece_size_spec(length, piece_length, n_pieces, i as u32),
    decreases have.len(),
{
    let f = have.update(i, false);
    let t = have.update(i, true);
    if i == have.len() - 1 {
        assert(f.drop_last() =~= have.drop_last());
        assert(t.drop_last() =~= have.drop_last());
    } else {
        lemma_bytes_left_flag(have.drop_last(), i, length, piece_length, n_pieces);
        assert(f.drop_last() =~= have.drop_last().update(i, false));
        assert(t.drop_last() =~= have.drop_last().update(i, true));
    }
}

/// What is left counts each missing piece with its own size: for a file of `length` bytes in
/// `n_pieces` pieces of `piece_length` bytes, missing piece `i` adds `piece_length` bytes,
/// except the last piece, which adds the rest of the file, `length - (n_pieces - 1) *
/// piece_length`.
pub proof fn law_bytes_left_per_piece(have: Seq<bool>, i: int, length: u32, piece_length: u32, n_pieces: nat)
    requires
        have.len() == n_pieces,
        n_pieces <= u32::MAX,
        0 <= i < n_pieces,
        piece_length > 0,
        (n_pieces - 1) * piece_length < length <= n_pieces * piece_length,
    ensures
        bytes_left_spec(have.update(i, false), length, piece_length, n_pieces) == bytes_left_spec(
            have.update(i, true),
            length,
            piece_length,
            n_pieces,
        ) + if i < n_pieces - 1 {
            piece_length as int
        } else {
            length - (n_pieces - 1) * piece_length
        },
{
    lemma_bytes_left_flag(have, i, length, piece_length, n_pieces);
    if i == n_pieces - 1 {
        let k: int = (n_pieces - 1) as int;
        let r: int = length - k * piece_length;
        assert(0 < r <= piece_length) by (nonlinear_arith)
            requires
                r == length - k * piece_length,
                k == n_pieces - 1,
                k * piece_length < length <= n_pieces * piece_length,
        ;
        assert(length == piece_length * k + r) by (nonlinear_arith)
            requires
                r == length - k * piece_length,
        ;
        vstd::arithmetic::div_mod::lemma_mod_multiples_vanish(k, r, piece_length as int);
        if r < piece_length {
            vstd::arithmetic::div_mod::lemma_small_mod(r as nat, piece_length as nat);
        } else {
            vstd::arithmetic::div_mod::lemma_mod_self_0(piece_length as int);
        }
        assert((i as u32) as int == n_pieces - 1);
    } else {
        assert((i as u32) as int == i);
    }
}

} // verus!
