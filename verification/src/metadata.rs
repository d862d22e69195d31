//! Fetching the info dictionary from peers (BEP 9) before the download proper: the blocks
//! of metadata, their requests, and the check of the whole against the info hash.
use vstd::prelude::*;

use crate::deps::{sha1_digest, sha1_of};
use crate::download::BlockState;
use crate::hexdigits::{decimal, push_decimal};
use crate::torrent::InfoHash;
use crate::wire::bytes20_eq;

verus! {

/// Metadata is handled in blocks of 16 KiB.
pub const METADATA_BLOCK_SIZE: usize = 16384;

/// After how many milliseconds a metadata request without an answer counts as lost (5 s).
pub const TIMEOUT_METADATA_REQ_MS: u64 = 5000;

/// The bencoded request for metadata piece `piece`: the dictionary
/// `{msg_type: 0, piece: piece}`, keys in order, that is `d8:msg_typei0e5:piecei<piece>ee`.
pub open spec fn metadata_request_bytes(piece: u32) -> Seq<u8> {
    seq![100u8, 56, 58, 109, 115, 103, 95, 116, 121, 112, 101, 105, 48, 101, 53, 58, 112, 105, 101, 99, 101, 105]
        + decimal(piece as nat) + seq![101u8, 101]
}

/// The bencoded request for metadata piece `piece`.
pub fn metadata_request(piece: u32) -> (res: Vec<u8>)
    ensures
        res@ == metadata_request_bytes(piece),
{
    let prefix: [u8; 22] = [100, 56, 58, 109, 115, 103, 95, 116, 121, 112, 101, 105, 48, 101, 53, 58, 112, 105, 101, 99, 101, 105];
    let mut out: Vec<u8> = Vec::new();
    crate::wire::push_all(&mut out, &prefix);
    push_decimal(&mut out, piece);
    out.push(101);
    out.push(101);
    proof {
        assert(prefix@ =~= seq![100u8, 56, 58, 109, 115, 103, 95, 116, 121, 112, 101, 105, 48, 101, 53, 58, 112, 105, 101, 99, 101, 105]);
        assert(out@ =~= metadata_request_bytes(piece));
    }
    out
}

/// Whether a metadata block still has to be requested at time `now`: it never was, or its
/// request is at least `TIMEOUT_METADATA_REQ_MS` old.
pub open spec fn metadata_block_open(b: BlockState, now: u64) -> bool {
    match b {
        BlockState::Unrequested => true,
        BlockState::InProcess(t) => now >= t && now - t >= TIMEOUT_METADATA_REQ_MS,
        BlockState::Finished => false,
    }
}

/// The indices, in order, of the metadata blocks among the first `k` that are open at `now`.
pub open spec fn open_metadata_blocks(queue: Seq<BlockState>, now: u64, k: int) -> Seq<int>
    decreases k,
{
    if k <= 0 {
        Seq::empty()
    } else {
        let prev = open_metadata_blocks(queue, now, k - 1);
        if metadata_block_open(queue[k - 1], now) {
            prev.push(k - 1)
        } else {
            prev
        }
    }
}

/// The number of metadata blocks of `length` bytes.
pub open spec fn metadata_blocks(length: nat) -> nat {
    ((length + METADATA_BLOCK_SIZE - 1) / (METADATA_BLOCK_SIZE as int)) as nat
}

/// Collects the metadata, block by block, before the download proper can start.
#[derive(Debug)]
pub struct MetadataPieceManager {
    /// The state of each block; empty until the length is known.
    pub queue: Vec<BlockState>,
    /// The metadata collected so far.
    pub bytes: Vec<u8>,
    /// The info hash the metadata must hash to.
    pub info_hash: InfoHash,
}

impl MetadataPieceManager {
    /// One block state per block of the bytes.
    pub open spec fn wf(&self) -> bool {
        self.queue@.len() == metadata_blocks(self.bytes@.len())
    }

    /// A manager that does not know the length yet.
    pub fn new(info_hash: InfoHash) -> (res: Self)
        ensures
            res.queue@.len() == 0,
            res.bytes@.len() == 0,
            res.info_hash == info_hash,
            res.wf(),
    {
        Self { queue: Vec::new(), bytes: Vec::new(), info_hash }
    }

    /// Whether metadata block `index` with `data` fits: the block exists and the data lies
    /// within the metadata.
    pub open spec fn fits(&self, index: u32, data: Seq<u8>) -> bool {
        &&& (index as int) < self.queue@.len()
        &&& index * METADATA_BLOCK_SIZE + data.len() <= self.bytes@.len()
    }

    /// Whether metadata block `index` with `data_len` bytes fits.
    pub fn accepts_block(&self, index: u32, data_len: usize) -> (res: bool)
        ensures
            res == ((index as int) < self.queue@.len() && index * METADATA_BLOCK_SIZE + data_len
                <= self.bytes@.len()),
    {
        if (index as usize) >= self.queue.len() {
            return false;
        }
        let begin = (index as u64) * 16384;
        begin <= self.bytes.len() as u64 && (data_len as u64) <= (self.bytes.len() as u64) - begin
    }

    /// Writes metadata block `index` and marks it finished.
    pub fn add_block(&mut self, index: u32, data: &[u8])
        requires
            old(self).fits(index, data@),
        ensures
            final(self).queue@ == old(self).queue@.update(index as int, BlockState::Finished),
            final(self).bytes@ == old(self).bytes@.subrange(0, index * METADATA_BLOCK_SIZE) + data@
                + old(self).bytes@.subrange(
                index * METADATA_BLOCK_SIZE + data@.len(),
                old(self).bytes@.len() as int,
            ),
            final(self).info_hash == old(self).info_hash,
            old(self).wf() ==> final(self).wf(),
    {
        let blen = self.bytes.len();
        assert(index * METADATA_BLOCK_SIZE <= blen);
        let begin = (index as usize) * METADATA_BLOCK_SIZE;
        let ghost old_bytes = self.bytes@;
        let mut i: usize = 0;
        while i < data.len()
            invariant
                begin == index * METADATA_BLOCK_SIZE,
                begin + data@.len() <= old_bytes.len(),
                old_bytes.len() == blen,
                old_bytes == old(self).bytes@,
                self.queue@ == old(self).queue@,
                self.info_hash == old(self).info_hash,
                self.bytes@.len() == old_bytes.len(),
                i <= data@.len(),
                forall|k: int| 0 <= k < begin ==> #[trigger] self.bytes@[k] == old_bytes[k],
                forall|k: int| 0 <= k < i ==> #[trigger] self.bytes@[begin + k] == data@[k],
                forall|k: int| begin + i <= k < old_bytes.len() ==> #[trigger] self.bytes@[k] == old_bytes[k],
            decreases data@.len() - i,
        {
            self.bytes.set(begin + i, data[i]);
            i = i + 1;
        }
        proof {
            let w = old_bytes.subrange(0, begin as int) + data@ + old_bytes.subrange(
                begin + data@.len(),
                old_bytes.len() as int,
            );
            assert forall|k: int| 0 <= k < old_bytes.len() implies self.bytes@[k] == w[k] by {
                if k >= begin && k < begin + data@.len() {
                    assert(self.bytes@[begin + (k - begin)] == data@[k - begin]);
                }
            }
            assert(self.bytes@ =~= w);
        }
        self.queue.set(index as usize, BlockState::Finished);
    }

    /// What requesting the open blocks at time `now` does: `before` becomes `after`, whose
    /// blocks that were open at `now` are requested at `now` (so none is open at `now` any
    /// more), and `res` holds the request for each of them, in order.
    pub open spec fn requested_open_blocks(before: Self, after: Self, now: u64, res: Seq<Vec<u8>>) -> bool {
        &&& after.bytes@ == before.bytes@
        &&& after.info_hash == before.info_hash
        &&& after.queue@.len() == before.queue@.len()
        &&& forall|k: int|
            0 <= k < before.queue@.len() ==> #[trigger] after.queue@[k] == if metadata_block_open(
                before.queue@[k],
                now,
            ) {
                BlockState::InProcess(now)
            } else {
                before.queue@[k]
            }
        &&& res.len() == open_metadata_blocks(before.queue@, now, before.queue@.len() as int).len()
        &&& forall|i: int|
            0 <= i < res.len() ==> #[trigger] res[i]@ == metadata_request_bytes(
                open_metadata_blocks(before.queue@, now, before.queue@.len() as int)[i] as u32,
            )
        &&& forall|k: int|
            0 <= k < after.queue@.len() ==> !metadata_block_open(#[trigger] after.queue@[k], now)
    }

    /// The requests for every metadata block that is open at time `now`, in order; those
    /// blocks become requested at `now`.
    pub fn get_block_req_data(&mut self, now: u64) -> (res: Vec<Vec<u8>>)
        ensures
            Self::requested_open_blocks(*old(self), *final(self), now, res@),
    {
        let ghost old_queue = self.queue@;
        let mut requests: Vec<Vec<u8>> = Vec::new();
        let mut j: usize = 0;
        while j < self.queue.len()
            invariant
                old_queue == old(self).queue@,
                self.bytes@ == old(self).bytes@,
                self.info_hash == old(self).info_hash,
                self.queue@.len() == old_queue.len(),
                j <= old_queue.len(),
                requests@.len() == open_metadata_blocks(old_queue, now, j as int).len(),
                forall|i: int|
                    0 <= i < requests@.len() ==> #[trigger] requests@[i]@ == metadata_request_bytes(
                        open_metadata_blocks(old_queue, now, j as int)[i] as u32,
                    ),
                forall|k: int|
                    0 <= k < j ==> #[trigger] self.queue@[k] == if metadata_block_open(old_queue[k], now) {
                        BlockState::InProcess(now)
                    } else {
                        old_queue[k]
                    },
                forall|k: int| j <= k < old_queue.len() ==> #[trigger] self.queue@[k] == old_queue[k],
            decreases old_queue.len() - j,
        {
            let b = self.queue[j];
            let open = match b {
                BlockState::Unrequested => true,
                BlockState::InProcess(t) => now >= t && now - t >= TIMEOUT_METADATA_REQ_MS,
                BlockState::Finished => false,
            };
            if open {
                self.queue.set(j, BlockState::InProcess(now));
                let req = metadata_request(j as u32);
                requests.push(req);
            }
            j = j + 1;
        }
        requests
    }

    /// `get_block_req_data` at the current time of the system clock.
    pub fn get_block_req_data_now(&mut self) -> (res: Vec<Vec<u8>>)
        ensures
            exists|now: u64| Self::requested_open_blocks(*old(self), *final(self), now, res@),
    {
        let now = crate::deps::now_ms();
        self.get_block_req_data(now)
    }

    /// Sets the length of the metadata when it is not known yet: one unrequested block per
    /// 16 KiB (rounded up) and zeroed bytes. Once the length is known, nothing changes.
    pub fn set_len(&mut self, length: usize)
        ensures
            old(self).queue@.len() != 0 ==> final(self).queue@ == old(self).queue@ && final(self).bytes@
                == old(self).bytes@,
            old(self).queue@.len() == 0 ==> final(self).queue@ == Seq::new(
                metadata_blocks(length as nat),
                |i: int| BlockState::Unrequested,
            ) && final(self).bytes@ == Seq::new(length as nat, |i: int| 0u8),
            final(self).info_hash == old(self).info_hash,
    {
        if self.queue.len() != 0 {
            return;
        }
        let n_blocks = length / METADATA_BLOCK_SIZE + if length % METADATA_BLOCK_SIZE != 0 {
            1
        } else {
            0
        };
        proof {
            assert(n_blocks == metadata_blocks(length as nat)) by (nonlinear_arith)
                requires
                    length % 16384 != 0 ==> n_blocks == length / 16384 + 1,
                    length % 16384 == 0 ==> n_blocks == length / 16384,
            ;
        }
        self.queue = vec![BlockState::Unrequested; n_blocks];
        self.bytes = vec![0u8; length];
        proof {
            assert(self.queue@ =~= Seq::new(n_blocks as nat, |i: int| BlockState::Unrequested));
            assert(self.bytes@ =~= Seq::new(length as nat, |i: int| 0u8));
        }
    }

    /// Whether the metadata is complete and hashes to the info hash. When every block is
    /// finished but the hash differs, every block is to be requested again.
    pub fn check_finished(&mut self) -> (res: bool)
        ensures
            final(self).bytes@ == old(self).bytes@,
            final(self).info_hash == old(self).info_hash,
            res == ((forall|k: int| 0 <= k < old(self).queue@.len() ==> old(self).queue@[k]
                == BlockState::Finished) && sha1_of(old(self).bytes@) == old(self).info_hash.0@),
            (res || exists|k: int| 0 <= k < old(self).queue@.len() && old(self).queue@[k]
                != BlockState::Finished) ==> final(self).queue@ == old(self).queue@,
            (!res && forall|k: int| 0 <= k < old(self).queue@.len() ==> old(self).queue@[k]
                == BlockState::Finished) ==> final(self).queue@ == Seq::new(
                old(self).queue@.len(),
                |i: int| BlockState::Unrequested,
            ),
    {
        let mut j: usize = 0;
        while j < self.queue.len()
            invariant
                j <= self.queue@.len(),
                forall|k: int| 0 <= k < j ==> self.queue@[k] == BlockState::Finished,
            decreases self.queue@.len() - j,
        {
            match self.queue[j] {
                BlockState::Finished => {},
                _ => return false,
            }
            j = j + 1;
        }
        let sha1 = sha1_digest(self.bytes.as_slice());
        if bytes20_eq(&sha1, &self.info_hash.0) {
            proof {
                assert(sha1@ == self.info_hash.0@);
            }
            return true;
        }
        proof {
            if sha1_of(self.bytes@) == self.info_hash.0@ {
                assert(sha1 =~= self.info_hash.0);
            }
        }
        let n = self.queue.len();
        self.queue = vec![BlockState::Unrequested; n];
        proof {
            assert(self.queue@ =~= Seq::new(n as nat, |i: int| BlockState::Unrequested));
        }
        false
    }

    pub fn get_info_hash(&self) -> (res: InfoHash)
        ensures
            res == self.info_hash,
    {
        self.info_hash
    }
}

} // verus!
