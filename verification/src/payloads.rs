//! The payloads of the messages of the peer wire protocol, each with its
//! big-endian byte form (without the length prefix and the message id).
use vstd::prelude::*;

use crate::wire::{be_bytes, be_value, push_be_u32, read_be_u32};
use crate::wire::{lemma_be_bytes_of_value, lemma_be_value_of_bytes};

verus! {

/// Whether bit `j` (counted from the most significant bit) of `byte` is set.
pub open spec fn bit_of(byte: u8, j: int) -> bool {
    (byte & (0x80u8 >> (j as u8))) != 0
}

/// The bits of `bytes`, most significant bit of each byte first.
pub open spec fn unpacked_bits(bytes: Seq<u8>) -> Seq<bool> {
    Seq::new(bytes.len() * 8, |i: int| bit_of(bytes[i / 8], i % 8))
}

/// `bits` extended (or cut) to `len` entries, the new entries being `false`.
pub open spec fn padded_bits(bits: Seq<bool>, len: nat) -> Seq<bool> {
    Seq::new(len, |i: int| i < bits.len() && bits[i])
}

/// The number of bytes needed to hold `n` bits.
pub open spec fn packed_len(n: nat) -> nat {
    (n + 7) / 8
}

proof fn lemma_set_bit(byte: u8, j: u8, k: u8)
    requires
        j < 8,
        k < 8,
    ensures
        ((byte | (0x80u8 >> j)) & (0x80u8 >> k) != 0) == ((byte & (0x80u8 >> k)) != 0 || j
            == k),
{
    assert(((byte | (0x80u8 >> j)) & (0x80u8 >> k) != 0) == ((byte & (0x80u8 >> k)) != 0 || j
        == k)) by (bit_vector)
        requires
            j < 8,
            k < 8,
    ;
}

proof fn lemma_zero_bits(k: u8)
    requires
        k < 8,
    ensures
        (0u8 & (0x80u8 >> k)) == 0,
{
    assert((0u8 & (0x80u8 >> k)) == 0) by (bit_vector);
}

/// A byte is determined by its eight bits.
pub proof fn lemma_bits_determine_byte(a: u8, b: u8)
    requires
        forall|j: int| 0 <= j < 8 ==> bit_of(a, j) == bit_of(b, j),
    ensures
        a == b,
{
    assert(bit_of(a, 0) == bit_of(b, 0));
    assert(bit_of(a, 1) == bit_of(b, 1));
    assert(bit_of(a, 2) == bit_of(b, 2));
    assert(bit_of(a, 3) == bit_of(b, 3));
    assert(bit_of(a, 4) == bit_of(b, 4));
    assert(bit_of(a, 5) == bit_of(b, 5));
    assert(bit_of(a, 6) == bit_of(b, 6));
    assert(bit_of(a, 7) == bit_of(b, 7));
    assert(a == b) by (bit_vector)
        requires
            ((a & (0x80u8 >> 0u8)) != 0) == ((b & (0x80u8 >> 0u8)) != 0),
            ((a & (0x80u8 >> 1u8)) != 0) == ((b & (0x80u8 >> 1u8)) != 0),
            ((a & (0x80u8 >> 2u8)) != 0) == ((b & (0x80u8 >> 2u8)) != 0),
            ((a & (0x80u8 >> 3u8)) != 0) == ((b & (0x80u8 >> 3u8)) != 0),
            ((a & (0x80u8 >> 4u8)) != 0) == ((b & (0x80u8 >> 4u8)) != 0),
            ((a & (0x80u8 >> 5u8)) != 0) == ((b & (0x80u8 >> 5u8)) != 0),
            ((a & (0x80u8 >> 6u8)) != 0) == ((b & (0x80u8 >> 6u8)) != 0),
            ((a & (0x80u8 >> 7u8)) != 0) == ((b & (0x80u8 >> 7u8)) != 0),
    ;
}

/// Two byte strings with the same bits are equal.
pub proof fn lemma_unpacked_injective(a: Seq<u8>, b: Seq<u8>)
    requires
        a.len() == b.len(),
        unpacked_bits(a) == unpacked_bits(b),
    ensures
        a == b,
{
    assert forall|k: int| 0 <= k < a.len() implies a[k] == b[k] by {
        assert forall|j: int| 0 <= j < 8 implies bit_of(a[k], j) == bit_of(b[k], j) by {
            let i = k * 8 + j;
            assert(i / 8 == k && i % 8 == j) by (nonlinear_arith)
                requires
                    i == k * 8 + j,
                    0 <= j < 8,
            ;
            assert(0 <= i < a.len() * 8) by (nonlinear_arith)
                requires
                    i == k * 8 + j,
                    0 <= j < 8,
                    0 <= k < a.len(),
            ;
            assert(unpacked_bits(a)[i] == unpacked_bits(b)[i]);
            assert(unpacked_bits(a)[i] == bit_of(a[i / 8], i % 8));
            assert(unpacked_bits(b)[i] == bit_of(b[i / 8], i % 8));
        }
        lemma_bits_determine_byte(a[k], b[k]);
    }
    assert(a =~= b);
}

/// The pieces a peer has, one flag per piece index.
#[derive(Debug, Clone, PartialEq)]
pub struct BitfieldPayload {
    /// a bitfield with each index that downloader has sent set to one and the rest set to zero
    pub pieces_available: Vec<bool>,
}

impl BitfieldPayload {
    /// A bitfield holding exactly the given flags.
    pub fn new(bitfield: Vec<bool>) -> (res: Self)
        ensures
            res.pieces_available@ == bitfield@,
    {
        Self { pieces_available: bitfield }
    }

    /// True when no piece is set.
    pub fn is_empty(&self) -> (res: bool)
        ensures
            res == (forall|i: int|
                0 <= i < self.pieces_available@.len() ==> !self.pieces_available@[i]),
    {
        let mut i: usize = 0;
        while i < self.pieces_available.len()
            invariant
                i <= self.pieces_available@.len(),
                forall|k: int| 0 <= k < i ==> !self.pieces_available@[k],
            decreases self.pieces_available@.len() - i,
        {
            if self.pieces_available[i] {
                return false;
            }
            i = i + 1;
        }
        true
    }

    /// True when no piece is set (the older name of [`BitfieldPayload::is_empty`]).
    pub fn is_nothing(&self) -> (res: bool)
        ensures
            res == (forall|i: int|
                0 <= i < self.pieces_available@.len() ==> !self.pieces_available@[i]),
    {
        self.is_empty()
    }

    /// True when every piece is set.
    pub fn is_finished(&self) -> (res: bool)
        ensures
            res == (forall|i: int|
                0 <= i < self.pieces_available@.len() ==> self.pieces_available@[i]),
    {
        let mut i: usize = 0;
        while i < self.pieces_available.len()
            invariant
                i <= self.pieces_available@.len(),
                forall|k: int| 0 <= k < i ==> self.pieces_available@[k],
            decreases self.pieces_available@.len() - i,
        {
            if !self.pieces_available[i] {
                return false;
            }
            i = i + 1;
        }
        true
    }

    /// The first `n_pieces` flags (all of them if there are fewer).
    pub fn get_correct_len(self, n_pieces: usize) -> (res: Vec<bool>)
        ensures
            res@ == self.pieces_available@.take(
                if n_pieces <= self.pieces_available@.len() {
                    n_pieces as int
                } else {
                    self.pieces_available@.len() as int
                },
            ),
    {
        let mut pieces = self.pieces_available;
        if n_pieces < pieces.len() {
            pieces.truncate(n_pieces);
        }
        proof {
            assert(pieces@ =~= self.pieces_available@.take(
                if n_pieces <= self.pieces_available@.len() {
                    n_pieces as int
                } else {
                    self.pieces_available@.len() as int
                },
            ));
        }
        pieces
    }

    /// All the flags.
    pub fn get_pieces(self) -> (res: Vec<bool>)
        ensures
            res@ == self.pieces_available@,
    {
        self.pieces_available
    }

    /// Reads a bitfield: bit `j` of byte `i` (most significant first) is piece `8 * i + j`.
    pub fn from_be_bytes(payload: &[u8]) -> (res: Self)
        requires
            payload@.len() * 8 <= usize::MAX,
        ensures
            res.pieces_available@ == unpacked_bits(payload@),
    {
        let mut pieces_available: Vec<bool> = Vec::new();
        let mut byte_i: usize = 0;
        while byte_i < payload.len()
            invariant
                byte_i <= payload@.len(),
                pieces_available@ =~= unpacked_bits(payload@.take(byte_i as int)),
            decreases payload@.len() - byte_i,
        {
            let byte = payload[byte_i];
            let mut j: u8 = 0;
            while j < 8
                invariant
                    j <= 8,
                    byte_i < payload@.len(),
                    byte == payload@[byte_i as int],
                    pieces_available@.len() == byte_i * 8 + j,
                    forall|k: int|
                        0 <= k < byte_i * 8 ==> pieces_available@[k] == unpacked_bits(
                            payload@.take(byte_i as int),
                        )[k],
                    forall|k: int|
                        0 <= k < j ==> pieces_available@[byte_i * 8 + k] == bit_of(byte, k),
                decreases 8 - j,
            {
                pieces_available.push((byte & (0x80u8 >> j)) != 0);
                j = j + 1;
            }
            proof {
                let next = payload@.take(byte_i + 1);
                assert forall|k: int| 0 <= k < (byte_i + 1) * 8 implies pieces_available@[k]
                    == unpacked_bits(next)[k] by {
                    if k < byte_i * 8 {
                        assert(k / 8 < byte_i) by (nonlinear_arith)
                            requires
                                0 <= k < byte_i * 8,
                        ;
                        assert(0 <= k / 8) by (nonlinear_arith)
                            requires
                                0 <= k,
                        ;
                    } else {
                        assert(k / 8 == byte_i && k % 8 == k - byte_i * 8) by (nonlinear_arith)
                            requires
                                byte_i * 8 <= k < (byte_i + 1) * 8,
                        ;
                    }
                }
                assert(pieces_available@.len() == (byte_i + 1) * 8) by (nonlinear_arith)
                    requires
                        pieces_available@.len() == byte_i * 8 + 8,
                ;
                assert(pieces_available@ =~= unpacked_bits(next));
            }
            byte_i = byte_i + 1;
        }
        proof {
            assert(payload@.take(byte_i as int) =~= payload@);
        }
        Self { pieces_available }
    }

    /// Writes the bitfield: piece `i` becomes bit `i % 8` (most significant first) of byte
    /// `i / 8`; the bits after the last piece are zero.
    pub fn to_be_bytes(&self) -> (res: Vec<u8>)
        ensures
            res@.len() == packed_len(self.pieces_available@.len()),
            unpacked_bits(res@) == padded_bits(
                self.pieces_available@,
                packed_len(self.pieces_available@.len()) * 8,
            ),
    {
        let n = self.pieces_available.len();
        let ghost bits = self.pieces_available@;
        let nbytes: usize = if n % 8 == 0 {
            n / 8
        } else {
            n / 8 + 1
        };
        proof {
            assert(nbytes == packed_len(n as nat)) by (nonlinear_arith)
                requires
                    n % 8 == 0 ==> nbytes == n / 8,
                    n % 8 != 0 ==> nbytes == n / 8 + 1,
            ;
        }
        let mut out: Vec<u8> = Vec::new();
        while out.len() < nbytes
            invariant
                n == bits.len(),
                bits == self.pieces_available@,
                nbytes == packed_len(n as nat),
                out@.len() <= nbytes,
                forall|i: int|
                    0 <= i < out@.len() * 8 ==> bit_of(#[trigger] out@[i / 8], i % 8) == (i < n
                        && bits[i]),
            decreases nbytes - out@.len(),
        {
            let k = out.len();
            proof {
                assert(k * 8 <= n) by (nonlinear_arith)
                    requires
                        k < nbytes,
                        nbytes == (n + 7) / 8,
                ;
            }
            let start = k * 8;
            let mut byte: u8 = 0;
            proof {
                assert forall|q: int| 0 <= q < 8 implies !bit_of(byte, q) by {
                    lemma_zero_bits(q as u8);
                }
            }
            let mut j: u8 = 0;
            while j < 8
                invariant
                    j <= 8,
                    n == bits.len(),
                    bits == self.pieces_available@,
                    start <= n,
                    forall|q: int|
                        0 <= q < j ==> bit_of(byte, q) == (start + q < n && bits[start + q]),
                    forall|q: int| j <= q < 8 ==> !bit_of(byte, q),
                decreases 8 - j,
            {
                let set = (j as usize) < n - start && self.pieces_available[start + j as usize];
                let ghost old_byte = byte;
                if set {
                    byte = byte | (0x80u8 >> j);
                }
                proof {
                    assert forall|q: int| 0 <= q < 8 implies bit_of(byte, q) == (bit_of(
                        old_byte,
                        q,
                    ) || (set && q == j)) by {
                        lemma_set_bit(old_byte, j, q as u8);
                    }
                    assert(set == (start + j < n && bits[start + j]));
                }
                j = j + 1;
            }
            proof {
                let old_len = out@.len();
                assert forall|i: int| 0 <= i < (old_len + 1) * 8 implies bit_of(
                    #[trigger] out@.push(byte)[i / 8],
                    i % 8,
                ) == (i < n && bits[i]) by {
                    if i < old_len * 8 {
                        assert(i / 8 < old_len) by (nonlinear_arith)
                            requires
                                0 <= i < old_len * 8,
                        ;
                        assert(0 <= i / 8) by (nonlinear_arith)
                            requires
                                0 <= i,
                        ;
                        assert(bit_of(out@[i / 8], i % 8) == (i < n && bits[i]));
                    } else {
                        assert(i / 8 == old_len && i % 8 == i - start) by (nonlinear_arith)
                            requires
                                old_len * 8 <= i < (old_len + 1) * 8,
                                start == old_len * 8,
                        ;
                    }
                }
            }
            out.push(byte);
        }
        proof {
            let r = out@;
            assert forall|i: int| 0 <= i < r.len() * 8 implies unpacked_bits(r)[i] == padded_bits(
                bits,
                packed_len(n as nat) * 8,
            )[i] by {
                assert(bit_of(r[i / 8], i % 8) == (i < n && bits[i]));
            }
            assert(unpacked_bits(r) =~= padded_bits(bits, packed_len(n as nat) * 8));
        }
        out
    }
}

} // verus!

verus! {

/// A request for (or a cancel of) `length` bytes at offset `begin` of piece `index`.
#[derive(Debug, Clone, Copy, PartialEq, Eq)]
pub struct RequestPiecePayload {
    /// the index of the piece
    pub index: u32,
    pub begin: u32,
    pub length: u32,
}

/// The twelve bytes of a request: index, begin and length, each big-endian.
pub open spec fn request_bytes(p: RequestPiecePayload) -> Seq<u8> {
    be_bytes(p.index) + be_bytes(p.begin) + be_bytes(p.length)
}

/// The request that the first twelve bytes of `s` denote.
pub open spec fn request_of_bytes(s: Seq<u8>) -> RequestPiecePayload {
    RequestPiecePayload { index: be_value(s, 0), begin: be_value(s, 4), length: be_value(s, 8) }
}

impl RequestPiecePayload {
    pub fn new(index: u32, begin: u32, length: u32) -> (res: Self)
        ensures
            res == (RequestPiecePayload { index, begin, length }),
    {
        Self { index, begin, length }
    }

    /// Reads a request from its twelve big-endian bytes (extra bytes are ignored).
    pub fn from_be_bytes(payload: &[u8]) -> (res: Self)
        requires
            payload@.len() >= 12,
        ensures
            res == request_of_bytes(payload@),
    {
        match crate::deps::bincode_three_be_u32(payload) {
            Some((index, begin, length)) => Self { index, begin, length },
            None => Self { index: 0, begin: 0, length: 0 },
        }
    }

    /// The twelve big-endian bytes of the request.
    pub fn to_be_bytes(&self) -> (res: Vec<u8>)
        ensures
            res@ == request_bytes(*self),
    {
        let mut bytes: Vec<u8> = Vec::new();
        push_be_u32(&mut bytes, self.index);
        push_be_u32(&mut bytes, self.begin);
        push_be_u32(&mut bytes, self.length);
        proof {
            assert(bytes@ =~= request_bytes(*self));
        }
        bytes
    }
}

/// A block of data: `block` starts at offset `begin` of piece `index`.
#[derive(Debug, Clone, PartialEq)]
pub struct ResponsePiecePayload {
    pub index: u32,
    pub begin: u32,
    pub block: Vec<u8>,
}

/// The bytes of a block message: index and begin (big-endian), then the block.
pub open spec fn response_bytes(index: u32, begin: u32, block: Seq<u8>) -> Seq<u8> {
    be_bytes(index) + be_bytes(begin) + block
}

impl ResponsePiecePayload {
    /// Reads a block message: the first eight bytes are index and begin, the rest is the block.
    pub fn from_be_bytes(bytes: &[u8]) -> (res: Self)
        requires
            bytes@.len() >= 8,
        ensures
            res.index == be_value(bytes@, 0),
            res.begin == be_value(bytes@, 4),
            res.block@ == bytes@.subrange(8, bytes@.len() as int),
    {
        let index = read_be_u32(bytes, 0);
        let begin = read_be_u32(bytes, 4);
        let block = crate::wire::copy_range(bytes, 8, bytes.len());
        Self { index, begin, block }
    }

    /// The bytes of the block message.
    pub fn to_be_bytes(&self) -> (res: Vec<u8>)
        ensures
            res@ == response_bytes(self.index, self.begin, self.block@),
    {
        let mut bytes: Vec<u8> = Vec::new();
        push_be_u32(&mut bytes, self.index);
        push_be_u32(&mut bytes, self.begin);
        crate::wire::push_all(&mut bytes, self.block.as_slice());
        bytes
    }
}

/// The index of a piece the sender has just completed and checked.
#[derive(Debug, Clone, Copy, PartialEq, Eq)]
pub struct HavePayload {
    /// a single number, the index which that downloader just completed and checked the hash of
    pub piece_index: u32,
}

impl HavePayload {
    /// Reads the piece index from the first four bytes (big-endian).
    pub fn from_be_bytes(payload: &[u8]) -> (res: Self)
        requires
            payload@.len() >= 4,
        ensures
            res.piece_index == be_value(payload@, 0),
    {
        HavePayload { piece_index: read_be_u32(payload, 0) }
    }

    /// The four big-endian bytes of the piece index.
    pub fn to_be_bytes(&self) -> (res: Vec<u8>)
        ensures
            res@ == be_bytes(self.piece_index),
    {
        let mut bytes: Vec<u8> = Vec::new();
        push_be_u32(&mut bytes, self.piece_index);
        proof {
            assert(bytes@ =~= be_bytes(self.piece_index));
        }
        bytes
    }
}

/// The empty payload of choke, unchoke, interested, not-interested and keep-alive messages.
#[derive(Debug, Clone, Copy, PartialEq, Eq)]
pub struct NoPayload;

impl NoPayload {
    /// Any bytes read as the empty payload.
    pub fn from_be_bytes(_payload: &[u8]) -> (res: Self)
        ensures
            res == NoPayload,
    {
        NoPayload
    }

    /// No bytes.
    pub fn to_be_bytes(&self) -> (res: Vec<u8>)
        ensures
            res@ == Seq::<u8>::empty(),
    {
        Vec::new()
    }
}

/// Reading back the bits of a written bitfield gives the bitfield, extended with `false`
/// to a whole number of bytes.
pub proof fn law_bitfield_roundtrip(bits: Seq<bool>, bytes: Seq<u8>)
    requires
        bytes.len() == packed_len(bits.len()),
        unpacked_bits(bytes) == padded_bits(bits, packed_len(bits.len()) * 8),
    ensures
        unpacked_bits(bytes).take(bits.len() as int) == bits,
        forall|i: int| bits.len() <= i < unpacked_bits(bytes).len() ==> !unpacked_bits(bytes)[i],
{
    assert(bits.len() <= packed_len(bits.len()) * 8) by (nonlinear_arith);
    assert(unpacked_bits(bytes).take(bits.len() as int) =~= bits);
}

/// Writing out the bits read from some bytes gives those bytes back.
pub proof fn law_bitfield_bytes_roundtrip(bytes: Seq<u8>, written: Seq<u8>)
    requires
        written.len() == packed_len(unpacked_bits(bytes).len()),
        unpacked_bits(written) == padded_bits(
            unpacked_bits(bytes),
            packed_len(unpacked_bits(bytes).len()) * 8,
        ),
    ensures
        written == bytes,
{
    let n = unpacked_bits(bytes).len();
    assert(packed_len(n) == bytes.len()) by (nonlinear_arith)
        requires
            n == bytes.len() * 8,
    ;
    assert(padded_bits(unpacked_bits(bytes), n) =~= unpacked_bits(bytes));
    lemma_unpacked_injective(written, bytes);
}

/// Reading back a written request gives the request.
pub proof fn law_request_roundtrip(p: RequestPiecePayload)
    ensures
        request_of_bytes(request_bytes(p)) == p,
{
    let s = request_bytes(p);
    lemma_be_value_of_bytes(p.index);
    lemma_be_value_of_bytes(p.begin);
    lemma_be_value_of_bytes(p.length);
    assert(s.subrange(0, 4) =~= be_bytes(p.index));
    assert(s.subrange(4, 8) =~= be_bytes(p.begin));
    assert(s.subrange(8, 12) =~= be_bytes(p.length));
    assert(be_value(s, 0) == be_value(s.subrange(0, 4), 0));
    assert(be_value(s, 4) == be_value(s.subrange(4, 8), 0));
    assert(be_value(s, 8) == be_value(s.subrange(8, 12), 0));
}

/// Writing out a read request gives its twelve bytes back.
pub proof fn law_request_bytes_roundtrip(s: Seq<u8>)
    requires
        s.len() == 12,
    ensures
        request_bytes(request_of_bytes(s)) == s,
{
    lemma_be_bytes_of_value(s, 0);
    lemma_be_bytes_of_value(s, 4);
    lemma_be_bytes_of_value(s, 8);
    assert(request_bytes(request_of_bytes(s)) =~= s);
}

/// Reading back a written block message gives its index, begin and block.
pub proof fn law_response_roundtrip(index: u32, begin: u32, block: Seq<u8>)
    ensures
        be_value(response_bytes(index, begin, block), 0) == index,
        be_value(response_bytes(index, begin, block), 4) == begin,
        response_bytes(index, begin, block).subrange(
            8,
            response_bytes(index, begin, block).len() as int,
        ) == block,
{
    let s = response_bytes(index, begin, block);
    lemma_be_value_of_bytes(index);
    lemma_be_value_of_bytes(begin);
    assert(s.subrange(0, 4) =~= be_bytes(index));
    assert(s.subrange(4, 8) =~= be_bytes(begin));
    assert(be_value(s, 0) == be_value(s.subrange(0, 4), 0));
    assert(be_value(s, 4) == be_value(s.subrange(4, 8), 0));
    assert(s.subrange(8, s.len() as int) =~= block);
}

/// Reading back a written have message gives its piece index.
pub proof fn law_have_roundtrip(piece_index: u32)
    ensures
        be_value(be_bytes(piece_index), 0) == piece_index,
{
    lemma_be_value_of_bytes(piece_index);
}

} // verus!
