//! The metainfo of a torrent: its info hash, the piece hashes, and the sizes of pieces and
//! blocks.
use vstd::prelude::*;

use crate::deps::{ascii_string, hex_encode, sha1_digest, sha1_of};
use crate::hexdigits::hex_lower;
use crate::BLOCK_MAX;

verus! {

/// The SHA-1 hash of the bencoded info dictionary, which names a torrent.
#[derive(Debug, Clone, Copy, PartialEq, Eq, Hash)]
pub struct InfoHash(pub [u8; 20]);

impl InfoHash {
    /// The info hash of the bencoded info dictionary `bencoded`: its SHA-1 digest.
    pub fn of_bencoded_info(bencoded: &[u8]) -> (res: InfoHash)
        ensures
            res.0@ == sha1_of(bencoded@),
    {
        InfoHash(sha1_digest(bencoded))
    }

    /// The 40 lowercase hex digits of the hash.
    pub fn as_hex(&self) -> (res: String)
        ensures
            res@ == Seq::new(40, |i: int| hex_lower(self.0@)[i] as char),
    {
        let digits = hex_encode(&self.0);
        proof {
            assert forall|i: int| 0 <= i < digits@.len() implies digits@[i] < 128 by {
                let b = self.0@[i / 2];
                assert(0 <= b / 16 < 16 && 0 <= b % 16 < 16);
            }
        }
        ascii_string(digits)
    }
}

/// The SHA-1 hash of each piece, in piece order.
#[derive(Debug, Clone, PartialEq)]
pub struct Hashes(pub Vec<[u8; 20]>);

/// Why the piece hashes could not be read.
#[derive(Debug, Clone, Copy, PartialEq, Eq)]
pub enum HashesError {
    /// The byte string's length (given) is not a multiple of 20.
    NotMultipleOf20(usize),
}

/// The concatenation of the hashes.
pub open spec fn hashes_bytes(hashes: Seq<[u8; 20]>) -> Seq<u8> {
    Seq::new(hashes.len() * 20, |i: int| hashes[i / 20]@[i % 20])
}

impl Hashes {
    /// Splits `v` into hashes of 20 bytes; fails when its length is not a multiple of 20.
    pub fn from_bytes(v: &[u8]) -> (res: Result<Hashes, HashesError>)
        ensures
            v@.len() % 20 != 0 ==> res == Err::<Hashes, HashesError>(
                HashesError::NotMultipleOf20(v@.len() as usize),
            ),
            v@.len() % 20 == 0 ==> res is Ok && hashes_bytes(res->Ok_0.0@) == v@,
    {
        if v.len() % 20 != 0 {
            return Err(HashesError::NotMultipleOf20(v.len()));
        }
        let mut hashes: Vec<[u8; 20]> = Vec::new();
        let mut start: usize = 0;
        while start < v.len()
            invariant
                v@.len() % 20 == 0,
                start <= v@.len(),
                start == hashes@.len() * 20,
                forall|i: int| 0 <= i < start ==> hashes_bytes(hashes@)[i] == v@[i],
            decreases v@.len() - start,
        {
            proof {
                assert(start + 20 <= v@.len()) by (nonlinear_arith)
                    requires
                        start % 20 == 0,
                        v@.len() % 20 == 0,
                        start < v@.len(),
                        start == hashes@.len() * 20,
                ;
            }
            let mut chunk = [0u8; 20];
            let mut j: usize = 0;
            while j < 20
                invariant
                    j <= 20,
                    start + 20 <= v.len(),
                    forall|k: int| 0 <= k < j ==> chunk@[k] == v@[start + k],
                decreases 20 - j,
            {
                let idx = start + j;
                chunk[j] = v[idx];
                j = j + 1;
            }
            let ghost old_hashes = hashes@;
            hashes.push(chunk);
            proof {
                assert forall|i: int| 0 <= i < start + 20 implies hashes_bytes(hashes@)[i] == v@[i] by {
                    if i < start {
                        assert(i / 20 < old_hashes.len()) by (nonlinear_arith)
                            requires
                                0 <= i < start,
                                start == old_hashes.len() * 20,
                        ;
                        assert(hashes_bytes(old_hashes)[i] == v@[i]);
                    } else {
                        assert(i / 20 == old_hashes.len() && i % 20 == i - start) by (nonlinear_arith)
                            requires
                                start <= i < start + 20,
                                start == old_hashes.len() * 20,
                        ;
                    }
                }
            }
            start = start + 20;
        }
        proof {
            assert(hashes_bytes(hashes@) =~= v@);
        }
        Ok(Hashes(hashes))
    }

    /// The hashes concatenated into one byte string.
    pub fn to_bytes(&self) -> (res: Vec<u8>)
        requires
            self.0@.len() * 20 <= usize::MAX,
        ensures
            res@ == hashes_bytes(self.0@),
    {
        let mut out: Vec<u8> = Vec::new();
        let mut k: usize = 0;
        while k < self.0.len()
            invariant
                k <= self.0@.len(),
                out@.len() == k * 20,
                forall|i: int| 0 <= i < k * 20 ==> out@[i] == hashes_bytes(self.0@)[i],
            decreases self.0@.len() - k,
        {
            let h = self.0[k];
            let mut j: usize = 0;
            while j < 20
                invariant
                    j <= 20,
                    k < self.0@.len(),
                    h == self.0@[k as int],
                    out@.len() == k * 20 + j,
                    forall|i: int| 0 <= i < k * 20 ==> out@[i] == hashes_bytes(self.0@)[i],
                    forall|q: int| 0 <= q < j ==> out@[k * 20 + q] == h@[q],
                decreases 20 - j,
            {
                out.push(h[j]);
                j = j + 1;
            }
            proof {
                assert forall|i: int| 0 <= i < (k + 1) * 20 implies out@[i] == hashes_bytes(
                    self.0@,
                )[i] by {
                    if i >= k * 20 {
                        assert(i / 20 == k && i % 20 == i - k * 20) by (nonlinear_arith)
                            requires
                                k * 20 <= i < (k + 1) * 20,
                        ;
                        assert(out@[k * 20 + (i - k * 20)] == h@[i - k * 20]);
                    }
                    assert(i < self.0@.len() * 20) by (nonlinear_arith)
                        requires
                            i < (k + 1) * 20,
                            k < self.0@.len(),
                    ;
                }
            }
            k = k + 1;
        }
        proof {
            assert(out@ =~= hashes_bytes(self.0@));
        }
        out
    }
}

/// Splitting the concatenation of hashes gives the hashes back.
pub proof fn law_hashes_roundtrip(a: Seq<[u8; 20]>, b: Seq<[u8; 20]>)
    requires
        hashes_bytes(a) == hashes_bytes(b),
    ensures
        a == b,
{
    assert(hashes_bytes(a).len() == a.len() * 20);
    assert(hashes_bytes(b).len() == b.len() * 20);
    assert(a.len() == b.len()) by (nonlinear_arith)
        requires
            a.len() * 20 == b.len() * 20,
    ;
    assert forall|k: int| 0 <= k < a.len() implies a[k] == b[k] by {
        assert forall|q: int| 0 <= q < 20 implies a[k]@[q] == b[k]@[q] by {
            let i = k * 20 + q;
            assert(i / 20 == k && i % 20 == q && 0 <= i < a.len() * 20) by (nonlinear_arith)
                requires
                    i == k * 20 + q,
                    0 <= q < 20,
                    0 <= k < a.len(),
            ;
            assert(hashes_bytes(a)[i] == hashes_bytes(b)[i]);
            assert(hashes_bytes(a)[i] == a[i / 20]@[i % 20]);
            assert(hashes_bytes(b)[i] == b[i / 20]@[i % 20]);
        }
        assert(a[k]@ =~= b[k]@);
    }
    assert(a =~= b);
}

/// A file of a multi-file torrent.
#[derive(Debug, Clone, PartialEq)]
pub struct File {
    /// The length of the file, in bytes.
    pub length: u32,
    /// The subdirectory names, the last of which is the file name.
    pub path: Vec<String>,
}

/// The single-file or multi-file part of the info dictionary.
#[derive(Debug, Clone, PartialEq)]
pub enum Key {
    SingleFile { md5sum: Option<String> },
    MultiFile { files: Vec<File>, md5sum: Option<String> },
}

/// The info dictionary of a torrent.
#[derive(Debug, Clone, PartialEq)]
pub struct Metainfo {
    /// The name of the file (single file) or of the directory (multiple files).
    pub name: String,
    /// The number of bytes in each piece.
    pub piece_length: u32,
    /// The SHA-1 hash of each piece.
    pub pieces: Hashes,
    /// The length of the file, present for single-file torrents.
    pub length: Option<u32>,
    pub files: Key,
}

/// The lengths of the files added up.
pub open spec fn files_length(files: Seq<File>) -> nat
    decreases files.len(),
{
    if files.len() == 0 {
        0
    } else {
        files_length(files.drop_last()) + files.last().length as nat
    }
}

/// The length of the download: the file's length, or the files' lengths added up for a
/// multi-file torrent; `None` for a single-file torrent without a length.
pub open spec fn total_length(m: Metainfo) -> Option<nat> {
    match m.length {
        Some(l) => Some(l as nat),
        None => match m.files {
            Key::MultiFile { files, .. } => Some(files_length(files@)),
            Key::SingleFile { .. } => None,
        },
    }
}

/// The first `i` files are no longer than all of them.
pub proof fn lemma_files_prefix(files: Seq<File>, i: int)
    requires
        0 <= i <= files.len(),
    ensures
        files_length(files.take(i)) <= files_length(files),
    decreases files.len(),
{
    if i < files.len() {
        lemma_files_prefix(files.drop_last(), i);
        assert(files.drop_last().take(i) =~= files.take(i));
    } else {
        assert(files.take(i) =~= files);
    }
}

impl Metainfo {
    /// The length of the download in bytes: the file's length, or for a multi-file torrent
    /// the files one after the other, their lengths added up.
    pub fn get_length(&self) -> (res: u32)
        requires
            total_length(*self) matches Some(t) && t <= u32::MAX,
        ensures
            res == total_length(*self)->Some_0,
    {
        match self.length {
            Some(length) => length,
            None => match &self.files {
                Key::MultiFile { files, .. } => {
                    let mut sum: u32 = 0;
                    let mut i: usize = 0;
                    while i < files.len()
                        invariant
                            i <= files@.len(),
                            files_length(files@) <= u32::MAX,
                            sum == files_length(files@.take(i as int)),
                        decreases files@.len() - i,
                    {
                        proof {
                            assert(files@.take(i + 1).drop_last() =~= files@.take(i as int));
                            lemma_files_prefix(files@, i + 1);
                        }
                        sum = sum + files[i].length;
                        i = i + 1;
                    }
                    proof {
                        assert(files@.take(files@.len() as int) =~= files@);
                    }
                    sum
                },
                Key::SingleFile { .. } => 0,
            },
        }
    }

    /// The number of pieces.
    pub fn n_pieces(&self) -> (res: usize)
        ensures
            res == self.pieces.0@.len(),
    {
        self.pieces.0.len()
    }
}

/// The size of piece `piece_i`: the piece length, except for the last piece, which holds
/// the rest of the download when the length is not a multiple of the piece length.
pub open spec fn piece_size_spec(length: u32, piece_length: u32, n_pieces: nat, piece_i: u32) -> u32 {
    if piece_i == n_pieces - 1 && length % piece_length != 0 {
        (length % piece_length) as u32
    } else {
        piece_length
    }
}

/// The length of block `block_i` of a piece of `piece_size` bytes split into `n_blocks`
/// blocks: `BLOCK_MAX`, except for the last block, which holds the rest.
pub open spec fn block_len_spec(n_blocks: u32, piece_size: u32, block_i: u32) -> u32 {
    if block_i == n_blocks - 1 && piece_size % BLOCK_MAX != 0 {
        (piece_size % BLOCK_MAX) as u32
    } else {
        BLOCK_MAX
    }
}

/// The size of piece `piece_i` of the torrent.
pub fn get_piece_size(torrent_info: &Metainfo, piece_i: u32) -> (res: u32)
    requires
        torrent_info.length is Some,
        torrent_info.piece_length != 0,
        1 <= torrent_info.pieces.0@.len() <= u32::MAX,
    ensures
        res == piece_size_spec(
            torrent_info.length->Some_0,
            torrent_info.piece_length,
            torrent_info.pieces.0@.len(),
            piece_i,
        ),
{
    let length = torrent_info.get_length();
    let piece_length = torrent_info.piece_length;
    if piece_i == torrent_info.pieces.0.len() as u32 - 1 && length % piece_length != 0 {
        length % piece_length
    } else {
        piece_length
    }
}

/// The length of block `block_i` of a piece of `piece_size` bytes split into `n_blocks`.
pub fn get_block_len(n_blocks: u32, piece_size: u32, block_i: u32) -> (res: u32)
    requires
        n_blocks >= 1,
    ensures
        res == block_len_spec(n_blocks, piece_size, block_i),
{
    if block_i == n_blocks - 1 && piece_size % BLOCK_MAX != 0 {
        piece_size % BLOCK_MAX
    } else {
        BLOCK_MAX
    }
}

/// When the number of pieces is the length divided by the piece length, rounded up, the
/// pieces together are exactly as long as the download.
pub proof fn law_pieces_cover_length(length: u32, piece_length: u32, n_pieces: nat)
    requires
        piece_length > 0,
        n_pieces >= 1,
        (n_pieces - 1) * piece_length < length <= n_pieces * piece_length,
    ensures
        (n_pieces - 1) * piece_length + piece_size_spec(
            length,
            piece_length,
            n_pieces,
            (n_pieces - 1) as u32,
        ) == length,
{
    let n = n_pieces - 1;
    assert(n < length) by (nonlinear_arith)
        requires
            piece_length > 0,
            n * piece_length < length,
            n >= 0,
    ;
    assert((n as u32) == n);
    if length % piece_length != 0 {
        let q = length / piece_length;
        let r = length % piece_length;
        vstd::arithmetic::div_mod::lemma_fundamental_div_mod(length as int, piece_length as int);
        assert(q * piece_length < (n + 1) * piece_length) by (nonlinear_arith)
            requires
                length == piece_length * q + r,
                0 < r,
                length <= (n + 1) * piece_length,
        ;
        assert(n * piece_length < (q + 1) * piece_length) by (nonlinear_arith)
            requires
                length == piece_length * q + r,
                r < piece_length,
                n * piece_length < length,
        ;
        assert(q < n + 1) by (nonlinear_arith)
            requires
                q * piece_length < (n + 1) * piece_length,
                piece_length > 0,
        ;
        assert(n < q + 1) by (nonlinear_arith)
            requires
                n * piece_length < (q + 1) * piece_length,
                piece_length > 0,
        ;
        assert(q == n);
        assert(n * piece_length + r == length) by (nonlinear_arith)
            requires
                length == piece_length * q + r,
                q == n,
        ;
    } else {
        assert(n * piece_length + piece_length == length) by (nonlinear_arith)
            requires
                piece_length > 0,
                length % piece_length == 0,
                n * piece_length < length <= (n + 1) * piece_length,
                n >= 0,
        ;
    }
}

} // verus!
