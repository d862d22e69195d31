//! What is kept about each torrent between runs, and the public view of it.
use std::path::PathBuf;
use vstd::prelude::*;

use crate::torrent::{InfoHash, Metainfo};

verus! {

/// A file that is downloaded or seeded, with the torrent file it comes from.
#[derive(Debug)]
pub struct DBFile {
    pub file_path: PathBuf,
    pub torrent_path: PathBuf,
}

/// The public view of a stored torrent: its info hash, sizes, file and pieces we have.
#[derive(Debug)]
pub struct FileInfo {
    pub info_hash: InfoHash,
    /// The size of the file in bytes.
    pub size: usize,
    /// The number of bytes in each piece.
    pub piece_size: u32,
    pub file_path: PathBuf,
    pub bitfield: Vec<bool>,
}

impl FileInfo {
    /// The view of a stored torrent with metainfo `torrent_info` (single file), whose info
    /// hash is `info_hash`, stored at `file_path`, of which we have the pieces `bitfield`.
    pub fn from_entry(
        info_hash: InfoHash,
        torrent_info: &Metainfo,
        file_path: PathBuf,
        bitfield: Vec<bool>,
    ) -> (res: Self)
        requires
            torrent_info.length is Some,
        ensures
            res.info_hash == info_hash,
            res.size == torrent_info.length->Some_0,
            res.piece_size == torrent_info.piece_length,
            res.file_path == file_path,
            res.bitfield@ == bitfield@,
    {
        let size = torrent_info.get_length() as usize;
        FileInfo { info_hash, size, piece_size: torrent_info.piece_length, file_path, bitfield }
    }
}

/// The bitfield of a torrent just added: no piece yet, one flag per piece.
pub fn new_bitfield(n_pieces: usize) -> (res: Vec<bool>)
    ensures
        res@ == Seq::new(n_pieces as nat, |i: int| false),
{
    let res = vec![false; n_pieces];
    proof {
        assert(res@ =~= Seq::new(n_pieces as nat, |i: int| false));
    }
    res
}

} // verus!
