//! Magnet links (BEP 9): the info hash they name.
use vstd::prelude::*;

use vstd::string::StrSliceExecFns;

use crate::deps::{hex_decode, url_query, url_query_of, url_scheme, url_scheme_of};
use crate::tracker::PeerAddr;
use crate::hexdigits::{hex_decoded, hex_lower};
use crate::torrent::InfoHash;

verus! {

/// The prefix of the exact topic of a magnet link, `urn:btih`.
pub open spec fn btih_prefix() -> Seq<u8> {
    seq![117u8, 114, 110, 58, 98, 116, 105, 104]
}

/// Why the exact topic of a magnet link names no info hash.
#[derive(Debug, Clone, Copy, PartialEq, Eq)]
pub enum InfoHashError {
    /// It does not start with `urn:btih`.
    InvalidPrefix,
    /// What follows the prefix and its colon is not hex.
    InvalidHex,
    /// The hex denotes this many bytes, not 20.
    WrongLength(usize),
}

/// The info hash that the exact topic `v` (UTF-8 bytes) names: `urn:btih`, one more byte
/// (the colon), then the 40 hex digits of the hash. A topic that does not start with
/// `urn:btih` has the wrong prefix.
pub open spec fn btih_spec(v: Seq<u8>) -> Result<Seq<u8>, InfoHashError> {
    if v.len() < 8 || v.subrange(0, 8) != btih_prefix() {
        Err(InfoHashError::InvalidPrefix)
    } else {
        let digits = if v.len() >= 9 { v.subrange(9, v.len() as int) } else { Seq::empty() };
        match hex_decoded(digits) {
            None => Err(InfoHashError::InvalidHex),
            Some(bytes) => if bytes.len() == 20 {
                Ok(bytes)
            } else {
                Err(InfoHashError::WrongLength(bytes.len() as usize))
            },
        }
    }
}

/// Reads the info hash from the exact topic `v` of a magnet link.
pub fn parse_btih(v: &[u8]) -> (res: Result<InfoHash, InfoHashError>)
    ensures
        btih_spec(v@) matches Ok(h) ==> (res matches Ok(r) && r.0@ == h),
        btih_spec(v@) matches Err(e) ==> res == Err::<InfoHash, InfoHashError>(e),
{
    let prefix: [u8; 8] = [117, 114, 110, 58, 98, 116, 105, 104];
    if v.len() < 8 {
        return Err(InfoHashError::InvalidPrefix);
    }
    let mut i: usize = 0;
    while i < 8
        invariant
            i <= 8,
            v@.len() >= 8,
            prefix@ == btih_prefix(),
            forall|k: int| 0 <= k < i ==> v@[k] == btih_prefix()[k],
        decreases 8 - i,
    {
        if v[i] != prefix[i] {
            proof {
                assert(v@.subrange(0, 8)[i as int] != btih_prefix()[i as int]);
            }
            return Err(InfoHashError::InvalidPrefix);
        }
        i = i + 1;
    }
    proof {
        assert(v@.subrange(0, 8) =~= btih_prefix());
    }
    let hex_hash = if v.len() >= 9 {
        crate::wire::copy_range(v, 9, v.len())
    } else {
        Vec::new()
    };
    proof {
        if v.len() < 9 {
            assert(hex_hash@ =~= Seq::<u8>::empty());
        }
    }
    let bytes_hash = match hex_decode(hex_hash.as_slice()) {
        Some(b) => b,
        None => return Err(InfoHashError::InvalidHex),
    };
    if bytes_hash.len() != 20 {
        return Err(InfoHashError::WrongLength(bytes_hash.len()));
    }
    let mut hash = [0u8; 20];
    let mut j: usize = 0;
    while j < 20
        invariant
            j <= 20,
            bytes_hash@.len() == 20,
            forall|k: int| 0 <= k < j ==> hash@[k] == bytes_hash@[k],
        decreases 20 - j,
    {
        hash[j] = bytes_hash[j];
        j = j + 1;
    }
    proof {
        assert(hash@ =~= bytes_hash@);
    }
    Ok(InfoHash(hash))
}


/// The exact topic `urn:btih:` followed by the lowercase hex digits of a 20-byte hash names
/// that hash.
pub proof fn law_btih_roundtrip(hash: Seq<u8>)
    requires
        hash.len() == 20,
    ensures
        btih_spec(btih_prefix() + seq![58u8] + hex_lower(hash)) == Ok::<Seq<u8>, InfoHashError>(hash),
{
    let v = btih_prefix() + seq![58u8] + hex_lower(hash);
    assert(v.subrange(0, 8) =~= btih_prefix());
    assert(v.subrange(9, v.len() as int) =~= hex_lower(hash));
    crate::hexdigits::law_hex_roundtrip(hash);
}


/// Any hex spelling of a 20-byte hash, with digits of either case, is read back as that
/// hash after `urn:btih:`.
pub proof fn law_btih_any_case(hash: Seq<u8>, digits: Seq<u8>)
    requires
        hash.len() == 20,
        hex_decoded(digits) == Some(hash),
    ensures
        btih_spec(btih_prefix() + seq![58u8] + digits) == Ok::<Seq<u8>, InfoHashError>(hash),
{
    let v = btih_prefix() + seq![58u8] + digits;
    assert(v.subrange(0, 8) =~= btih_prefix());
    assert(v.subrange(9, v.len() as int) =~= digits);
}

/// The characters `magnet`.
pub open spec fn magnet_chars() -> Seq<char> {
    seq!['m', 'a', 'g', 'n', 'e', 't']
}

/// Why a magnet link could not be used.
#[derive(Debug, Clone, PartialEq, Eq)]
pub enum MagnetLinkError {
    /// The link is not a valid URL.
    InvalidUrl,
    /// The link is a URL of another scheme.
    NoMagnetLink,
    /// The link has no query.
    NoQueryFound,
    /// The query does not hold a valid magnet link.
    FailedToDesQuery,
    /// Downloading from a magnet link without a tracker is not supported.
    NoTrackerUrl,
}

/// The query of a magnet link, or why there is none: the link must be a URL of scheme
/// `magnet` with a query.
pub open spec fn magnet_query_spec(link: Seq<char>) -> Result<Seq<char>, MagnetLinkError> {
    match url_scheme_of(link) {
        None => Err(MagnetLinkError::InvalidUrl),
        Some(scheme) => if scheme != magnet_chars() {
            Err(MagnetLinkError::NoMagnetLink)
        } else {
            match url_query_of(link) {
                Some(Some(q)) => Ok(q),
                Some(None) => Err(MagnetLinkError::NoQueryFound),
                None => Err(MagnetLinkError::InvalidUrl),
            }
        },
    }
}

/// The query of a magnet link, whose fields name the torrent.
pub fn magnet_query(link: &str) -> (res: Result<String, MagnetLinkError>)
    ensures
        magnet_query_spec(link@) matches Ok(q) ==> (res matches Ok(r) && r@ == q),
        magnet_query_spec(link@) matches Err(e) ==> res == Err::<String, MagnetLinkError>(e),
{
    let scheme = match url_scheme(link) {
        Some(s) => s,
        None => return Err(MagnetLinkError::InvalidUrl),
    };
    let expected: [char; 6] = ['m', 'a', 'g', 'n', 'e', 't'];
    proof {
        assert(expected@ =~= magnet_chars());
    }
    let n = scheme.as_str().unicode_len();
    if n != 6 {
        return Err(MagnetLinkError::NoMagnetLink);
    }
    let mut i: usize = 0;
    while i < 6
        invariant
            i <= 6,
            url_scheme_of(link@) == Some(scheme@),
            scheme@.len() == 6,
            expected@ == magnet_chars(),
            forall|k: int| 0 <= k < i ==> scheme@[k] == magnet_chars()[k],
        decreases 6 - i,
    {
        if scheme.as_str().get_char(i) != expected[i] {
            proof {
                assert(scheme@[i as int] != magnet_chars()[i as int]);
            }
            return Err(MagnetLinkError::NoMagnetLink);
        }
        i = i + 1;
    }
    proof {
        assert(scheme@ =~= magnet_chars());
    }
    match url_query(link) {
        Some(Some(q)) => Ok(q),
        Some(None) => Err(MagnetLinkError::NoQueryFound),
        None => Err(MagnetLinkError::InvalidUrl),
    }
}

/// A magnet link: the info hash of the torrent, and optionally the file name, a tracker and
/// a peer.
#[derive(Debug, Clone)]
pub struct MagnetLink {
    pub info_hash: InfoHash,
    pub file_name: Option<String>,
    pub announce: Option<String>,
    pub peer_addr: Option<PeerAddr>,
}

impl MagnetLink {
    /// The tracker of the link; downloading without one is not supported.
    pub fn get_announce_url(&self) -> (res: Result<String, MagnetLinkError>)
        ensures
            self.announce matches Some(a) ==> (res matches Ok(r) && r@ == a@),
            self.announce is None ==> res == Err::<String, MagnetLinkError>(MagnetLinkError::NoTrackerUrl),
    {
        match &self.announce {
            Some(a) => Ok(a.clone()),
            None => Err(MagnetLinkError::NoTrackerUrl),
        }
    }
}

} // verus!
