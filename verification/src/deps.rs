//! The calls this library makes into outside crates, each with the contract that the
//! outside crate's source shows.
use rand::seq::SliceRandom;
use sha1::Digest;
use vstd::prelude::*;

use crate::wire::be_value;
use crate::hexdigits::{hex_lower, hex_decoded};

verus! {

/// Calls `bincode::decode_from_slice` for a tuple of three `u32` with bincode's legacy
/// configuration switched to big endian (fixed-width integers, no size limit). That
/// configuration reads each integer as the next four bytes in big-endian order, and fails
/// only when fewer than twelve bytes are given; the number of bytes read is dropped.
#[verifier::external_body]
pub(crate) fn bincode_three_be_u32(payload: &[u8]) -> (res: Option<(u32, u32, u32)>)
    ensures
        payload@.len() >= 12 ==> res == Some(
            (be_value(payload@, 0), be_value(payload@, 4), be_value(payload@, 8)),
        ),
        payload@.len() < 12 ==> res is None,
{
    bincode::decode_from_slice::<(u32, u32, u32), _>(
        payload,
        bincode::config::legacy().with_big_endian(),
    ).ok().map(|(v, _read)| v)
}

/// What `sha1` computes: the SHA-1 digest of a byte string.
pub uninterp spec fn sha1_of(data: Seq<u8>) -> Seq<u8>;

/// Calls `sha1::Sha1` (`new`, `update`, `finalize`) on `data`; the contract names the 20-byte
/// result [`sha1_of`] of the input and says nothing more of it.
#[verifier::external_body]
pub(crate) fn sha1_digest(data: &[u8]) -> (res: [u8; 20])
    ensures
        res@ == sha1_of(data@),
{
    let mut hasher = sha1::Sha1::new();
    hasher.update(data);
    hasher.finalize().into()
}

/// Calls `hex::encode`, which writes each byte of `data` as two lowercase hex digits (high
/// nibble first); the string is handed out as its bytes.
#[verifier::external_body]
pub(crate) fn hex_encode(data: &[u8]) -> (res: Vec<u8>)
    requires
        data@.len() * 2 <= usize::MAX,
    ensures
        res@ == hex_lower(data@),
{
    hex::encode(data).into_bytes()
}

/// Calls `hex::decode`: it fails on an odd length or on a byte that is not a hex digit
/// (upper or lower case), and otherwise turns each pair of digits into one byte, high
/// nibble first. The error value is dropped.
#[verifier::external_body]
pub(crate) fn hex_decode(data: &[u8]) -> (res: Option<Vec<u8>>)
    ensures
        res is None <==> hex_decoded(data@) is None,
        res matches Some(v) ==> hex_decoded(data@) == Some(v@),
{
    hex::decode(data).ok()
}

/// Calls `String::from_utf8`; ASCII bytes are valid UTF-8 and each becomes the char with
/// that code.
#[verifier::external_body]
pub(crate) fn ascii_string(bytes: Vec<u8>) -> (res: String)
    requires
        forall|i: int| 0 <= i < bytes@.len() ==> bytes@[i] < 128,
    ensures
        res@ == Seq::new(bytes@.len(), |i: int| bytes@[i] as char),
{
    match String::from_utf8(bytes) {
        Ok(s) => s,
        Err(_) => String::new(),
    }
}


/// Reads the system clock: the milliseconds since the Unix epoch (0 when the clock is set
/// before it). Nothing is promised of the value: it is the time.
#[verifier::external_body]
pub(crate) fn now_ms() -> (res: u64) {
    match std::time::SystemTime::now().duration_since(std::time::UNIX_EPOCH) {
        Ok(d) => d.as_millis() as u64,
        Err(_) => 0,
    }
}


/// Calls `bincode::encode_into_slice` on the five fields of a handshake (a byte, then byte
/// arrays of 19, 8, 20 and 20) with the configuration the handshake uses (standard, big
/// endian, limit 68). Bincode writes a `u8` as one byte and a byte array as its bytes, with
/// no length, and a tuple as its fields in order, so the 68 bytes of the output are filled
/// with the fields one after the other; they fit, so the call does not fail.
#[verifier::external_body]
pub(crate) fn bincode_encode_handshake(
    length: u8,
    protocol: [u8; 19],
    reserved: [u8; 8],
    info_hash: [u8; 20],
    peer_id: [u8; 20],
) -> (res: [u8; 68])
    ensures
        res@ == seq![length] + protocol@ + reserved@ + info_hash@ + peer_id@,
{
    let config = bincode::config::standard().with_big_endian().with_limit::<68>();
    let mut out = [0u8; 68];
    match bincode::encode_into_slice((length, protocol, reserved, info_hash, peer_id), &mut out, config) {
        Ok(_) => out,
        Err(_) => out,
    }
}

/// Calls `bincode::decode_from_slice` for the five fields of a handshake with the
/// configuration the handshake uses; each field takes the next bytes (one, then 19, 8, 20
/// and 20), which 68 bytes provide, so the call does not fail.
#[verifier::external_body]
pub(crate) fn bincode_decode_handshake(bytes: &[u8; 68]) -> (res: (u8, [u8; 19], [u8; 8], [u8; 20], [u8; 20]))
    ensures
        res.0 == bytes@[0],
        res.1@ == bytes@.subrange(1, 20),
        res.2@ == bytes@.subrange(20, 28),
        res.3@ == bytes@.subrange(28, 48),
        res.4@ == bytes@.subrange(48, 68),
{
    let config = bincode::config::standard().with_big_endian().with_limit::<68>();
    match bincode::decode_from_slice::<(u8, [u8; 19], [u8; 8], [u8; 20], [u8; 20]), _>(bytes, config) {
        Ok((fields, _read)) => fields,
        Err(_) => (0, [0u8; 19], [0u8; 8], [0u8; 20], [0u8; 20]),
    }
}


/// `std::path::PathBuf`, carried through as it is.
#[verifier::external_type_specification]
#[verifier::external_body]
pub struct ExPathBuf(std::path::PathBuf);


/// What the `url` crate reads as the scheme of `s` (`None` when `url::Url::parse` refuses
/// it).
pub uninterp spec fn url_scheme_of(s: Seq<char>) -> Option<Seq<char>>;

/// Calls `url::Url::parse` on `s` and then `Url::scheme`; `None` when the parse fails.
#[verifier::external_body]
pub(crate) fn url_scheme(s: &str) -> (res: Option<String>)
    ensures
        res is None <==> url_scheme_of(s@) is None,
        res matches Some(r) ==> url_scheme_of(s@) == Some(r@),
{
    url::Url::parse(s).ok().map(|u| u.scheme().to_string())
}

/// What the `url` crate serializes `s` as after setting its path to `path` (`None` when
/// `url::Url::parse` refuses `s`).
pub uninterp spec fn url_with_path_of(s: Seq<char>, path: Seq<char>) -> Option<Seq<char>>;

/// Calls `url::Url::parse` on `s`, then `Url::set_path` with `path`, and returns
/// `Url::as_str`; `None` when the parse fails.
#[verifier::external_body]
pub(crate) fn url_with_path(s: &str, path: &str) -> (res: Option<String>)
    ensures
        res is None <==> url_with_path_of(s@, path@) is None,
        res matches Some(r) ==> url_with_path_of(s@, path@) == Some(r@),
{
    match url::Url::parse(s) {
        Ok(mut u) => {
            u.set_path(path);
            Some(u.as_str().to_string())
        },
        Err(_) => None,
    }
}

/// What the `url` crate serializes `s` as (`None` when `url::Url::parse` refuses it).
pub uninterp spec fn url_parsed_of(s: Seq<char>) -> Option<Seq<char>>;

/// Calls `url::Url::parse` on `s` and returns `Url::as_str`; `None` when the parse fails.
#[verifier::external_body]
pub(crate) fn url_parse(s: &str) -> (res: Option<String>)
    ensures
        res is None <==> url_parsed_of(s@) is None,
        res matches Some(r) ==> url_parsed_of(s@) == Some(r@),
{
    url::Url::parse(s).ok().map(|u| u.as_str().to_string())
}

/// Calls `rand::seq::SliceRandom::shuffle` with the thread-local generator `rand::rng()`:
/// the strings stay the same and only their order changes, at random.
#[verifier::external_body]
pub(crate) fn shuffle_strings(items: &mut Vec<String>)
    ensures
        final(items)@.len() == old(items)@.len(),
        Seq::new(final(items)@.len(), |i: int| final(items)@[i]@).to_multiset() == Seq::new(
            old(items)@.len(),
            |i: int| old(items)@[i]@,
        ).to_multiset(),
{
    items.shuffle(&mut rand::rng());
}


/// What the `url` crate reads as the query of `s`: `None` when `url::Url::parse` refuses
/// `s`, else the query if there is one.
pub uninterp spec fn url_query_of(s: Seq<char>) -> Option<Option<Seq<char>>>;

/// Calls `url::Url::parse` on `s` and then `Url::query`; `None` when the parse fails.
#[verifier::external_body]
pub(crate) fn url_query(s: &str) -> (res: Option<Option<String>>)
    ensures
        res is None <==> url_query_of(s@) is None,
        res matches Some(None) ==> url_query_of(s@) == Some(None::<Seq<char>>),
        res matches Some(Some(q)) ==> url_query_of(s@) == Some(Some(q@)),
{
    url::Url::parse(s).ok().map(|u| u.query().map(|q| q.to_string()))
}

} // verus!
