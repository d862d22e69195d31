use riptorrent::magnet::{magnet_query, parse_btih, InfoHashError, MagnetLink, MagnetLinkError};
use riptorrent::torrent::InfoHash;

#[test]
fn magnet_info_hash_is_read() {
    let topic = b"urn:btih:ad42ce8109f54c99613ce38f9b4d87e70f24a165";
    assert_eq!(
        parse_btih(topic),
        Ok(InfoHash([
            173, 66, 206, 129, 9, 245, 76, 153, 97, 60, 227, 143, 155, 77, 135, 231, 15, 36,
            161, 101
        ]))
    );
}

#[test]
fn magnet_info_hash_errors() {
    assert_eq!(parse_btih(b"urn:sha1:abcd"), Err(InfoHashError::InvalidPrefix));
    assert_eq!(parse_btih(b"urn:btih:zz"), Err(InfoHashError::InvalidHex));
    assert_eq!(parse_btih(b"urn:btih:abcd"), Err(InfoHashError::WrongLength(2)));
}

#[test]
fn magnet_query_is_taken_from_the_link() {
    assert_eq!(
        magnet_query("magnet:?xt=urn:btih:ad42ce8109f54c99613ce38f9b4d87e70f24a165&dn=magnet1.gif"),
        Ok("xt=urn:btih:ad42ce8109f54c99613ce38f9b4d87e70f24a165&dn=magnet1.gif".to_string())
    );
    assert_eq!(magnet_query("http://example.org/?a=b"), Err(MagnetLinkError::NoMagnetLink));
    assert_eq!(magnet_query("not a url"), Err(MagnetLinkError::InvalidUrl));
    assert_eq!(magnet_query("magnet:"), Err(MagnetLinkError::NoQueryFound));
}

#[test]
fn magnet_without_tracker() {
    let link = MagnetLink { info_hash: InfoHash([0; 20]), file_name: None, announce: None, peer_addr: None };
    assert_eq!(link.get_announce_url(), Err(MagnetLinkError::NoTrackerUrl));
    let link = MagnetLink { announce: Some("http://t.example/announce".to_string()), ..link };
    assert_eq!(link.get_announce_url(), Ok("http://t.example/announce".to_string()));
}

#[test]
fn short_or_odd_topics_are_refused() {
    assert_eq!(parse_btih(b"urn").unwrap_err(), InfoHashError::InvalidPrefix);
    assert_eq!(parse_btih("é".as_bytes()).unwrap_err(), InfoHashError::InvalidPrefix);
    assert_eq!(parse_btih(b"urn:btih").unwrap_err(), InfoHashError::WrongLength(0));
    assert_eq!(parse_btih("urn:btihé".as_bytes()).unwrap_err(), InfoHashError::InvalidHex);
}
