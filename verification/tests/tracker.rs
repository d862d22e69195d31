use riptorrent::torrent::InfoHash;
use riptorrent::tracker::{
    add_peers, parse_compact_peers, parse_compact_peers6, promote_tracker, PeerAddr, PeersError,
    TrackerRequest, TrackerResponse,
};
use serde_bencode::value::Value;

fn dict_bytes(value: &Value, key: &[u8]) -> Option<Vec<u8>> {
    match value {
        Value::Dict(d) => match d.get(key) {
            Some(Value::Bytes(b)) => Some(b.clone()),
            _ => None,
        },
        _ => None,
    }
}

#[test]
fn test_deserialize_compact_peers() {
    // A dictionary with both 'peers' (IPv4) and 'peers6' (IPv6) keys
    let bencoded_response_with_ipv6 = b"d8:intervali0e5:peers6:\x7f\x00\x00\x01\x1a\x0e6:peers618:\x20\x01\x0d\xb8\x00\x00\x00\x00\x00\x00\x00\x00\x00\x00\x41\x37\x01\xbbee";
    // 127.0.0.1:6670 and [2001:db8::4137]:443
    let expected_socket_addrs_with_ipv6 = vec![
        PeerAddr::V4([127, 0, 0, 1], 6670),
        PeerAddr::V6([0x20, 0x01, 0x0d, 0xb8, 0, 0, 0, 0, 0, 0, 0, 0, 0, 0, 0x41, 0x37], 443),
    ];
    let value: Value = serde_bencode::from_bytes(bencoded_response_with_ipv6).unwrap();
    let peers = parse_compact_peers(&dict_bytes(&value, b"peers").unwrap()).unwrap();
    let peers6 = parse_compact_peers6(&dict_bytes(&value, b"peers6").unwrap()).unwrap();
    let tracker_response_with_ipv6 = TrackerResponse {
        interval: 0,
        peers,
        peers6: Some(peers6),
    };
    assert_eq!(
        tracker_response_with_ipv6.get_peers(),
        expected_socket_addrs_with_ipv6
    );
}

#[test]
fn compact_peers_of_wrong_length_are_refused() {
    assert_eq!(parse_compact_peers(&[1, 2, 3, 4, 5]), Err(PeersError::NotMultiple(5)));
    assert_eq!(parse_compact_peers6(&[0; 17]), Err(PeersError::NotMultiple(17)));
    assert_eq!(parse_compact_peers(&[]), Ok(vec![]));
}

#[test]
fn tracker_request_query() {
    let mut hash = [0u8; 20];
    hash[0] = b'a';
    hash[1] = 0xff;
    hash[2] = b'-';
    let info_hash = InfoHash(hash);
    let peer_id = *b"-AZ2060-222222222222";
    let req = TrackerRequest::new(&info_hash, &peer_id, 6881, 92063);
    assert_eq!(req.compact, 1);
    assert_eq!(req.uploaded, 0);
    assert_eq!(
        req.to_url_encoded(),
        "info_hash=a%ff%2d%00%00%00%00%00%00%00%00%00%00%00%00%00%00%00%00%00\
&peer_id=%2dAZ2060%2d222222222222&port=6881&uploaded=0&downloaded=0&left=92063&compact=1"
    );
}

#[test]
fn tracker_that_answered_goes_first() {
    let mut tier = vec!["a", "b", "c"];
    promote_tracker(&mut tier, 2);
    assert_eq!(tier, vec!["c", "a", "b"]);
}

#[test]
fn peers_are_collected_once() {
    let a = PeerAddr::V4([1, 2, 3, 4], 1);
    let b = PeerAddr::V4([1, 2, 3, 4], 2);
    let mut found = vec![a];
    let enough = add_peers(&mut found, &vec![b, a, b]);
    assert_eq!(found, vec![a, b]);
    assert!(!enough);
    let many: Vec<PeerAddr> = (0..20u16).map(|p| PeerAddr::V4([10, 0, 0, 1], p)).collect();
    assert!(add_peers(&mut found, &many));
}
