use riptorrent::announce::{fix_tracker_url, AnnounceList};

#[test]
fn udp_trackers_are_asked_over_http() {
    assert_eq!(
        fix_tracker_url("udp://tracker.example.org:1337".to_string()),
        "http://tracker.example.org:1337/announce"
    );
    assert_eq!(
        fix_tracker_url("udp://tracker.example.org:6969/announce".to_string()),
        "http://tracker.example.org:6969/announce"
    );
}

#[test]
fn other_trackers_stay() {
    let url = "http://bittorrent-test-tracker.codecrafters.io/announce".to_string();
    assert_eq!(fix_tracker_url(url.clone()), url);
    let not_a_url = "not a url".to_string();
    assert_eq!(fix_tracker_url(not_a_url.clone()), not_a_url);
}

#[test]
fn tiers_keep_their_order_and_trackers() {
    let list = AnnounceList::initiate(vec![
        vec!["http://a.example/announce".to_string(), "udp://b.example:80".to_string()],
        vec!["http://c.example/announce".to_string()],
    ]);
    assert_eq!(list.0.len(), 2);
    let mut first = list.0[0].clone();
    first.sort();
    assert_eq!(
        first,
        vec!["http://a.example/announce".to_string(), "http://b.example/announce".to_string()]
    );
    assert_eq!(list.0[1], vec!["http://c.example/announce".to_string()]);
    let single = AnnounceList::from_single_announce("udp://d.example:1".to_string());
    assert_eq!(single.0, vec![vec!["http://d.example:1/announce".to_string()]]);
}

#[test]
fn refused_udp_rewriting_is_reported() {
    // a valid UDP URL whose host is no valid HTTP host
    let odd = "udp://a%00b:1".to_string();
    assert!(AnnounceList::from_single_announce_checked(odd.clone()).is_none());
    assert!(AnnounceList::from_single_tier_list_checked(vec![
        "http://a.example/announce".to_string(),
        odd,
    ])
    .is_none());
    let fine = AnnounceList::from_single_tier_list_checked(vec!["udp://e.example:2".to_string()])
        .expect("is valid");
    assert_eq!(fine.0, vec![vec!["http://e.example:2/announce".to_string()]]);
    let single = AnnounceList::from_single_announce_checked("http://f.example/announce".to_string())
        .expect("is valid");
    assert_eq!(single.0, vec![vec!["http://f.example/announce".to_string()]]);
}
