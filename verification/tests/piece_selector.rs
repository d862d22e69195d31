use riptorrent::piece_selector::PieceSelector;

fn selector_with(peers: &[([u8; 20], Vec<bool>)], n: usize) -> PieceSelector {
    let mut s = PieceSelector::new(vec![false; n]);
    for (id, bits) in peers {
        s.add_peer(*id);
        s.add_peer_bitfield(id, bits.clone());
    }
    s
}

#[test]
fn rarest_piece_first_and_kept_for_other_peers() {
    let a = [1u8; 20];
    let b = [2u8; 20];
    // piece 0 is had by both peers, piece 1 only by b
    let mut s = selector_with(&[(a, vec![true, false]), (b, vec![true, true])], 2);
    assert_eq!(s.select_pieces_for_peer(&b, 1), Some(vec![1]));
    // piece 0 is still there for a
    assert_eq!(s.select_pieces_for_peer(&a, 1), Some(vec![0]));
    assert_eq!(s.select_pieces_for_peer(&a, 1), None);
}

#[test]
fn at_most_count_pieces_by_index_among_equals() {
    let a = [1u8; 20];
    let mut s = selector_with(&[(a, vec![true, true, true])], 3);
    assert_eq!(s.select_pieces_for_peer(&a, 2), Some(vec![0, 1]));
    assert_eq!(s.select_pieces_for_peer(&a, 2), Some(vec![2]));
    assert_eq!(s.select_pieces_for_peer(&a, 0), None);
}

#[test]
fn a_repeated_have_counts_once() {
    let x = [1u8; 20];
    let a = [2u8; 20];
    let b = [3u8; 20];
    let mut s = selector_with(&[(x, vec![true, true]), (a, vec![false, false]), (b, vec![false, true])], 2);
    s.update_from_peer_have(&a, 0);
    s.update_from_peer_have(&a, 0);
    // both pieces are had by two peers: the lower index comes first
    assert_eq!(s.select_pieces_for_peer(&x, 1), Some(vec![0]));
}

#[test]
fn a_released_piece_is_selected_again() {
    let x = [1u8; 20];
    let mut s = selector_with(&[(x, vec![true, true])], 2);
    assert_eq!(s.select_pieces_for_peer(&x, 1), Some(vec![0]));
    s.release_piece(0);
    assert_eq!(s.select_pieces_for_peer(&x, 1), Some(vec![0]));
    assert_eq!(s.select_pieces_for_peer(&x, 1), Some(vec![1]));
}

#[test]
fn our_own_bitfield_recounts_the_peers() {
    let a = [1u8; 20];
    let b = [2u8; 20];
    let mut s = PieceSelector::new(Vec::new());
    s.add_peer(a);
    s.add_peer_bitfield(&a, vec![true, true]);
    s.add_peer(b);
    s.add_peer_bitfield(&b, vec![true, false]);
    s.update_from_self_have(vec![false, false]);
    assert_eq!(s.select_pieces_for_peer(&a, 2), Some(vec![1, 0]));
}
