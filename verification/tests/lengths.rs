use torrent_streaming::lengths::Lengths;

#[test]
fn lengths_need_bytes_and_pieces() {
    assert!(Lengths::new(0, 16).is_none());
    assert!(Lengths::new(16, 0).is_none());
    assert!(Lengths::new(1 << 32, 1).is_none());
    assert!(Lengths::new((1 << 32) - 1, 1).is_some());
}

#[test]
fn the_last_piece_counts() {
    let l = Lengths::new(250, 100).unwrap();
    assert_eq!(l.total_length(), 250);
    assert_eq!(l.default_piece_length(), 100);
    assert_eq!(l.total_pieces(), 3);
    assert_eq!(Lengths::new(200, 100).unwrap().total_pieces(), 2);
}

#[test]
fn only_existing_pieces_are_valid() {
    let l = Lengths::new(250, 100).unwrap();
    assert_eq!(l.validate_piece_index(2).unwrap().get(), 2);
    assert!(l.validate_piece_index(3).is_none());
}

#[test]
fn a_byte_is_in_a_piece() {
    let l = Lengths::new(250, 100).unwrap();
    let c = l.compute_current_piece(30, 90).unwrap();
    assert_eq!((c.id.get(), c.piece_remaining), (1, 80));
    let c = l.compute_current_piece(0, 100).unwrap();
    assert_eq!((c.id.get(), c.piece_remaining), (1, 100));
    let c = l.compute_current_piece(110, 100).unwrap();
    assert_eq!((c.id.get(), c.piece_remaining), (2, 40));
}

#[test]
fn a_byte_past_the_end_is_in_no_piece() {
    let l = Lengths::new(250, 100).unwrap();
    let c = l.compute_current_piece(250, 0).unwrap();
    assert_eq!((c.id.get(), c.piece_remaining), (2, 0));
    assert!(l.compute_current_piece(251, 0).is_none());
    assert!(l.compute_current_piece(u64::MAX, u64::MAX).is_none());
    let l = Lengths::new(200, 100).unwrap();
    assert!(l.compute_current_piece(200, 0).is_none());
}
