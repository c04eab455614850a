use std::task::Waker;
use torrent_streaming::lengths::{Lengths, ValidPieceIndex};
use torrent_streaming::stream_state::{
    lookahead_queue, StreamState, COLD_START_PRIORITY_PIECES, PER_STREAM_BUF_DEFAULT,
    PRIORITY_UPDATE_THRESHOLD_PIECES, STEADY_STATE_PRIORITY_PIECES,
};

const MB: u64 = 1024 * 1024;

/// A torrent of 100 pieces of 16 MB.
fn lengths() -> Lengths {
    Lengths::new(1600 * MB, 16 * 1024 * 1024).unwrap()
}

fn numbers(pieces: &[ValidPieceIndex]) -> Vec<u32> {
    pieces.iter().map(|p| p.get()).collect()
}

fn priority(s: &StreamState) -> Option<Vec<u32>> {
    s.priority_pieces.as_ref().map(|p| numbers(p))
}

fn pieces(l: &Lengths, ids: &[u32]) -> Option<Vec<ValidPieceIndex>> {
    Some(ids.iter().map(|i| l.validate_piece_index(*i).unwrap()).collect())
}

#[test]
fn the_sizes_of_the_windows() {
    assert_eq!(PER_STREAM_BUF_DEFAULT, 512 * MB);
    assert_eq!(COLD_START_PRIORITY_PIECES, 6);
    assert_eq!(STEADY_STATE_PRIORITY_PIECES, 15);
    assert_eq!(PRIORITY_UPDATE_THRESHOLD_PIECES, 3);
}

#[test]
fn a_new_stream_is_at_the_start() {
    let s = StreamState::new(3, 100, 50, 7);
    assert_eq!((s.file_id, s.file_len, s.file_abs_offset, s.position), (3, 100, 50, 0));
    assert!(s.waker.is_none() && s.priority_pieces.is_none());
    assert!(s.priority_window_start.is_none() && !s.is_playing);
    assert_eq!(s.last_activity, 7);
}

#[test]
fn the_lookahead_covers_32_pieces_of_16_mb() {
    let l = lengths();
    assert_eq!(
        numbers(&lookahead_queue(0, 0, 1600 * MB, &l)),
        (0..32).collect::<Vec<u32>>()
    );
    assert_eq!(
        numbers(&lookahead_queue(16 * MB, 8 * MB, 1584 * MB, &l)),
        (1..34).collect::<Vec<u32>>()
    );
}

#[test]
fn the_lookahead_ends_with_the_file() {
    let l = lengths();
    assert_eq!(numbers(&lookahead_queue(32 * MB, 8 * MB, 20 * MB, &l)), vec![2, 3]);
    assert_eq!(numbers(&lookahead_queue(32 * MB, 16 * MB, 16 * MB, &l)), Vec::<u32>::new());
}

#[test]
fn the_lookahead_ends_with_the_torrent() {
    let l = Lengths::new(250, 100).unwrap();
    assert_eq!(numbers(&lookahead_queue(100, 0, 1000, &l)), vec![1, 2]);
    assert_eq!(numbers(&lookahead_queue(u64::MAX, u64::MAX, u64::MAX, &l)), Vec::<u32>::new());
}

#[test]
fn the_lookahead_leaves_priority_out() {
    let l = lengths();
    let mut s = StreamState::new(0, 48 * MB, 0, 0);
    s.prioritize(pieces(&l, &[90]));
    assert_eq!(numbers(&s.queue_without_priority(&l)), vec![0, 1, 2]);
}

#[test]
fn the_current_piece_follows_the_position() {
    let l = lengths();
    let mut s = StreamState::new(0, 100 * MB, 8 * MB, 0);
    s.position = 10 * MB;
    let c = s.current_piece(&l).unwrap();
    assert_eq!(c.id.get(), 1);
    assert_eq!(u64::from(c.piece_remaining), 14 * MB);
}

#[test]
fn a_copy_has_no_waker() {
    let l = lengths();
    let mut s = StreamState::new(1, 100, 0, 5);
    s.waker = Some(Waker::noop().clone());
    s.prioritize(pieces(&l, &[4, 5]));
    let copy = s.copy_asleep();
    assert!(copy.waker.is_none() && s.waker.is_some());
    assert_eq!(priority(&copy), Some(vec![4, 5]));
    assert_eq!(copy.priority_window_start, Some(4));
    assert_eq!((copy.file_id, copy.last_activity), (1, 5));
}

#[test]
fn a_stream_without_a_window_does_not_roll() {
    let l = lengths();
    let mut s = StreamState::new(0, 1600 * MB, 0, 0);
    s.roll(50, &l);
    assert_eq!(priority(&s), None);
    assert_eq!(s.priority_window_start, None);
}

#[test]
fn a_cold_start_window_rolls_near_its_end() {
    let l = lengths();
    let mut s = StreamState::new(0, 1600 * MB, 0, 0);
    s.start_window(10, &l);
    assert_eq!(priority(&s), Some(vec![10, 11, 12, 13, 14, 15]));
    s.roll(12, &l);
    assert_eq!(s.priority_window_start, Some(10));
    s.roll(13, &l);
    assert_eq!(s.priority_window_start, Some(13));
    assert_eq!(priority(&s), Some(vec![13, 14, 15, 16, 17, 18]));
    assert!(!s.is_playing);
    // Once more for the same piece changes nothing.
    s.roll(13, &l);
    assert_eq!(priority(&s), Some(vec![13, 14, 15, 16, 17, 18]));
}

#[test]
fn a_jump_past_the_cold_start_plays() {
    let l = lengths();
    let mut s = StreamState::new(0, 1600 * MB, 0, 0);
    s.start_window(10, &l);
    s.roll(16, &l);
    assert!(s.is_playing);
    assert_eq!(priority(&s), Some((16..31).collect::<Vec<u32>>()));
    s.roll(5, &l);
    assert!(s.is_playing);
    assert_eq!(priority(&s), Some((5..20).collect::<Vec<u32>>()));
}

#[test]
fn a_jump_before_the_window_rolls_it_back() {
    let l = lengths();
    let mut s = StreamState::new(0, 1600 * MB, 0, 0);
    s.start_window(10, &l);
    s.roll(9, &l);
    assert!(!s.is_playing);
    assert_eq!(priority(&s), Some(vec![9, 10, 11, 12, 13, 14]));
}

#[test]
fn a_window_ends_with_the_torrent() {
    let l = lengths();
    let mut s = StreamState::new(0, 1600 * MB, 0, 0);
    s.start_window(98, &l);
    assert_eq!(priority(&s), Some(vec![98, 99]));
    s.roll(100, &l);
    assert_eq!(priority(&s), Some(vec![98, 99]));
    assert_eq!(s.priority_window_start, Some(98));
    s.start_window(100, &l);
    assert_eq!(priority(&s), Some(vec![98, 99]));
    assert_eq!(s.priority_window_start, Some(100));
    s.roll(u32::MAX, &l);
    assert_eq!(priority(&s), Some(vec![98, 99]));
    assert!(s.is_playing);
}

#[test]
fn set_pieces_anchor_the_window() {
    let l = lengths();
    let mut s = StreamState::new(0, 1600 * MB, 0, 0);
    s.prioritize(pieces(&l, &[40, 41, 42, 43, 44]));
    assert_eq!(s.priority_window_start, Some(40));
    // The place that was seeked to lies in them.
    s.roll(41, &l);
    assert_eq!(priority(&s), Some(vec![40, 41, 42, 43, 44]));
    s.roll(42, &l);
    assert_eq!(priority(&s), Some(vec![42, 43, 44, 45, 46, 47]));
}

#[test]
fn an_empty_list_leaves_the_window_start() {
    let l = lengths();
    let mut s = StreamState::new(0, 1600 * MB, 0, 0);
    s.prioritize(pieces(&l, &[40]));
    s.prioritize(Some(Vec::new()));
    assert_eq!(priority(&s), Some(Vec::new()));
    assert_eq!(s.priority_window_start, Some(40));
}

#[test]
fn cleared_priority_does_not_come_back() {
    let l = lengths();
    let mut s = StreamState::new(0, 1600 * MB, 0, 0);
    s.prioritize(pieces(&l, &[40, 41]));
    s.prioritize(None);
    assert_eq!(priority(&s), None);
    s.roll(0, &l);
    s.roll(70, &l);
    assert_eq!(priority(&s), None);
    assert_eq!(s.priority_window_start, None);
}

#[test]
fn switching_on_keeps_the_pieces_that_are_there() {
    let l = lengths();
    let mut s = StreamState::new(0, 1600 * MB, 0, 0);
    s.prioritize(pieces(&l, &[40, 41]));
    s.is_playing = true;
    s.start_window_or_anchor(7, &l);
    assert_eq!(priority(&s), Some(vec![40, 41]));
    assert_eq!(s.priority_window_start, Some(40));
    assert!(!s.is_playing);
    s.prioritize(Some(Vec::new()));
    s.start_window_or_anchor(7, &l);
    assert_eq!(priority(&s), Some(vec![7, 8, 9, 10, 11, 12]));
    assert_eq!(s.priority_window_start, Some(7));
}
