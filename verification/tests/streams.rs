use std::sync::atomic::{AtomicUsize, Ordering};
use std::sync::Arc;
use std::task::{Wake, Waker};
use std::time::Instant;
use tokio::sync::broadcast::error::TryRecvError;
use torrent_streaming::lengths::{Lengths, ValidPieceIndex};
use torrent_streaming::stream_state::StreamState;
use torrent_streaming::streams::{
    concat_priority_pieces, plan_next_pieces, Received, StreamingAnchor, TorrentStreams,
    ACTIVE_SECS, PIECE_NOTIFY_CAPACITY, RECENT_SECS,
};

const SECOND: u128 = 1_000_000_000;

struct Counter(AtomicUsize);

impl Wake for Counter {
    fn wake(self: Arc<Self>) {
        self.0.fetch_add(1, Ordering::SeqCst);
    }
}

fn counter() -> Arc<Counter> {
    Arc::new(Counter(AtomicUsize::new(0)))
}

/// A torrent of 100 pieces of 10 bytes.
fn lengths() -> Lengths {
    Lengths::new(1000, 10).unwrap()
}

fn piece(id: u32) -> ValidPieceIndex {
    lengths().validate_piece_index(id).unwrap()
}

fn pieces(ids: &[u32]) -> Vec<ValidPieceIndex> {
    ids.iter().map(|i| piece(*i)).collect()
}

fn numbers(pieces: &[ValidPieceIndex]) -> Vec<u32> {
    pieces.iter().map(|p| p.get()).collect()
}

fn sorted(mut ids: Vec<u32>) -> Vec<u32> {
    ids.sort();
    ids
}

/// A stream of the 30 bytes from `file_abs_offset` on.
fn state(file_abs_offset: u64, last_activity: u128) -> StreamState {
    StreamState::new(0, 30, file_abs_offset, last_activity)
}

fn anchor(file_abs_offset: u64, position: u64) -> StreamingAnchor {
    StreamingAnchor {
        file_id: 0,
        file_abs_offset,
        position,
        file_len: 30,
        last_updated: Instant::now(),
    }
}

fn plan(
    streams: &Vec<(usize, StreamState)>,
    anchors: &Vec<(String, StreamingAnchor)>,
    now: u128,
) -> (Vec<u32>, Vec<Vec<u32>>) {
    let (priority, queues) = plan_next_pieces(streams, anchors, now, &lengths());
    (numbers(&priority), queues.iter().map(|q| numbers(q)).collect())
}

fn next(streams: &TorrentStreams) -> Vec<u32> {
    numbers(&streams.iter_next_pieces(&lengths()).collect())
}

#[test]
fn the_times_that_count() {
    assert_eq!(ACTIVE_SECS, 2);
    assert_eq!(RECENT_SECS, 30);
    assert_eq!(PIECE_NOTIFY_CAPACITY, 256);
}

#[test]
fn nothing_is_needed_at_first() {
    let s = TorrentStreams::default();
    assert_eq!(s.stream_count(), 0);
    assert_eq!(s.anchor_count(), 0);
    assert!(!s.has_streaming_context());
    assert!(next(&s).is_empty());
    assert!(s.get_all_priority_pieces().is_empty());
    assert!(s.streamed_file_ids().is_empty());
    assert_eq!(s.get_stream_id_by_file(0), None);
}

#[test]
fn streams_are_numbered() {
    let mut s = TorrentStreams::default();
    assert_eq!(s.next_id(), 0);
    assert_eq!(s.open_stream(7, 30, 0), 1);
    assert_eq!(s.open_stream_at(8, 30, 30, 0), 2);
    assert_eq!(s.stream_count(), 2);
    assert!(s.has_streaming_context());
    let mut files = s.streamed_file_ids();
    files.sort();
    assert_eq!(files, vec![7, 8]);
    assert_eq!(s.get_stream_id_by_file(8), Some(2));
    assert_eq!(s.get_stream_id_by_file(9), None);
}

#[test]
fn a_dropped_stream_is_gone() {
    let mut s = TorrentStreams::default();
    let id = s.open_stream(7, 30, 20);
    s.move_stream(id, 12, 3, &lengths());
    let dropped = s.drop_stream(id).unwrap();
    assert_eq!((dropped.file_id, dropped.position, dropped.file_abs_offset), (7, 12, 20));
    assert!(s.drop_stream(id).is_none());
    assert_eq!(s.stream_count(), 0);
    assert!(!s.has_streaming_context());
}

#[test]
fn active_streams_are_interleaved() {
    let streams = vec![(0, state(0, 10 * SECOND)), (1, state(300, 10 * SECOND))];
    assert_eq!(
        plan(&streams, &vec![("a".to_string(), anchor(600, 0))], 10 * SECOND),
        (vec![], vec![vec![0, 1, 2], vec![30, 31, 32]])
    );
}

#[test]
fn idle_streams_do_not_count_beside_active_ones() {
    let streams = vec![(0, state(0, 10 * SECOND)), (1, state(300, 12 * SECOND))];
    assert_eq!(
        plan(&streams, &Vec::new(), 12 * SECOND - 1).1,
        vec![vec![0, 1, 2], vec![30, 31, 32]]
    );
    assert_eq!(plan(&streams, &Vec::new(), 12 * SECOND).1, vec![vec![30, 31, 32]]);
}

#[test]
fn the_stream_that_was_active_last_stands_in() {
    let streams = vec![
        (0, state(0, 0)),
        (1, state(300, 10 * SECOND)),
        (2, state(600, 10 * SECOND + 5)),
    ];
    // Whole seconds count: the first of the two that were idle for the same time is taken.
    assert_eq!(
        plan(&streams, &vec![("a".to_string(), anchor(900, 0))], 20 * SECOND + 9).1,
        vec![vec![30, 31, 32]]
    );
}

#[test]
fn anchors_stand_in_after_half_a_minute() {
    let streams = vec![(0, state(0, 0))];
    let anchors = vec![
        ("a".to_string(), anchor(300, 0)),
        ("b".to_string(), anchor(600, 15)),
    ];
    assert_eq!(plan(&streams, &anchors, 30 * SECOND - 1).1, vec![vec![0, 1, 2]]);
    assert_eq!(
        plan(&streams, &anchors, 30 * SECOND).1,
        vec![vec![30, 31, 32], vec![61, 62]]
    );
    assert_eq!(plan(&streams, &Vec::new(), 30 * SECOND).1, Vec::<Vec<u32>>::new());
}

#[test]
fn a_clock_that_lags_makes_no_stream_idle() {
    let streams = vec![(0, state(0, 50 * SECOND))];
    assert_eq!(plan(&streams, &Vec::new(), 0).1, vec![vec![0, 1, 2]]);
}

#[test]
fn priority_of_idle_streams_counts_too() {
    let mut idle = state(300, 0);
    idle.prioritize(Some(pieces(&[33, 34])));
    let mut busy = state(0, 100 * SECOND);
    busy.prioritize(Some(pieces(&[1, 33, 2])));
    let streams = vec![(0, idle), (1, busy)];
    assert_eq!(
        plan(&streams, &Vec::new(), 100 * SECOND),
        (vec![33, 1, 34, 2], vec![vec![0, 1, 2]])
    );
    assert_eq!(numbers(&concat_priority_pieces(&streams)), vec![33, 34, 1, 33, 2]);
}

#[test]
fn priority_pieces_of_all_streams_come_first() {
    let mut s = TorrentStreams::default();
    let a = s.open_stream(0, 30, 0);
    let b = s.open_stream(1, 30, 300);
    s.set_stream_priority(b, Some(pieces(&[50, 51])));
    let order = next(&s);
    assert_eq!(order[..2], [50, 51]);
    assert_eq!(sorted(order[2..].to_vec()), vec![0, 1, 2, 30, 31, 32]);
    assert_eq!(numbers(&s.get_all_priority_pieces()), vec![50, 51]);
    s.set_stream_priority(b, None);
    assert!(s.get_all_priority_pieces().is_empty());
    assert_eq!(sorted(next(&s)), vec![0, 1, 2, 30, 31, 32]);
    s.drop_stream(a);
    assert_eq!(next(&s), vec![30, 31, 32]);
}

#[test]
fn streams_are_taken_from_in_either_order() {
    let mut s = TorrentStreams::default();
    s.open_stream(0, 30, 0);
    s.open_stream(1, 30, 300);
    let mut firsts = Vec::new();
    for _ in 0..64 {
        let order = next(&s);
        assert!(order == [0, 30, 1, 31, 2, 32] || order == [30, 0, 31, 1, 32, 2]);
        firsts.push(order[0]);
    }
    assert!(firsts.contains(&0) && firsts.contains(&30));
}

#[test]
fn priority_of_one_stream_leaves_the_others() {
    let mut s = TorrentStreams::default();
    let a = s.open_stream(0, 30, 0);
    let b = s.open_stream(1, 30, 300);
    s.set_stream_priority(a, Some(pieces(&[5])));
    s.set_stream_priority(99, Some(pieces(&[6])));
    assert_eq!(s.stream_count(), 2);
    assert!(s.drop_stream(b).unwrap().priority_pieces.is_none());
    assert_eq!(numbers(&s.drop_stream(a).unwrap().priority_pieces.unwrap()), vec![5]);
}

#[test]
fn a_moved_stream_rolls_its_window() {
    let mut s = TorrentStreams::default();
    let id = s.open_stream_at(0, 1000, 0, 1);
    s.move_stream_at(id, 25, 2, &lengths(), 2);
    assert!(s.get_all_priority_pieces().is_empty());
    s.enable_rolling_priority(id, 2, &lengths());
    assert_eq!(numbers(&s.get_all_priority_pieces()), vec![2, 3, 4, 5, 6, 7]);
    s.move_stream_at(id, 57, 5, &lengths(), 9);
    assert_eq!(numbers(&s.get_all_priority_pieces()), vec![5, 6, 7, 8, 9, 10]);
    s.enable_or_anchor_rolling_priority(id, 50, &lengths());
    assert_eq!(numbers(&s.get_all_priority_pieces()), vec![5, 6, 7, 8, 9, 10]);
    let dropped = s.drop_stream(id).unwrap();
    assert_eq!((dropped.position, dropped.last_activity), (57, 9));
    assert_eq!(dropped.priority_window_start, Some(5));
}

#[test]
fn what_is_done_to_a_missing_stream_is_nothing() {
    let mut s = TorrentStreams::default();
    s.move_stream(3, 1, 0, &lengths());
    s.enable_rolling_priority(3, 0, &lengths());
    s.enable_or_anchor_rolling_priority(3, 0, &lengths());
    s.register_waker(3, Waker::noop().clone());
    assert_eq!(s.stream_count(), 0);
}

#[test]
fn a_completed_piece_wakes_its_readers() {
    let l = lengths();
    let mut s = TorrentStreams::default();
    let a = s.open_stream(0, 30, 0);
    let b = s.open_stream(0, 30, 0);
    let c = s.open_stream(0, 30, 0);
    s.move_stream(c, 10, 1, &l);
    let counters = [counter(), counter(), counter()];
    s.register_waker(a, Waker::from(counters[0].clone()));
    s.register_waker_at(b, Waker::from(counters[1].clone()), 5);
    s.register_waker(c, Waker::from(counters[2].clone()));

    let wakers = s.wake_streams_on_piece_completed(piece(0), &l);
    assert_eq!(wakers.len(), 2);
    for waker in wakers {
        waker.wake();
    }
    let counts: Vec<usize> = counters.iter().map(|c| c.0.load(Ordering::SeqCst)).collect();
    assert_eq!(counts, vec![1, 1, 0]);

    assert!(s.wake_streams_on_piece_completed(piece(0), &l).is_empty());
    assert!(s.drop_stream(a).unwrap().waker.is_none());
    let waiting = s.drop_stream(c).unwrap();
    assert!(waiting.waker.unwrap().will_wake(&Waker::from(counters[2].clone())));
}

#[test]
fn the_last_waker_counts() {
    let l = lengths();
    let mut s = TorrentStreams::default();
    let id = s.open_stream(0, 30, 0);
    let counters = [counter(), counter()];
    s.register_waker(id, Waker::from(counters[0].clone()));
    s.register_waker(id, Waker::from(counters[1].clone()));
    for waker in s.wake_streams_on_piece_completed(piece(0), &l) {
        waker.wake();
    }
    assert_eq!(counters[0].0.load(Ordering::SeqCst), 0);
    assert_eq!(counters[1].0.load(Ordering::SeqCst), 1);
}

#[test]
fn waiting_makes_a_stream_active() {
    let mut s = TorrentStreams::default();
    let id = s.open_stream_at(0, 30, 0, 5);
    s.register_waker_at(id, Waker::noop().clone(), 77);
    assert_eq!(s.drop_stream(id).unwrap().last_activity, 77);
}

#[test]
fn subscribers_hear_of_completed_pieces() {
    let l = lengths();
    let mut s = TorrentStreams::default();
    // Nobody listens yet.
    assert!(s.wake_streams_on_piece_completed(piece(1), &l).is_empty());
    let mut first = s.subscribe_piece_completed();
    assert!(s.wake_streams_on_piece_completed(piece(2), &l).is_empty());
    let mut second = s.subscribe_piece_completed();
    assert!(s.wake_streams_on_piece_completed(piece(3), &l).is_empty());
    assert_eq!(first.try_recv(), Ok(2));
    assert_eq!(first.try_recv(), Ok(3));
    assert_eq!(first.try_recv(), Err(TryRecvError::Empty));
    assert_eq!(second.try_recv(), Ok(3));
    assert_eq!(second.try_recv(), Err(TryRecvError::Empty));
}

#[test]
fn a_subscriber_that_lags_misses_pieces() {
    let l = Lengths::new(1000, 1).unwrap();
    let mut s = TorrentStreams::default();
    let mut rx = s.subscribe_piece_completed();
    for id in 0..257 {
        let id = l.validate_piece_index(id).unwrap();
        assert!(s.wake_streams_on_piece_completed(id, &l).is_empty());
    }
    assert_eq!(rx.try_recv(), Err(TryRecvError::Lagged(1)));
    assert_eq!(rx.try_recv(), Ok(1));
}

#[test]
fn what_a_subscriber_gets_next() {
    let l = Lengths::new(1000, 1).unwrap();
    let mut s = TorrentStreams::default();
    let mut rx = s.subscribe_piece_completed();
    assert_eq!(s.receive_piece_completed(&mut rx), Received::Nothing);
    for id in 0..300 {
        let id = l.validate_piece_index(id).unwrap();
        assert!(s.wake_streams_on_piece_completed(id, &l).is_empty());
    }
    assert_eq!(s.receive_piece_completed(&mut rx), Received::Lagged(44));
    for id in 44..300 {
        assert_eq!(s.receive_piece_completed(&mut rx), Received::Value(id));
    }
    assert_eq!(s.receive_piece_completed(&mut rx), Received::Nothing);
    // As many as are held are not missed.
    for id in 0..256 {
        let id = l.validate_piece_index(id).unwrap();
        assert!(s.wake_streams_on_piece_completed(id, &l).is_empty());
    }
    assert_eq!(s.receive_piece_completed(&mut rx), Received::Value(0));
}

#[test]
fn anchors_come_and_go() {
    let mut s = TorrentStreams::default();
    s.register_streaming_anchor("a", 0, 0, 0, 30);
    assert!(s.has_streaming_context());
    assert_eq!(s.anchor_count(), 1);
    assert_eq!(next(&s), vec![0, 1, 2]);
    // The same session moves on.
    s.register_streaming_anchor("a", 0, 10, 300, 30);
    assert_eq!(s.anchor_count(), 1);
    assert_eq!(next(&s), vec![31, 32]);
    s.register_streaming_anchor("b", 0, 0, 600, 20);
    assert_eq!(s.anchor_count(), 2);
    assert_eq!(sorted(next(&s)), vec![31, 32, 60, 61]);
    s.unregister_streaming_anchor("c");
    assert_eq!(s.anchor_count(), 2);
    s.unregister_streaming_anchor("a");
    assert_eq!(next(&s), vec![60, 61]);
    s.unregister_streaming_anchor("b");
    assert!(!s.has_streaming_context());
}

#[test]
fn anchors_outlive_streams() {
    let mut s = TorrentStreams::default();
    s.register_streaming_anchor("a", 0, 0, 600, 20);
    let id = s.open_stream(0, 30, 0);
    assert_eq!(next(&s), vec![0, 1, 2]);
    s.drop_stream(id);
    assert!(s.has_streaming_context());
    assert_eq!(next(&s), vec![60, 61]);
}

#[test]
fn a_copied_anchor_is_the_same() {
    let a = anchor(300, 7);
    let b = a.clone();
    assert_eq!(
        (b.file_id, b.file_abs_offset, b.position, b.file_len, b.last_updated),
        (0, 300, 7, 30, a.last_updated)
    );
}

#[test]
fn the_piece_that_each_reader_needs_comes_in_the_first_turn() {
    let mut s = TorrentStreams::default();
    s.open_stream(0, 30, 0);
    s.open_stream(1, 300, 300);
    let id = s.open_stream(2, 300, 600);
    s.move_stream(id, 45, 64, &lengths());
    let order = next(&s);
    assert_eq!(sorted(order[..3].to_vec()), vec![0, 30, 64]);
    assert!(order.iter().all(|piece| *piece < 100));
}
