use torrent_streaming::interleave::{interleave_priority, Interleave, NextPieces, PieceQueue};
use torrent_streaming::lengths::{Lengths, ValidPieceIndex};

fn queue(ids: &[u32]) -> Vec<ValidPieceIndex> {
    let l = Lengths::new(5000, 1).unwrap();
    ids.iter().map(|i| l.validate_piece_index(*i).unwrap()).collect()
}

fn numbers(pieces: &[ValidPieceIndex]) -> Vec<u32> {
    pieces.iter().map(|p| p.get()).collect()
}

fn drain(mut all: Interleave) -> Vec<u32> {
    let mut found = Vec::new();
    while let Some(p) = all.next() {
        found.push(p.get());
    }
    assert!(all.next().is_none());
    found
}

#[test]
fn a_queue_gives_its_pieces_in_order() {
    let mut q = PieceQueue::new(queue(&[5, 3]));
    assert_eq!(q.next().map(|p| p.get()), Some(5));
    assert_eq!(q.next().map(|p| p.get()), Some(3));
    assert!(q.next().is_none());
    assert!(q.next().is_none());
}

#[test]
fn queues_are_taken_from_in_turn() {
    assert_eq!(
        drain(Interleave::new(vec![queue(&[0, 1, 2]), queue(&[10]), queue(&[20, 21])])),
        vec![0, 10, 20, 1, 21, 2]
    );
}

#[test]
fn empty_queues_are_passed_over() {
    assert_eq!(drain(Interleave::new(Vec::new())), Vec::<u32>::new());
    assert_eq!(
        drain(Interleave::new(vec![queue(&[]), queue(&[1, 2]), queue(&[])])),
        vec![1, 2]
    );
}

#[test]
fn pieces_may_come_twice_in_turn() {
    assert_eq!(
        drain(Interleave::new(vec![queue(&[7, 8]), queue(&[7])])),
        vec![7, 7, 8]
    );
}

#[test]
fn priority_is_interleaved() {
    let queues = vec![queue(&[0, 1, 2, 3]), queue(&[2112, 2113])];
    assert_eq!(
        numbers(&interleave_priority(&queues)),
        vec![0, 2112, 1, 2113, 2, 3]
    );
}

#[test]
fn priority_pieces_come_once() {
    let queues = vec![queue(&[4, 5, 6]), queue(&[4, 5, 6]), queue(&[6, 9, 6])];
    assert_eq!(numbers(&interleave_priority(&queues)), vec![4, 6, 5, 9]);
    assert!(interleave_priority(&Vec::new()).is_empty());
}

#[test]
fn priority_comes_first() {
    let mut next = NextPieces::new(queue(&[9, 8]), vec![queue(&[1, 2]), queue(&[9])]);
    assert_eq!(next.next().map(|p| p.get()), Some(9));
    assert_eq!(numbers(&next.collect()), vec![8, 1, 9, 2]);
}
