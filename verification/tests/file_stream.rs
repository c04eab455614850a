use torrent_streaming::file_stream::{FileStream, ReadStart, SeekError, SeekFrom};
use torrent_streaming::lengths::Lengths;
use torrent_streaming::streams::TorrentStreams;

/// A torrent of 25 pieces of 10 bytes.
fn lengths() -> Lengths {
    Lengths::new(250, 10).unwrap()
}

/// A reader of the 200 bytes from byte 15 on.
fn open(streams: &mut TorrentStreams) -> FileStream {
    let id = streams.open_stream(4, 200, 15);
    FileStream::new(id, 4, 200, 15, lengths())
}

fn priority(streams: &TorrentStreams) -> Vec<u32> {
    streams.get_all_priority_pieces().iter().map(|p| p.get()).collect()
}

#[test]
fn a_reader_starts_at_the_start() {
    let mut streams = TorrentStreams::default();
    let s = open(&mut streams);
    assert_eq!((s.position(), s.len(), s.stream_id(), s.file_id()), (0, 200, 0, 4));
    assert_eq!(s.poll_complete(), 0);
}

#[test]
fn a_reader_moves_its_stream() {
    let mut streams = TorrentStreams::default();
    let mut s = open(&mut streams);
    s.set_position(&mut streams, 100);
    s.advance(&mut streams, 20);
    assert_eq!(s.position(), 120);
    assert_eq!(streams.drop_stream(s.stream_id()).unwrap().position, 120);
    // A reader whose stream is gone still moves.
    s.advance(&mut streams, 80);
    assert_eq!(s.position(), 200);
}

#[test]
fn seeks_lead_somewhere() {
    let mut streams = TorrentStreams::default();
    let mut s = open(&mut streams);
    assert_eq!(s.start_seek(&mut streams, SeekFrom::Start(50)), Ok(()));
    assert_eq!(s.poll_complete(), 50);
    assert_eq!(s.start_seek(&mut streams, SeekFrom::Current(-20)), Ok(()));
    assert_eq!(s.poll_complete(), 30);
    assert_eq!(s.start_seek(&mut streams, SeekFrom::End(-1)), Ok(()));
    assert_eq!(s.poll_complete(), 199);
    assert_eq!(s.start_seek(&mut streams, SeekFrom::End(0)), Ok(()));
    assert_eq!(s.poll_complete(), 200);
    assert_eq!(s.start_seek(&mut streams, SeekFrom::Current(0)), Ok(()));
    assert_eq!(s.poll_complete(), 200);
}

#[test]
fn seeks_stay_in_the_file() {
    let mut streams = TorrentStreams::default();
    let mut s = open(&mut streams);
    s.set_position(&mut streams, 10);
    for to in [
        SeekFrom::Start(201),
        SeekFrom::Current(-11),
        SeekFrom::Current(191),
        SeekFrom::Current(i64::MAX),
        SeekFrom::End(1),
        SeekFrom::End(-201),
        SeekFrom::End(i64::MAX),
    ] {
        assert_eq!(s.start_seek(&mut streams, to), Err(SeekError::InvalidSeek));
        assert_eq!(s.position(), 10);
    }
}

#[test]
fn seeks_are_signed() {
    let mut streams = TorrentStreams::default();
    let mut s = open(&mut streams);
    assert_eq!(
        s.start_seek(&mut streams, SeekFrom::Start(1 << 63)),
        Err(SeekError::OutOfRange)
    );
    let l = Lengths::new(u64::MAX, u32::MAX - 1);
    assert!(l.is_none());
    let l = Lengths::new((1 << 63) + 5, u32::MAX - 1).unwrap();
    let mut s = FileStream::new(0, 0, 1 << 63, 0, l);
    assert_eq!(
        s.start_seek(&mut streams, SeekFrom::Start(0)),
        Err(SeekError::OutOfRange)
    );
}

#[test]
fn a_read_stays_in_its_piece() {
    let mut streams = TorrentStreams::default();
    let mut s = open(&mut streams);
    match s.read_start() {
        ReadStart::At(current) => {
            assert_eq!((current.id.get(), current.piece_remaining), (1, 5));
            assert_eq!(s.read_len(current, 100), 5);
            assert_eq!(s.read_len(current, 3), 3);
        }
        ReadStart::Eof | ReadStart::InvalidPosition => panic!("no piece"),
    }
    s.set_position(&mut streams, 196);
    match s.read_start() {
        ReadStart::At(current) => {
            assert_eq!((current.id.get(), current.piece_remaining), (21, 9));
            assert_eq!(s.read_len(current, 100), 4);
        }
        ReadStart::Eof | ReadStart::InvalidPosition => panic!("no piece"),
    }
    s.set_position(&mut streams, 200);
    assert!(matches!(s.read_start(), ReadStart::Eof));
}

#[test]
fn reads_cover_the_file() {
    let mut streams = TorrentStreams::default();
    let mut s = open(&mut streams);
    let mut lens = Vec::new();
    while let ReadStart::At(current) = s.read_start() {
        let n = s.read_len(current, 8);
        s.advance(&mut streams, n as u64);
        lens.push(n);
    }
    assert_eq!(s.position(), 200);
    assert_eq!(lens[..5], [5, 8, 2, 8, 2]);
    assert_eq!(lens.iter().sum::<usize>(), 200);
}

#[test]
fn rolling_priority_starts_at_the_position() {
    let mut streams = TorrentStreams::default();
    let mut s = open(&mut streams);
    s.set_position(&mut streams, 30);
    assert!(priority(&streams).is_empty());
    s.enable_rolling_priority(&mut streams);
    assert_eq!(priority(&streams), vec![4, 5, 6, 7, 8, 9]);
    s.set_position(&mut streams, 55);
    assert_eq!(priority(&streams), vec![7, 8, 9, 10, 11, 12]);
}

#[test]
fn rolling_priority_is_anchored_to_set_pieces() {
    let l = lengths();
    let mut streams = TorrentStreams::default();
    let s = open(&mut streams);
    let chosen = vec![l.validate_piece_index(12).unwrap(), l.validate_piece_index(13).unwrap()];
    s.set_priority(&mut streams, Some(chosen));
    s.enable_rolling_priority(&mut streams);
    assert_eq!(priority(&streams), vec![12, 13]);
    s.set_priority(&mut streams, None);
    assert!(priority(&streams).is_empty());
}

#[test]
fn cleared_priority_stays_cleared_while_reading() {
    let mut streams = TorrentStreams::default();
    let mut s = open(&mut streams);
    s.enable_rolling_priority(&mut streams);
    s.advance(&mut streams, 10);
    assert!(!priority(&streams).is_empty());
    s.set_priority(&mut streams, None);
    s.advance(&mut streams, 100);
    assert!(priority(&streams).is_empty());
}
