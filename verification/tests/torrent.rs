use std::sync::Arc;
use std::task::Waker;
use torrent_streaming::file_stream::{FileStream, ReadStep};
use torrent_streaming::lengths::Lengths;
use torrent_streaming::streams::TorrentStreams;
use torrent_streaming::torrent::{
    ChunkTracker, FileInfo, ManagedTorrent, ManagedTorrentState, PeerReconnect, StateKind,
    TorrentError, TorrentMetadata, TorrentState,
};

const FILES: [FileInfo; 3] = [
    FileInfo { offset_in_torrent: 0, len: 25 },
    FileInfo { offset_in_torrent: 25, len: 0 },
    FileInfo { offset_in_torrent: 25, len: 75 },
];

/// The metadata of a torrent of 10 pieces of 10 bytes with three files.
fn metadata() -> TorrentMetadata {
    TorrentMetadata::new(Lengths::new(100, 10).unwrap(), FILES.to_vec()).unwrap()
}

fn ready(have: &[usize]) -> TorrentState<&'static str> {
    let mut have_pieces = vec![false; 10];
    for id in have {
        have_pieces[*id] = true;
    }
    TorrentState {
        files: "storage",
        chunks: ChunkTracker { have_pieces },
        streams: TorrentStreams::default(),
    }
}

fn live(have: &[usize]) -> ManagedTorrent<&'static str> {
    ManagedTorrent { metadata: Some(Arc::new(metadata())), state: ManagedTorrentState::Live(ready(have)) }
}

fn paused(have: &[usize]) -> ManagedTorrent<&'static str> {
    ManagedTorrent { metadata: Some(Arc::new(metadata())), state: ManagedTorrentState::Paused(ready(have)) }
}

fn in_state(state: ManagedTorrentState<&'static str>) -> ManagedTorrent<&'static str> {
    ManagedTorrent { metadata: Some(Arc::new(metadata())), state }
}

fn unresolved() -> ManagedTorrent<&'static str> {
    ManagedTorrent { metadata: None, state: ManagedTorrentState::Live(ready(&[])) }
}

fn open(t: &mut ManagedTorrent<&'static str>, file_id: usize) -> FileStream {
    t.stream(file_id).ok().unwrap().0
}

#[test]
fn files_lie_in_the_torrent() {
    let lengths = Lengths::new(100, 10).unwrap();
    let outside = FileInfo { offset_in_torrent: 30, len: 71 };
    assert!(TorrentMetadata::new(lengths, vec![outside]).is_none());
    let far = FileInfo { offset_in_torrent: u64::MAX, len: u64::MAX };
    assert!(TorrentMetadata::new(lengths, vec![far]).is_none());
    let m = metadata();
    assert_eq!(m.lengths().total_pieces(), 10);
    assert_eq!(m.file_info(2).map(|f| (f.offset_in_torrent, f.len)), Some((25, 75)));
    assert!(m.file_info(3).is_none());
}

#[test]
fn states_have_names() {
    assert_eq!(live(&[]).state.kind(), StateKind::Live);
    assert_eq!(paused(&[]).state.kind(), StateKind::Paused);
    assert_eq!(in_state(ManagedTorrentState::Initializing).state.kind(), StateKind::Initializing);
    assert_eq!(in_state(ManagedTorrentState::Error).state.kind(), StateKind::Error);
    assert_eq!(in_state(ManagedTorrentState::Gone).state.kind(), StateKind::Gone);
}

#[test]
fn storage_is_there_when_ready() {
    let m = metadata();
    let seen = paused(&[]).with_storage_and_file(2, |files, fi| (*files, fi.len), &m);
    assert_eq!(seen, Ok(("storage", 75)));
    let seen = live(&[]).with_storage_and_file(3, |_, fi| fi.len, &m);
    assert_eq!(seen, Err(TorrentError::InvalidFile));
    let seen = in_state(ManagedTorrentState::Error).with_storage_and_file(0, |_, fi| fi.len, &m);
    assert_eq!(seen, Err(TorrentError::StorageUnavailable(StateKind::Error)));
}

#[test]
fn anchors_need_a_file() {
    assert_eq!(
        unresolved().register_streaming_anchor("a", 0, 0),
        Err(TorrentError::MetadataNotResolved)
    );
    let mut t = live(&[]);
    assert_eq!(
        t.register_streaming_anchor("a", 3, 0),
        Err(TorrentError::InvalidFileForAnchor)
    );
    assert_eq!(t.streams().ok().unwrap().anchor_count(), 0);
    // The file is looked for before the state.
    let mut t = in_state(ManagedTorrentState::Gone);
    assert_eq!(
        t.register_streaming_anchor("a", 3, 0),
        Err(TorrentError::InvalidFileForAnchor)
    );
    assert_eq!(
        t.register_streaming_anchor("a", 0, 0),
        Err(TorrentError::StreamsUnavailable(StateKind::Gone))
    );
}

#[test]
fn an_anchor_is_put_in_its_file() {
    let mut t = paused(&[]);
    assert_eq!(t.register_streaming_anchor("a", 2, 40), Ok(()));
    let lengths = *metadata().lengths();
    let next = t.streams().ok().unwrap().iter_next_pieces(&lengths).collect();
    assert_eq!(next.iter().map(|p| p.get()).collect::<Vec<u32>>(), vec![6, 7, 8, 9]);
    assert_eq!(t.unregister_streaming_anchor("a"), Ok(()));
    assert!(!t.streams().ok().unwrap().has_streaming_context());
    assert_eq!(
        in_state(ManagedTorrentState::Initializing).unregister_streaming_anchor("a"),
        Err(TorrentError::StreamsUnavailable(StateKind::Initializing))
    );
}

#[test]
fn completed_pieces_are_made_known() {
    let lengths = *metadata().lengths();
    let mut t = live(&[]);
    let mut rx = t.subscribe_piece_completed().ok().unwrap();
    let piece = lengths.validate_piece_index(4).unwrap();
    let streams = t.streams_mut().ok().unwrap();
    assert!(streams.wake_streams_on_piece_completed(piece, &lengths).is_empty());
    assert_eq!(rx.try_recv(), Ok(4));
    assert_eq!(
        in_state(ManagedTorrentState::Error).subscribe_piece_completed().err(),
        Some(TorrentError::StreamsUnavailable(StateKind::Error))
    );
}

#[test]
fn a_file_is_finished_with_its_pieces() {
    let all: Vec<usize> = (0..10).collect();
    assert!(live(&all).is_file_finished(2));
    assert!(live(&[0, 1, 2]).is_file_finished(0));
    assert!(!live(&[0, 1]).is_file_finished(0));
    assert!(!live(&[2, 3, 4, 5, 6, 7, 8]).is_file_finished(2));
    assert!(live(&[]).is_file_finished(1));
    assert!(!unresolved().is_file_finished(0));
    assert!(!in_state(ManagedTorrentState::Gone).is_file_finished(0));
}

#[test]
fn peers_are_needed_for_a_file_that_is_not_there() {
    assert_eq!(
        live(&[]).maybe_reconnect_needed_peers_for_file(0),
        PeerReconnect::ReconnectAll
    );
    assert_eq!(
        live(&[0, 1, 2]).maybe_reconnect_needed_peers_for_file(0),
        PeerReconnect::FileFinished
    );
    assert_eq!(
        paused(&[]).maybe_reconnect_needed_peers_for_file(0),
        PeerReconnect::NotLive
    );
    assert_eq!(
        paused(&[0, 1, 2]).maybe_reconnect_needed_peers_for_file(0),
        PeerReconnect::FileFinished
    );
}

#[test]
fn a_stream_needs_a_file() {
    assert_eq!(unresolved().stream(0).err(), Some(TorrentError::MetadataNotResolved));
    assert_eq!(live(&[]).stream(3).err(), Some(TorrentError::InvalidFile));
    // The state is looked at before the file.
    assert_eq!(
        in_state(ManagedTorrentState::Error).stream(3).err(),
        Some(TorrentError::StorageUnavailable(StateKind::Error))
    );
    assert_eq!(
        in_state(ManagedTorrentState::Error).check_stream(0).err(),
        Some(TorrentError::StorageUnavailable(StateKind::Error))
    );
    let (file, lengths) = live(&[]).check_stream(2).ok().unwrap();
    assert_eq!((file.offset_in_torrent, file.len, lengths.total_length()), (25, 75, 100));
}

#[test]
fn a_stream_is_opened() {
    let mut t = live(&[0, 1, 2]);
    let (first, reconnect) = t.stream(0).ok().unwrap();
    assert_eq!(reconnect, PeerReconnect::FileFinished);
    let (second, reconnect) = t.stream(2).ok().unwrap();
    assert_eq!(reconnect, PeerReconnect::ReconnectAll);
    assert_eq!((first.stream_id(), second.stream_id()), (0, 1));
    assert_eq!((second.file_id(), second.len(), second.position()), (2, 75, 0));
    let state = t.streams_mut().ok().unwrap().drop_stream(1).unwrap();
    assert_eq!((state.file_id, state.file_len, state.file_abs_offset), (2, 75, 25));
}

/// A read of a reader whose streams are those that the torrent has.
fn poll(t: &mut ManagedTorrent<&'static str>, s: &FileStream) -> Result<ReadStep, TorrentError> {
    let (chunks, streams) = t.chunks_and_streams()?;
    s.poll_read(streams, Ok(chunks), Waker::noop().clone(), 100)
}

#[test]
fn a_read_gets_bytes_or_waits() {
    let mut t = live(&[2]);
    let mut s = open(&mut t, 2);
    assert_eq!(poll(&mut t, &s), Ok(ReadStep::Read { file_id: 2, offset: 0, len: 5 }));
    s.advance(t.streams_mut().ok().unwrap(), 5);
    assert_eq!(poll(&mut t, &s), Ok(ReadStep::Pending));
    let lengths = *metadata().lengths();
    let streams = t.streams_mut().ok().unwrap();
    let other = lengths.validate_piece_index(2).unwrap();
    assert!(streams.wake_streams_on_piece_completed(other, &lengths).is_empty());
    let piece = lengths.validate_piece_index(3).unwrap();
    assert_eq!(streams.wake_streams_on_piece_completed(piece, &lengths).len(), 1);
    s.set_position(streams, 75);
    assert_eq!(poll(&mut t, &s), Ok(ReadStep::Eof));
}

#[test]
fn a_read_needs_a_ready_torrent() {
    let mut t = live(&[2]);
    let s = open(&mut t, 2);
    t.state = ManagedTorrentState::Error;
    let e = TorrentError::ChunksUnavailable(StateKind::Error);
    assert_eq!(poll(&mut t, &s), Err(e));
    assert_eq!(t.chunk_tracker().err(), Some(e));
    let mut own = TorrentStreams::default();
    assert_eq!(s.poll_read(&mut own, t.chunk_tracker(), Waker::noop().clone(), 100), Err(e));
}

#[test]
fn a_reader_keeps_its_own_streams() {
    let lengths = *metadata().lengths();
    let mut t = live(&[]);
    let s = open(&mut t, 0);
    // The torrent gets other streams, where the reader's number belongs to another file.
    let before = std::mem::replace(&mut t.state, ManagedTorrentState::Live(ready(&[])));
    let mut own = match before {
        ManagedTorrentState::Live(state) => state.streams,
        _ => panic!("not live"),
    };
    let other = open(&mut t, 2);
    assert_eq!(other.stream_id(), s.stream_id());
    assert_eq!(
        s.poll_read(&mut own, t.chunk_tracker(), Waker::noop().clone(), 100),
        Ok(ReadStep::Pending)
    );
    let piece = lengths.validate_piece_index(0).unwrap();
    assert_eq!(own.wake_streams_on_piece_completed(piece, &lengths).len(), 1);
    let state = t.streams_mut().ok().unwrap().drop_stream(other.stream_id()).unwrap();
    assert!(state.waker.is_none());
    assert_eq!(state.file_id, 2);
}

#[test]
fn a_reader_is_opened_among_given_streams() {
    let mut own = TorrentStreams::default();
    let s = FileStream::open(&mut own, 2, &FILES[2], *metadata().lengths());
    assert_eq!((s.stream_id(), s.file_id(), s.len(), s.position()), (0, 2, 75, 0));
    let state = own.drop_stream(0).unwrap();
    assert_eq!((state.file_id, state.file_len, state.file_abs_offset), (2, 75, 25));
}

#[test]
fn a_piece_that_is_not_tracked_is_not_there() {
    let chunks = ChunkTracker { have_pieces: vec![true, false] };
    assert!(chunks.have_piece(0));
    assert!(!chunks.have_piece(1));
    assert!(!chunks.have_piece(2));
}
