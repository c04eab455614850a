//! A torrent in one of its states, and what streaming asks of it.
use crate::file_stream::{FileStream, FileStreamView};
use crate::lengths::{div_up, lemma_scaled_order, Lengths};
use crate::streams::{TorrentStreams, TorrentStreamsView};
use crate::outside::{passed, source_of};
use std::sync::Arc;
use tokio::sync::broadcast::Receiver;
use vstd::arithmetic::div_mod::{lemma_fundamental_div_mod, lemma_mod_bound};
use vstd::prelude::*;

verus! {

/// Where a file lies in its torrent.
#[derive(Clone, Copy, Debug)]
pub struct FileInfo {
    pub offset_in_torrent: u64,
    pub len: u64,
}

impl FileInfo {
    /// The file lies in the torrent.
    pub open spec fn fits(self, l: Lengths) -> bool {
        self.offset_in_torrent + self.len <= l.total()
    }

    /// Piece `id` holds a byte of the file.
    pub open spec fn in_piece(self, id: int, l: Lengths) -> bool {
        self.len > 0 && self.offset_in_torrent as int / l.piece() <= id < div_up(
            self.offset_in_torrent + self.len,
            l.piece(),
        )
    }
}

/// What is known of a torrent once its metadata is there.
pub struct TorrentMetadata {
    lengths: Lengths,
    file_infos: Vec<FileInfo>,
}

impl TorrentMetadata {
    /// The geometry of the torrent.
    pub closed spec fn geometry(self) -> Lengths {
        self.lengths
    }

    /// The files of the torrent.
    pub closed spec fn files(self) -> Seq<FileInfo> {
        self.file_infos@
    }

    /// Every file lies in the torrent.
    pub open spec fn wf(self) -> bool {
        &&& self.geometry().wf()
        &&& forall|i: int| 0 <= i < self.files().len() ==> (#[trigger] self.files()[i]).fits(
            self.geometry(),
        )
    }

    #[verifier::type_invariant]
    spec fn inv(self) -> bool {
        self.wf()
    }

    /// The metadata of a torrent, unless a file does not lie in it.
    pub fn new(lengths: Lengths, file_infos: Vec<FileInfo>) -> (r: Option<Self>)
        ensures
            r is Some <==> forall|i: int|
                0 <= i < file_infos@.len() ==> (#[trigger] file_infos@[i]).fits(lengths),
            r matches Some(m) ==> m.wf() && m.geometry() == lengths && m.files()
                == file_infos@,
    {
        let total: u64 = lengths.total_length();
        let mut i: usize = 0;
        while i < file_infos.len()
            invariant
                i <= file_infos.len(),
                total == lengths.total(),
                forall|k: int| 0 <= k < i ==> (#[trigger] file_infos@[k]).fits(lengths),
            decreases file_infos.len() - i,
        {
            let file = file_infos[i];
            if file.offset_in_torrent as u128 + file.len as u128 > total as u128 {
                assert(!file_infos@[i as int].fits(lengths));
                return None;
            }
            i = i + 1;
        }
        Some(TorrentMetadata { lengths, file_infos })
    }

    /// The geometry of the torrent.
    pub fn lengths(&self) -> (l: &Lengths)
        ensures
            *l == self.geometry(),
            self.wf(),
    {
        proof {
            use_type_invariant(self);
        }
        &self.lengths
    }

    /// The file with the number `file_id`, if the torrent has it.
    pub fn file_info(&self, file_id: usize) -> (r: Option<&FileInfo>)
        ensures
            r is Some <==> file_id < self.files().len(),
            r matches Some(f) ==> *f == self.files()[file_id as int] && f.fits(self.geometry()),
    {
        proof {
            use_type_invariant(self);
        }
        if file_id < self.file_infos.len() {
            Some(&self.file_infos[file_id])
        } else {
            None
        }
    }
}

/// Which pieces are downloaded and checked.
pub struct ChunkTracker {
    pub have_pieces: Vec<bool>,
}

impl ChunkTracker {
    /// Piece `id` is there.
    pub open spec fn has(self, id: int) -> bool {
        0 <= id < self.have_pieces@.len() && self.have_pieces@[id]
    }

    /// Every piece of a file is there.
    pub open spec fn has_file(self, file: FileInfo, l: Lengths) -> bool {
        forall|id: int| file.in_piece(id, l) ==> #[trigger] self.has(id)
    }

    /// Whether piece `id` is there.
    pub fn have_piece(&self, id: u32) -> (r: bool)
        ensures
            r == self.has(id as int),
    {
        (id as usize) < self.have_pieces.len() && self.have_pieces[id as usize]
    }

    /// Whether every piece of a file is there.
    pub fn is_file_finished(&self, file: &FileInfo, lengths: &Lengths) -> (r: bool)
        ensures
            r == self.has_file(*file, *lengths),
    {
        if file.len == 0 {
            return true;
        }
        let dpl: u128 = lengths.default_piece_length() as u128;
        let first: u128 = file.offset_in_torrent as u128 / dpl;
        let end: u128 = (file.offset_in_torrent as u128 + file.len as u128 + dpl - 1) / dpl;
        let mut id: u128 = first;
        while id < end
            invariant
                file.len > 0,
                dpl == lengths.piece(),
                first == file.offset_in_torrent as int / lengths.piece(),
                end == div_up(file.offset_in_torrent + file.len, lengths.piece()),
                first <= id,
                forall|k: int| first <= k < id ==> #[trigger] self.has(k),
            decreases end - id,
        {
            if id >= self.have_pieces.len() as u128 || !self.have_pieces[id as usize] {
                assert(file.in_piece(id as int, *lengths) && !self.has(id as int));
                return false;
            }
            assert(self.has(id as int));
            id = id + 1;
        }
        true
    }
}

/// What a torrent has while it is paused or live. `S` is the handle of its storage.
pub struct TorrentState<S> {
    pub files: S,
    pub chunks: ChunkTracker,
    pub streams: TorrentStreams,
}

/// The state of a torrent.
pub enum ManagedTorrentState<S> {
    Initializing,
    Paused(TorrentState<S>),
    Live(TorrentState<S>),
    Error,
    Gone,
}

/// The name of a state.
#[derive(Clone, Copy, Debug, PartialEq, Eq, Structural)]
pub enum StateKind {
    Initializing,
    Paused,
    Live,
    Error,
    Gone,
}

impl<S> ManagedTorrentState<S> {
    /// The name of the state.
    pub open spec fn spec_kind(self) -> StateKind {
        match self {
            ManagedTorrentState::Initializing => StateKind::Initializing,
            ManagedTorrentState::Paused(_) => StateKind::Paused,
            ManagedTorrentState::Live(_) => StateKind::Live,
            ManagedTorrentState::Error => StateKind::Error,
            ManagedTorrentState::Gone => StateKind::Gone,
        }
    }

    /// What the torrent has, if it is paused or live.
    pub open spec fn ready(self) -> Option<TorrentState<S>> {
        match self {
            ManagedTorrentState::Paused(t) => Some(t),
            ManagedTorrentState::Live(t) => Some(t),
            _ => None,
        }
    }

    /// The name of the state.
    pub fn kind(&self) -> (k: StateKind)
        ensures
            k == self.spec_kind(),
    {
        match self {
            ManagedTorrentState::Initializing => StateKind::Initializing,
            ManagedTorrentState::Paused(_) => StateKind::Paused,
            ManagedTorrentState::Live(_) => StateKind::Live,
            ManagedTorrentState::Error => StateKind::Error,
            ManagedTorrentState::Gone => StateKind::Gone,
        }
    }
}

/// Why a torrent refuses a request.
#[derive(Clone, Copy, Debug, PartialEq, Eq, Structural)]
pub enum TorrentError {
    /// The torrent's metadata is not there yet.
    MetadataNotResolved,
    /// There is no such file to put an anchor in.
    InvalidFileForAnchor,
    /// There is no such file.
    InvalidFile,
    /// The torrent has no storage in this state.
    StorageUnavailable(StateKind),
    /// The torrent has no streams in this state.
    StreamsUnavailable(StateKind),
    /// It is not known in this state which pieces are there.
    ChunksUnavailable(StateKind),
    /// The position of a reader is in no piece.
    InvalidPosition,
}

/// What to do about peers that were let go because nothing was needed from them.
#[derive(Clone, Copy, Debug, PartialEq, Eq, Structural)]
pub enum PeerReconnect {
    /// Nothing: the file is complete.
    FileFinished,
    /// Nothing: the torrent is not live, so it has no peers.
    NotLive,
    /// Connect to all of them again.
    ReconnectAll,
}

/// A torrent.
pub struct ManagedTorrent<S> {
    /// The metadata, shared with the readers.
    pub metadata: Option<Arc<TorrentMetadata>>,
    pub state: ManagedTorrentState<S>,
}

impl<S> ManagedTorrent<S> {
    /// All is as in `other`, except maybe the streams.
    pub open spec fn same_but_streams(self, other: Self) -> bool {
        &&& self.metadata == other.metadata
        &&& self.state.spec_kind() == other.state.spec_kind()
        &&& self.state.ready() is Some <==> other.state.ready() is Some
        &&& self.state.ready() matches Some(t) ==> t.files == other.state.ready()->0.files
            && t.chunks == other.state.ready()->0.chunks
    }

    /// What the streams of the torrent say, where it has them.
    pub open spec fn streams_view(self) -> TorrentStreamsView {
        self.state.ready()->0.streams@
    }

    /// Calls `f` with the storage and with the file `file_id`.
    pub fn with_storage_and_file<F, R>(
        &self,
        file_id: usize,
        f: F,
        metadata: &TorrentMetadata,
    ) -> (r: Result<R, TorrentError>) where F: FnOnce(&S, &FileInfo) -> R
        requires
            self.state.ready() matches Some(t) ==> file_id < metadata.files().len()
                ==> call_requires(f, (&t.files, &metadata.files()[file_id as int])),
        ensures
            match self.state.ready() {
                None => r == Err::<R, TorrentError>(
                    TorrentError::StorageUnavailable(self.state.spec_kind()),
                ),
                Some(t) => if file_id < metadata.files().len() {
                    r matches Ok(v) && call_ensures(
                        f,
                        (&t.files, &metadata.files()[file_id as int]),
                        v,
                    )
                } else {
                    r == Err::<R, TorrentError>(TorrentError::InvalidFile)
                },
            },
    {
        let files: &S = match &self.state {
            ManagedTorrentState::Paused(t) => &t.files,
            ManagedTorrentState::Live(t) => &t.files,
            _ => {
                return Err(TorrentError::StorageUnavailable(self.state.kind()));
            },
        };
        match metadata.file_info(file_id) {
            Some(fi) => Ok(f(files, fi)),
            None => Err(TorrentError::InvalidFile),
        }
    }

    /// The streams of the torrent.
    pub fn streams(&self) -> (r: Result<&TorrentStreams, TorrentError>)
        ensures
            match self.state.ready() {
                None => r == Err::<&TorrentStreams, TorrentError>(
                    TorrentError::StreamsUnavailable(self.state.spec_kind()),
                ),
                Some(t) => r == Ok::<&TorrentStreams, TorrentError>(&t.streams),
            },
    {
        match &self.state {
            ManagedTorrentState::Paused(t) => Ok(&t.streams),
            ManagedTorrentState::Live(t) => Ok(&t.streams),
            _ => Err(TorrentError::StreamsUnavailable(self.state.kind())),
        }
    }

    /// The streams of the torrent, to change them.
    pub fn streams_mut(&mut self) -> (r: Result<&mut TorrentStreams, TorrentError>)
        ensures
            match old(self).state.ready() {
                None => r is Err && r->Err_0 == TorrentError::StreamsUnavailable(
                    old(self).state.spec_kind(),
                ) && *final(self) == *old(self),
                Some(t) => {
                    &&& r is Ok
                    &&& *r->Ok_0 == t.streams
                    &&& final(self).same_but_streams(*old(self))
                    &&& final(self).state.ready()->0.streams == *final(r->Ok_0)
                },
            },
    {
        match &mut self.state {
            ManagedTorrentState::Paused(t) => Ok(&mut t.streams),
            ManagedTorrentState::Live(t) => Ok(&mut t.streams),
            ManagedTorrentState::Initializing => Err(
                TorrentError::StreamsUnavailable(StateKind::Initializing),
            ),
            ManagedTorrentState::Error => Err(TorrentError::StreamsUnavailable(StateKind::Error)),
            ManagedTorrentState::Gone => Err(TorrentError::StreamsUnavailable(StateKind::Gone)),
        }
    }

    /// Why there can be no anchor in the file `file_id`, if there cannot.
    pub open spec fn anchor_refusal(self, file_id: usize) -> Option<TorrentError> {
        match self.metadata {
            None => Some(TorrentError::MetadataNotResolved),
            Some(m) => if file_id >= m.files().len() {
                Some(TorrentError::InvalidFileForAnchor)
            } else if self.state.ready() is None {
                Some(TorrentError::StreamsUnavailable(self.state.spec_kind()))
            } else {
                None
            },
        }
    }

    /// Registers that the user of a session watches the file `file_id` at byte
    /// `position`, or moves that place.
    pub fn register_streaming_anchor(
        &mut self,
        session_id: &str,
        file_id: usize,
        position: u64,
    ) -> (r: Result<(), TorrentError>)
        ensures
            match old(self).anchor_refusal(file_id) {
                Some(e) => r == Err::<(), TorrentError>(e) && *final(self) == *old(self),
                None => {
                    let file = old(self).metadata->0.files()[file_id as int];
                    &&& r is Ok
                    &&& final(self).same_but_streams(*old(self))
                    &&& old(self).streams_view().anchor_set(
                        session_id@,
                        file_id,
                        file.offset_in_torrent,
                        position,
                        file.len,
                        final(self).streams_view(),
                    )
                },
            },
    {
        let file: FileInfo = match &self.metadata {
            None => {
                return Err(TorrentError::MetadataNotResolved);
            },
            Some(m) => match m.file_info(file_id) {
                None => {
                    return Err(TorrentError::InvalidFileForAnchor);
                },
                Some(file) => *file,
            },
        };
        match self.streams_mut() {
            Err(e) => Err(e),
            Ok(streams) => {
                streams.register_streaming_anchor(
                    session_id,
                    file_id,
                    position,
                    file.offset_in_torrent,
                    file.len,
                );
                Ok(())
            },
        }
    }

    /// Removes the anchor of a session that ended.
    pub fn unregister_streaming_anchor(&mut self, session_id: &str) -> (r: Result<
        (),
        TorrentError,
    >)
        ensures
            match old(self).state.ready() {
                None => r == Err::<(), TorrentError>(
                    TorrentError::StreamsUnavailable(old(self).state.spec_kind()),
                ) && *final(self) == *old(self),
                Some(t) => {
                    &&& r is Ok
                    &&& final(self).same_but_streams(*old(self))
                    &&& final(self).streams_view() == t.streams@.without_anchor(session_id@)
                },
            },
    {
        match self.streams_mut() {
            Err(e) => Err(e),
            Ok(streams) => {
                streams.unregister_streaming_anchor(session_id);
                Ok(())
            },
        }
    }

    /// A receiver of the numbers of the pieces that are completed from now on.
    pub fn subscribe_piece_completed(&self) -> (r: Result<Receiver<u32>, TorrentError>)
        ensures
            match self.state.ready() {
                None => r is Err && r->Err_0 == TorrentError::StreamsUnavailable(
                    self.state.spec_kind(),
                ),
                Some(t) => {
                    &&& r is Ok
                    &&& source_of(r->Ok_0) == t.streams@.channel
                    &&& passed(r->Ok_0) == t.streams@.completed
                },
            },
    {
        match self.streams() {
            Err(e) => Err(e),
            Ok(streams) => Ok(streams.subscribe_piece_completed()),
        }
    }

    /// Which pieces are there.
    pub fn chunk_tracker(&self) -> (r: Result<&ChunkTracker, TorrentError>)
        ensures
            match self.state.ready() {
                None => r == Err::<&ChunkTracker, TorrentError>(
                    TorrentError::ChunksUnavailable(self.state.spec_kind()),
                ),
                Some(t) => r == Ok::<&ChunkTracker, TorrentError>(&t.chunks),
            },
    {
        match &self.state {
            ManagedTorrentState::Paused(t) => Ok(&t.chunks),
            ManagedTorrentState::Live(t) => Ok(&t.chunks),
            _ => Err(TorrentError::ChunksUnavailable(self.state.kind())),
        }
    }

    /// Which pieces are there, and the streams of the torrent, to change them.
    pub fn chunks_and_streams(&mut self) -> (r: Result<
        (&ChunkTracker, &mut TorrentStreams),
        TorrentError,
    >)
        ensures
            match old(self).state.ready() {
                None => r is Err && r->Err_0 == TorrentError::ChunksUnavailable(
                    old(self).state.spec_kind(),
                ) && *final(self) == *old(self),
                Some(t) => {
                    &&& r is Ok
                    &&& *(r->Ok_0).0 == t.chunks
                    &&& *(r->Ok_0).1 == t.streams
                    &&& final(self).same_but_streams(*old(self))
                    &&& final(self).state.ready()->0.streams == *final((r->Ok_0).1)
                },
            },
    {
        match &mut self.state {
            ManagedTorrentState::Paused(t) => Ok((&t.chunks, &mut t.streams)),
            ManagedTorrentState::Live(t) => Ok((&t.chunks, &mut t.streams)),
            ManagedTorrentState::Initializing => Err(
                TorrentError::ChunksUnavailable(StateKind::Initializing),
            ),
            ManagedTorrentState::Error => Err(TorrentError::ChunksUnavailable(StateKind::Error)),
            ManagedTorrentState::Gone => Err(TorrentError::ChunksUnavailable(StateKind::Gone)),
        }
    }

    /// It is known that every piece of the file `file_id` is there.
    pub open spec fn file_finished(self, file_id: usize) -> bool {
        &&& self.metadata matches Some(m)
        &&& self.state.ready() matches Some(t)
        &&& t.chunks.has_file(m.files()[file_id as int], m.geometry())
    }

    /// The file `file_id` is one of the torrent, as far as that is known.
    pub open spec fn may_have_file(self, file_id: usize) -> bool {
        self.metadata matches Some(m) ==> self.state.ready() is Some ==> file_id
            < m.files().len()
    }

    /// Whether it is known that every piece of the file `file_id` is there.
    pub fn is_file_finished(&self, file_id: usize) -> (r: bool)
        requires
            self.may_have_file(file_id),
        ensures
            r == self.file_finished(file_id),
    {
        let metadata: &TorrentMetadata = match &self.metadata {
            Some(m) => &**m,
            None => {
                return false;
            },
        };
        match self.chunk_tracker() {
            Ok(chunks) => match metadata.file_info(file_id) {
                Some(file) => chunks.is_file_finished(file, metadata.lengths()),
                None => false,
            },
            Err(_) => false,
        }
    }

    /// What to do about idle peers when the file `file_id` is to be streamed.
    pub open spec fn reconnect_for(self, file_id: usize) -> PeerReconnect {
        if self.file_finished(file_id) {
            PeerReconnect::FileFinished
        } else if self.state is Live {
            PeerReconnect::ReconnectAll
        } else {
            PeerReconnect::NotLive
        }
    }

    /// Decides what to do about idle peers when the file `file_id` is to be streamed.
    pub fn maybe_reconnect_needed_peers_for_file(&self, file_id: usize) -> (r: PeerReconnect)
        requires
            self.may_have_file(file_id),
        ensures
            r == self.reconnect_for(file_id),
    {
        if self.is_file_finished(file_id) {
            return PeerReconnect::FileFinished;
        }
        match &self.state {
            ManagedTorrentState::Live(_) => PeerReconnect::ReconnectAll,
            _ => PeerReconnect::NotLive,
        }
    }

    /// Why the file `file_id` cannot be streamed, if it cannot.
    pub open spec fn stream_refusal(self, file_id: usize) -> Option<TorrentError> {
        match self.metadata {
            None => Some(TorrentError::MetadataNotResolved),
            Some(m) => if self.state.ready() is None {
                Some(TorrentError::StorageUnavailable(self.state.spec_kind()))
            } else if file_id >= m.files().len() {
                Some(TorrentError::InvalidFile)
            } else {
                None
            },
        }
    }

    /// Whether the file `file_id` can be streamed; then gives its place and the geometry
    /// of the torrent.
    pub fn check_stream(&self, file_id: usize) -> (r: Result<(FileInfo, Lengths), TorrentError>)
        ensures
            match self.stream_refusal(file_id) {
                Some(e) => r == Err::<(FileInfo, Lengths), TorrentError>(e),
                None => {
                    let m = self.metadata->0;
                    &&& r == Ok::<(FileInfo, Lengths), TorrentError>(
                        (m.files()[file_id as int], m.geometry()),
                    )
                    &&& m.files()[file_id as int].fits(m.geometry())
                },
            },
    {
        let metadata: &TorrentMetadata = match &self.metadata {
            Some(m) => &**m,
            None => {
                return Err(TorrentError::MetadataNotResolved);
            },
        };
        let pick = |_files: &S, file: &FileInfo| -> (picked: FileInfo)
            ensures
                picked == *file,
            { *file };
        match self.with_storage_and_file(file_id, pick, metadata) {
            Ok(file) => {
                let lengths: Lengths = *metadata.lengths();
                Ok((file, lengths))
            },
            Err(e) => Err(e),
        }
    }

    /// Opens a stream of the file `file_id`, and says what to do about idle peers.
    pub fn stream(&mut self, file_id: usize) -> (r: Result<
        (FileStream, PeerReconnect),
        TorrentError,
    >)
        ensures
            match old(self).stream_refusal(file_id) {
                Some(e) => r is Err && r->Err_0 == e && *final(self) == *old(self),
                None => {
                    let m = old(self).metadata->0;
                    let file = m.files()[file_id as int];
                    &&& r is Ok
                    &&& (r->Ok_0).0@ == (FileStreamView {
                        stream_id: old(self).streams_view().next_stream_id,
                        file_id,
                        position: 0,
                        file_len: file.len,
                        file_torrent_abs_offset: file.offset_in_torrent,
                        lengths: m.geometry(),
                    })
                    &&& (r->Ok_0).1 == old(self).reconnect_for(file_id)
                    &&& final(self).same_but_streams(*old(self))
                    &&& old(self).streams_view().stream_opened(
                        file_id,
                        file.len,
                        file.offset_in_torrent,
                        final(self).streams_view(),
                    )
                },
            },
    {
        let (file, lengths) = match self.check_stream(file_id) {
            Ok(found) => found,
            Err(e) => {
                return Err(e);
            },
        };
        let reconnect = self.maybe_reconnect_needed_peers_for_file(file_id);
        match self.streams_mut() {
            Err(e) => Err(e),
            Ok(streams) => {
                let stream = FileStream::open(streams, file_id, &file, lengths);
                Ok((stream, reconnect))
            },
        }
    }
}

/// The piece with byte `b` of the torrent is there.
pub open spec fn holds_byte(have_pieces: Seq<bool>, b: int, piece_length: int) -> bool {
    let id = b / piece_length;
    0 <= id < have_pieces.len() && have_pieces[id]
}

/// A file is finished if and only if the piece of each of its bytes is there.
pub proof fn law_finished_file_has_all_bytes(chunks: ChunkTracker, file: FileInfo, l: Lengths)
    requires
        l.wf(),
    ensures
        chunks.has_file(file, l) <==> forall|b: int|
            file.offset_in_torrent <= b < file.offset_in_torrent + file.len
                ==> #[trigger] holds_byte(chunks.have_pieces@, b, l.piece()),
{
    let p = l.piece();
    let from = file.offset_in_torrent as int;
    let to = from + file.len;
    let first = from / p;
    let stop = div_up(to, p);
    lemma_fundamental_div_mod(from, p);
    lemma_mod_bound(from, p);
    lemma_fundamental_div_mod(to + p - 1, p);
    lemma_mod_bound(to + p - 1, p);
    assert(p * first == first * p) by (nonlinear_arith);
    assert(p * stop == stop * p) by (nonlinear_arith);
    if chunks.has_file(file, l) {
        assert forall|b: int| from <= b < to implies #[trigger] holds_byte(
            chunks.have_pieces@,
            b,
            p,
        ) by {
            let id = b / p;
            lemma_fundamental_div_mod(b, p);
            lemma_mod_bound(b, p);
            assert(p * id == id * p) by (nonlinear_arith);
            lemma_scaled_order(id, first, p);
            lemma_scaled_order(id, stop, p);
            assert(file.in_piece(id, l));
            assert(chunks.has(id));
        }
    }
    if forall|b: int| from <= b < to ==> #[trigger] holds_byte(chunks.have_pieces@, b, p) {
        assert forall|id: int| file.in_piece(id, l) implies #[trigger] chunks.has(id) by {
            lemma_scaled_order(id, first, p);
            lemma_scaled_order(id, stop, p);
            let b = if id * p < from {
                from
            } else {
                id * p
            };
            let at = b / p;
            lemma_fundamental_div_mod(b, p);
            lemma_mod_bound(b, p);
            assert(p * at == at * p) by (nonlinear_arith);
            lemma_scaled_order(id, at, p);
            assert(holds_byte(chunks.have_pieces@, b, p));
        }
    }
}

/// A torrent that is paused or live has storage, streams and pieces, and no other has.
pub proof fn law_ready_when_paused_or_live<S>(state: ManagedTorrentState<S>)
    ensures
        match state {
            ManagedTorrentState::Initializing => state.ready() is None && state.spec_kind()
                == StateKind::Initializing,
            ManagedTorrentState::Paused(t) => state.ready() == Some(t) && state.spec_kind()
                == StateKind::Paused,
            ManagedTorrentState::Live(t) => state.ready() == Some(t) && state.spec_kind()
                == StateKind::Live,
            ManagedTorrentState::Error => state.ready() is None && state.spec_kind()
                == StateKind::Error,
            ManagedTorrentState::Gone => state.ready() is None && state.spec_kind()
                == StateKind::Gone,
        },
{
}

/// A change to the streams of a torrent leaves its metadata, its state, its storage and its
/// pieces.
pub proof fn law_only_streams_differ<S>(a: ManagedTorrent<S>, b: ManagedTorrent<S>)
    requires
        a.same_but_streams(b),
    ensures
        a.metadata == b.metadata,
        a.state is Initializing <==> b.state is Initializing,
        a.state is Error <==> b.state is Error,
        a.state is Gone <==> b.state is Gone,
        a.state matches ManagedTorrentState::Paused(t) ==> b.state
            matches ManagedTorrentState::Paused(u) && t.files == u.files && t.chunks == u.chunks,
        a.state matches ManagedTorrentState::Live(t) ==> b.state
            matches ManagedTorrentState::Live(u) && t.files == u.files && t.chunks == u.chunks,
{
}

/// An anchor needs metadata first, then a file of the torrent, then a torrent that is
/// paused or live.
pub proof fn law_anchor_needs<S>(t: ManagedTorrent<S>, file_id: usize)
    ensures
        ({
            let r = t.anchor_refusal(file_id);
            match t.metadata {
                None => r == Some(TorrentError::MetadataNotResolved),
                Some(m) => if file_id >= m.files().len() {
                    r == Some(TorrentError::InvalidFileForAnchor)
                } else {
                    match t.state {
                        ManagedTorrentState::Paused(_) => r is None,
                        ManagedTorrentState::Live(_) => r is None,
                        ManagedTorrentState::Initializing => r == Some(
                            TorrentError::StreamsUnavailable(StateKind::Initializing),
                        ),
                        ManagedTorrentState::Error => r == Some(
                            TorrentError::StreamsUnavailable(StateKind::Error),
                        ),
                        ManagedTorrentState::Gone => r == Some(
                            TorrentError::StreamsUnavailable(StateKind::Gone),
                        ),
                    }
                },
            }
        }),
{
}

/// A stream needs metadata first, then a torrent that is paused or live, then a file of
/// the torrent.
pub proof fn law_stream_needs<S>(t: ManagedTorrent<S>, file_id: usize)
    ensures
        ({
            let r = t.stream_refusal(file_id);
            match t.metadata {
                None => r == Some(TorrentError::MetadataNotResolved),
                Some(m) => match t.state {
                    ManagedTorrentState::Initializing => r == Some(
                        TorrentError::StorageUnavailable(StateKind::Initializing),
                    ),
                    ManagedTorrentState::Error => r == Some(
                        TorrentError::StorageUnavailable(StateKind::Error),
                    ),
                    ManagedTorrentState::Gone => r == Some(
                        TorrentError::StorageUnavailable(StateKind::Gone),
                    ),
                    _ => if file_id < m.files().len() {
                        r is None
                    } else {
                        r == Some(TorrentError::InvalidFile)
                    },
                },
            }
        }),
{
}

/// The file `file_id` of a torrent whose metadata is there.
spec fn resolved_file<S>(t: ManagedTorrent<S>, file_id: usize) -> FileInfo {
    t.metadata->0.files()[file_id as int]
}

/// The geometry of a torrent whose metadata is there.
spec fn resolved_geometry<S>(t: ManagedTorrent<S>) -> Lengths {
    t.metadata->0.geometry()
}

/// Peers are needed for a file whose bytes are not known to be all there, and only a live
/// torrent connects to them.
pub proof fn law_peers_for_missing_bytes<S>(t: ManagedTorrent<S>, file_id: usize)
    requires
        t.metadata matches Some(m) ==> m.wf() && file_id < m.files().len(),
    ensures
        ({
            let r = t.reconnect_for(file_id);
            match t.state {
                ManagedTorrentState::Live(u) => {
                    let all = t.metadata is Some && forall|b: int|
                        t.metadata->0.files()[file_id as int].offset_in_torrent <= b
                            < t.metadata->0.files()[file_id as int].offset_in_torrent
                            + t.metadata->0.files()[file_id as int].len ==> #[trigger] holds_byte(
                            u.chunks.have_pieces@,
                            b,
                            t.metadata->0.geometry().piece(),
                        );
                    r == if all {
                        PeerReconnect::FileFinished
                    } else {
                        PeerReconnect::ReconnectAll
                    }
                },
                ManagedTorrentState::Paused(u) => {
                    let all = t.metadata is Some && forall|b: int|
                        t.metadata->0.files()[file_id as int].offset_in_torrent <= b
                            < t.metadata->0.files()[file_id as int].offset_in_torrent
                            + t.metadata->0.files()[file_id as int].len ==> #[trigger] holds_byte(
                            u.chunks.have_pieces@,
                            b,
                            t.metadata->0.geometry().piece(),
                        );
                    r == if all {
                        PeerReconnect::FileFinished
                    } else {
                        PeerReconnect::NotLive
                    }
                },
                _ => r == PeerReconnect::NotLive,
            }
        }),
        t.file_finished(file_id) <==> t.reconnect_for(file_id) == PeerReconnect::FileFinished,
{
    if t.metadata is Some && t.state.ready() is Some {
        law_finished_file_has_all_bytes(
            t.state.ready()->0.chunks,
            resolved_file(t, file_id),
            resolved_geometry(t),
        );
    }
}

/// The streams that a ready torrent speaks of are its own.
pub proof fn law_streams_are_the_torrents_own<S>(t: ManagedTorrent<S>)
    ensures
        t.state matches ManagedTorrentState::Paused(u) ==> t.streams_view() == u.streams@,
        t.state matches ManagedTorrentState::Live(u) ==> t.streams_view() == u.streams@,
{
}

/// A file lies in its torrent if all its bytes do.
pub proof fn law_file_lies_in_torrent(file: FileInfo, l: Lengths)
    ensures
        file.fits(l) <==> file.offset_in_torrent + file.len <= l.total(),
{
}

/// A piece is there if it is marked, and a piece that is not tracked is not there.
pub proof fn law_piece_is_there_if_marked(chunks: ChunkTracker, id: int)
    ensures
        0 <= id < chunks.have_pieces@.len() ==> chunks.has(id) == chunks.have_pieces@[id],
        id < 0 || id >= chunks.have_pieces@.len() ==> !chunks.has(id),
{
}

/// A file of the torrent can always be asked about, and any file before the metadata is
/// there or where the torrent is neither paused nor live.
pub proof fn law_files_can_be_asked_about<S>(t: ManagedTorrent<S>, file_id: usize)
    ensures
        t.metadata is None ==> t.may_have_file(file_id),
        t.metadata is Some && file_id < t.metadata->0.files().len() ==> t.may_have_file(file_id),
        t.state !is Paused && t.state !is Live ==> t.may_have_file(file_id),
{
}

} // verus!
