//! A reader of one file of a torrent.
use crate::lengths::{
    law_byte_is_in_its_piece, lemma_byte_has_piece, lemma_last_piece, lemma_scaled_order,
    piece_numbers, CurrentPiece, Lengths, ValidPieceIndex,
};
use crate::stream_state::least;
use crate::streams::TorrentStreams;
use crate::torrent::{ChunkTracker, FileInfo, TorrentError};
use std::task::Waker;
use vstd::arithmetic::div_mod::{
    lemma_div_is_ordered, lemma_div_multiples_vanish, lemma_fundamental_div_mod, lemma_mod_bound,
};
use vstd::prelude::*;

verus! {

/// Where to seek to.
#[derive(Clone, Copy, Debug, PartialEq, Eq, Structural)]
pub enum SeekFrom {
    /// So many bytes from the start of the file.
    Start(u64),
    /// So many bytes from the end of the file.
    End(i64),
    /// So many bytes from the position.
    Current(i64),
}

/// Why a seek failed.
#[derive(Clone, Copy, Debug, PartialEq, Eq, Structural)]
pub enum SeekError {
    /// The length of the file or the place to seek to is too large for an `i64`.
    OutOfRange,
    /// The place to seek to is before the start or after the end of the file.
    InvalidSeek,
}

/// What a read starts with.
#[derive(Clone, Copy, Debug)]
pub enum ReadStart {
    /// The file is over.
    Eof,
    /// The position is in no piece.
    InvalidPosition,
    /// The position is in this piece.
    At(CurrentPiece),
}

/// What a read does next.
#[derive(Clone, Copy, Debug, PartialEq, Eq, Structural)]
pub enum ReadStep {
    /// Nothing: the file is over.
    Eof,
    /// Wait: the piece is not there. The waker is left with the stream.
    Pending,
    /// Read `len` bytes of the file `file_id` from byte `offset` on.
    Read { file_id: usize, offset: u64, len: usize },
}

/// What a reader says.
pub struct FileStreamView {
    pub stream_id: usize,
    pub file_id: usize,
    pub position: u64,
    pub file_len: u64,
    pub file_torrent_abs_offset: u64,
    pub lengths: Lengths,
}

impl FileStreamView {
    /// The file lies in the torrent, and the position in the file or at its end.
    pub open spec fn wf(self) -> bool {
        &&& self.lengths.wf()
        &&& self.position <= self.file_len
        &&& self.file_torrent_abs_offset + self.file_len <= self.lengths.total()
    }

    /// The same reader at another position.
    pub open spec fn at(self, position: u64) -> Self {
        FileStreamView { position, ..self }
    }

    /// The number of the piece that a byte of the file is in.
    pub open spec fn piece_number(self, position: u64) -> u32 {
        ((self.file_torrent_abs_offset + position) / self.lengths.piece()) as u32
    }

    /// Where a seek leads, if it may be done.
    pub open spec fn seek_target(self, to: SeekFrom) -> Result<u64, SeekError> {
        let target: int = match to {
            SeekFrom::Start(s) => s as int,
            SeekFrom::End(e) => self.file_len + e,
            SeekFrom::Current(o) => self.position + o,
        };
        if self.file_len > i64::MAX || (to matches SeekFrom::Start(s) && s > i64::MAX) {
            Err(SeekError::OutOfRange)
        } else if target < 0 || target > self.file_len {
            Err(SeekError::InvalidSeek)
        } else {
            Ok(target as u64)
        }
    }

    /// What a read starts with.
    pub open spec fn read_start(self) -> ReadStartView {
        if self.position == self.file_len {
            ReadStartView::Eof
        } else {
            match self.lengths.piece_at(
                self.position as int,
                self.file_torrent_abs_offset as int,
            ) {
                Some((id, left)) => ReadStartView::At(id, left),
                None => ReadStartView::InvalidPosition,
            }
        }
    }

    /// The number of the piece that a read needs, unless the file is over.
    pub open spec fn current_piece(self) -> Option<int> {
        match self.read_start() {
            ReadStartView::At(id, _) => Some(id),
            _ => None,
        }
    }

    /// What a read with a buffer of `buf_len` bytes does next, where `chunks` tells which
    /// pieces are there.
    pub open spec fn read_step(
        self,
        chunks: Result<&ChunkTracker, TorrentError>,
        buf_len: usize,
    ) -> Result<ReadStep, TorrentError> {
        match self.read_start() {
            ReadStartView::Eof => Ok(ReadStep::Eof),
            ReadStartView::InvalidPosition => Err(TorrentError::InvalidPosition),
            ReadStartView::At(id, left) => match chunks {
                Err(e) => Err(e),
                Ok(c) => if c.has(id) {
                    Ok(
                        ReadStep::Read {
                            file_id: self.file_id,
                            offset: self.position,
                            len: self.read_len(left, buf_len as int) as usize,
                        },
                    )
                } else {
                    Ok(ReadStep::Pending)
                },
            },
        }
    }

    /// How many bytes a read with a buffer of `buf_len` bytes gets, where `left` bytes of
    /// the piece are left.
    pub open spec fn read_len(self, left: int, buf_len: int) -> int {
        least(least(buf_len, left), self.file_len - self.position)
    }
}

/// What a read starts with: the end, or a piece and how many of its bytes are left.
pub enum ReadStartView {
    Eof,
    InvalidPosition,
    At(int, int),
}

impl View for ReadStart {
    type V = ReadStartView;

    open spec fn view(&self) -> ReadStartView {
        match *self {
            ReadStart::Eof => ReadStartView::Eof,
            ReadStart::InvalidPosition => ReadStartView::InvalidPosition,
            ReadStart::At(c) => ReadStartView::At(c.id@ as int, c.piece_remaining as int),
        }
    }
}

/// A reader of one file of a torrent. Its stream is kept among the streams that it was
/// opened with, which the methods take as an argument. They stay the reader's own, also
/// where the torrent has others by now.
pub struct FileStream {
    stream_id: usize,
    file_id: usize,
    position: u64,
    file_len: u64,
    file_torrent_abs_offset: u64,
    lengths: Lengths,
}

impl View for FileStream {
    type V = FileStreamView;

    closed spec fn view(&self) -> FileStreamView {
        FileStreamView {
            stream_id: self.stream_id,
            file_id: self.file_id,
            position: self.position,
            file_len: self.file_len,
            file_torrent_abs_offset: self.file_torrent_abs_offset,
            lengths: self.lengths,
        }
    }
}

impl FileStream {
    #[verifier::type_invariant]
    spec fn inv(self) -> bool {
        self@.wf()
    }

    /// A reader at the start of a file, whose stream has the number `stream_id`.
    pub fn new(
        stream_id: usize,
        file_id: usize,
        file_len: u64,
        file_torrent_abs_offset: u64,
        lengths: Lengths,
    ) -> (s: Self)
        requires
            file_torrent_abs_offset + file_len <= lengths.total(),
        ensures
            s@ == (FileStreamView {
                stream_id,
                file_id,
                position: 0,
                file_len,
                file_torrent_abs_offset,
                lengths,
            }),
            s@.wf(),
    {
        let _ = lengths.default_piece_length();
        FileStream { stream_id, file_id, position: 0, file_len, file_torrent_abs_offset, lengths }
    }

    /// Opens a stream of a file among `streams`, and gives a reader at the file's start.
    pub fn open(
        streams: &mut TorrentStreams,
        file_id: usize,
        file: &FileInfo,
        lengths: Lengths,
    ) -> (s: Self)
        requires
            file.fits(lengths),
        ensures
            s@ == (FileStreamView {
                stream_id: old(streams)@.next_stream_id,
                file_id,
                position: 0,
                file_len: file.len,
                file_torrent_abs_offset: file.offset_in_torrent,
                lengths,
            }),
            old(streams)@.stream_opened(
                file_id,
                file.len,
                file.offset_in_torrent,
                final(streams)@,
            ),
    {
        let stream_id: usize = streams.open_stream(file_id, file.len, file.offset_in_torrent);
        FileStream::new(stream_id, file_id, file.len, file.offset_in_torrent, lengths)
    }

    /// The position in the file.
    pub fn position(&self) -> (n: u64)
        ensures
            n == self@.position,
            self@.wf(),
    {
        proof {
            use_type_invariant(self);
        }
        self.position
    }

    /// The length of the file.
    pub fn len(&self) -> (n: u64)
        ensures
            n == self@.file_len,
    {
        self.file_len
    }

    /// The number of the reader's stream.
    pub fn stream_id(&self) -> (n: usize)
        ensures
            n == self@.stream_id,
    {
        self.stream_id
    }

    /// The number of the file in the torrent.
    pub fn file_id(&self) -> (n: usize)
        ensures
            n == self@.file_id,
    {
        self.file_id
    }

    /// The number of the piece that a byte of the file is in.
    fn piece_number(&self, position: u64) -> (n: u32)
        requires
            position <= self@.file_len,
        ensures
            n == self@.piece_number(position),
            n == (self@.file_torrent_abs_offset + position) / self@.lengths.piece(),
    {
        proof {
            use_type_invariant(self);
            lemma_piece_number(self@.lengths, self@.file_torrent_abs_offset + position);
        }
        let piece_len: u64 = self.lengths.default_piece_length() as u64;
        let abs_pos: u64 = self.file_torrent_abs_offset + position;
        (abs_pos / piece_len) as u32
    }

    /// Moves to byte `new_pos` of the file, and rolls the priority window of the stream.
    pub fn set_position(&mut self, streams: &mut TorrentStreams, new_pos: u64)
        requires
            new_pos <= old(self)@.file_len,
        ensures
            final(self)@ == old(self)@.at(new_pos),
            old(streams)@.reader_moved(
                old(self)@.stream_id,
                new_pos,
                old(self)@.piece_number(new_pos),
                old(self)@.lengths,
                final(streams)@,
            ),
    {
        proof {
            use_type_invariant(&*self);
        }
        let current: u32 = self.piece_number(new_pos);
        self.position = new_pos;
        streams.move_stream(self.stream_id, new_pos, current, &self.lengths);
    }

    /// Moves on by `diff` bytes.
    pub fn advance(&mut self, streams: &mut TorrentStreams, diff: u64)
        requires
            old(self)@.position + diff <= old(self)@.file_len,
        ensures
            final(self)@ == old(self)@.at((old(self)@.position + diff) as u64),
            old(streams)@.reader_moved(
                old(self)@.stream_id,
                (old(self)@.position + diff) as u64,
                old(self)@.piece_number((old(self)@.position + diff) as u64),
                old(self)@.lengths,
                final(streams)@,
            ),
    {
        let new_pos: u64 = self.position + diff;
        self.set_position(streams, new_pos);
    }

    /// Seeks to another place of the file.
    pub fn start_seek(&mut self, streams: &mut TorrentStreams, to: SeekFrom) -> (r: Result<
        (),
        SeekError,
    >)
        ensures
            match old(self)@.seek_target(to) {
                Err(e) => {
                    &&& r == Err::<(), SeekError>(e)
                    &&& final(self)@ == old(self)@
                    &&& final(streams)@ == old(streams)@
                },
                Ok(target) => {
                    &&& r is Ok
                    &&& final(self)@ == old(self)@.at(target)
                    &&& old(streams)@.reader_moved(
                        old(self)@.stream_id,
                        target,
                        old(self)@.piece_number(target),
                        old(self)@.lengths,
                        final(streams)@,
                    )
                },
            },
    {
        proof {
            use_type_invariant(&*self);
        }
        let max: u64 = i64::MAX as u64;
        if self.file_len > max {
            return Err(SeekError::OutOfRange);
        }
        let target: i128 = match to {
            SeekFrom::Start(s) => {
                if s > max {
                    return Err(SeekError::OutOfRange);
                }
                s as i128
            },
            SeekFrom::End(e) => self.file_len as i128 + e as i128,
            SeekFrom::Current(o) => self.position as i128 + o as i128,
        };
        if target < 0 || target > self.file_len as i128 {
            return Err(SeekError::InvalidSeek);
        }
        let new_pos: u64 = target as u64;
        assert(self@.seek_target(to) == Ok::<u64, SeekError>(new_pos));
        self.set_position(streams, new_pos);
        Ok(())
    }

    /// Where the last seek led.
    pub fn poll_complete(&self) -> (n: u64)
        ensures
            n == self@.position,
    {
        self.position
    }

    /// What a read starts with.
    pub fn read_start(&self) -> (r: ReadStart)
        ensures
            r@ == self@.read_start(),
            self@.wf(),
    {
        proof {
            use_type_invariant(self);
        }
        if self.position == self.file_len {
            return ReadStart::Eof;
        }
        match self.lengths.compute_current_piece(self.position, self.file_torrent_abs_offset) {
            Some(current) => ReadStart::At(current),
            None => ReadStart::InvalidPosition,
        }
    }

    /// How many bytes a read with a buffer of `buf_len` bytes gets.
    pub fn read_len(&self, current: CurrentPiece, buf_len: usize) -> (n: usize)
        ensures
            n == self@.read_len(current.piece_remaining as int, buf_len as int),
    {
        proof {
            use_type_invariant(self);
        }
        let file_remaining: u64 = self.file_len - self.position;
        let piece_remaining: u64 = current.piece_remaining as u64;
        let mut n: u64 = buf_len as u64;
        if piece_remaining < n {
            n = piece_remaining;
        }
        if file_remaining < n {
            n = file_remaining;
        }
        n as usize
    }

    /// Decides what a read with a buffer of `buf_len` bytes does next, where `chunks` tells
    /// which pieces are there, or why that is not known. Where the read has to wait, `waker`
    /// is left with the reader's stream among `streams`.
    pub fn poll_read(
        &self,
        streams: &mut TorrentStreams,
        chunks: Result<&ChunkTracker, TorrentError>,
        waker: Waker,
        buf_len: usize,
    ) -> (r: Result<ReadStep, TorrentError>)
        ensures
            r == self@.read_step(chunks, buf_len),
            if r == Ok::<ReadStep, TorrentError>(ReadStep::Pending) {
                old(streams)@.waker_left(self@.stream_id, waker, final(streams)@)
            } else {
                *final(streams) == *old(streams)
            },
    {
        let current = match self.read_start() {
            ReadStart::Eof => {
                return Ok(ReadStep::Eof);
            },
            ReadStart::InvalidPosition => {
                return Err(TorrentError::InvalidPosition);
            },
            ReadStart::At(current) => current,
        };
        let have: bool = match chunks {
            Ok(c) => c.have_piece(current.id.get()),
            Err(e) => {
                return Err(e);
            },
        };
        if have {
            return Ok(
                ReadStep::Read {
                    file_id: self.file_id,
                    offset: self.position,
                    len: self.read_len(current, buf_len),
                },
            );
        }
        streams.register_waker(self.stream_id, waker);
        Ok(ReadStep::Pending)
    }

    /// Switches the rolling priority window on at the position: anchored to the priority
    /// pieces that were set, else for a cold start.
    pub fn enable_rolling_priority(&self, streams: &mut TorrentStreams)
        ensures
            final(streams)@ == old(streams)@.with_stream(
                self@.stream_id,
                old(streams)@.streams[self@.stream_id].windowed_or_anchored(
                    self@.piece_number(self@.position),
                    self@.lengths,
                ),
            ),
    {
        proof {
            use_type_invariant(self);
        }
        let current: u32 = self.piece_number(self.position);
        streams.enable_or_anchor_rolling_priority(self.stream_id, current, &self.lengths);
    }

    /// Sets the pieces that this reader needs before all others. `None` clears them and
    /// switches the rolling window off. Whether the stream counts as playing stays.
    pub fn set_priority(&self, streams: &mut TorrentStreams, pieces: Option<Vec<ValidPieceIndex>>)
        ensures
            final(streams)@ == old(streams)@.with_stream(
                self@.stream_id,
                old(streams)@.streams[self@.stream_id].prioritized(
                    match pieces {
                        Some(p) => Some(piece_numbers(p@)),
                        None => None,
                    },
                ),
            ),
    {
        streams.set_stream_priority(self.stream_id, pieces);
    }
}

proof fn lemma_piece_number(l: Lengths, abs: int)
    requires
        l.wf(),
        0 <= abs <= l.total(),
    ensures
        0 <= abs / l.piece() <= u32::MAX,
{
    if abs < l.total() {
        lemma_byte_has_piece(l, abs);
    } else {
        lemma_last_piece(l);
        lemma_div_is_ordered(l.total(), l.count() * l.piece(), l.piece());
        lemma_div_multiples_vanish(l.count(), l.piece());
        assert(l.piece() * l.count() == l.count() * l.piece()) by (nonlinear_arith);
        assert(0 <= abs / l.piece()) by (nonlinear_arith)
            requires
                abs >= 0,
                l.piece() > 0,
        ;
    }
}

/// A reader that is not at the end of its file is always in some piece, and a read with
/// room in its buffer makes progress: it gets at least one byte, stays in the piece and in
/// the file, and does not exceed the buffer.
pub proof fn law_read_makes_progress(s: FileStreamView, buf_len: nat)
    requires
        s.wf(),
        s.position < s.file_len,
        buf_len > 0,
    ensures
        s.read_start() matches ReadStartView::At(id, left) && {
            &&& id == (s.file_torrent_abs_offset + s.position) / s.lengths.piece()
            &&& id < s.lengths.count()
            &&& 0 < s.read_len(left, buf_len as int) <= buf_len
            &&& s.read_len(left, buf_len as int) <= left
            &&& s.position + s.read_len(left, buf_len as int) <= s.file_len
        },
{
    let abs = s.file_torrent_abs_offset + s.position;
    lemma_byte_has_piece(s.lengths, abs);
}

/// A seek to the place where the reader is leaves it there.
pub proof fn law_seek_to_here(s: FileStreamView)
    requires
        s.wf(),
        s.file_len <= i64::MAX,
    ensures
        s.seek_target(SeekFrom::Current(0)) == Ok::<u64, SeekError>(s.position),
        s.seek_target(SeekFrom::Start(s.position)) == Ok::<u64, SeekError>(s.position),
        s.seek_target(SeekFrom::End((s.position - s.file_len) as i64)) == Ok::<u64, SeekError>(
            s.position,
        ),
{
}

/// A move changes the position of a reader and nothing else.
pub proof fn law_move_keeps_the_file(f: FileStreamView, position: u64)
    ensures
        f.at(position).position == position,
        f.at(position).stream_id == f.stream_id,
        f.at(position).file_id == f.file_id,
        f.at(position).file_len == f.file_len,
        f.at(position).file_torrent_abs_offset == f.file_torrent_abs_offset,
        f.at(position).lengths == f.lengths,
{
}

/// The number that a position of the file is given is that of the piece that spans it.
pub proof fn law_piece_number_spans_position(f: FileStreamView, position: u64)
    requires
        f.wf(),
        position <= f.file_len,
    ensures
        f.piece_number(position) * f.lengths.piece() <= f.file_torrent_abs_offset + position < (
        f.piece_number(position) + 1) * f.lengths.piece(),
{
    let abs = f.file_torrent_abs_offset + position;
    let p = f.lengths.piece();
    lemma_piece_number(f.lengths, abs);
    lemma_fundamental_div_mod(abs, p);
    lemma_mod_bound(abs, p);
    let n = abs / p;
    assert(p * n == n * p) by (nonlinear_arith);
    assert((n + 1) * p == n * p + p) by (nonlinear_arith);
}

/// A seek from the position leads as many bytes on or back, if that is in the file or at
/// its end, and is refused else.
pub proof fn law_relative_seek(f: FileStreamView, o: i64)
    requires
        f.file_len <= i64::MAX,
    ensures
        0 <= f.position + o <= f.file_len ==> f.seek_target(SeekFrom::Current(o)) == Ok::<
            u64,
            SeekError,
        >((f.position + o) as u64),
        !(0 <= f.position + o <= f.file_len) ==> f.seek_target(SeekFrom::Current(o)) == Err::<
            u64,
            SeekError,
        >(SeekError::InvalidSeek),
{
}

/// A seek from the start leads to the given byte, if that is in the file or at its end,
/// and is refused else: as out of range where it is too large for an `i64`.
pub proof fn law_absolute_seek(f: FileStreamView, to: u64)
    requires
        f.file_len <= i64::MAX,
    ensures
        to <= f.file_len ==> f.seek_target(SeekFrom::Start(to)) == Ok::<u64, SeekError>(to),
        f.file_len < to <= i64::MAX ==> f.seek_target(SeekFrom::Start(to)) == Err::<
            u64,
            SeekError,
        >(SeekError::InvalidSeek),
        to > i64::MAX ==> f.seek_target(SeekFrom::Start(to)) == Err::<u64, SeekError>(
            SeekError::OutOfRange,
        ),
{
}

/// A seek from the end leads as many bytes before it, if that is in the file, and is
/// refused else.
pub proof fn law_seek_from_end(f: FileStreamView, e: i64)
    requires
        f.file_len <= i64::MAX,
    ensures
        0 <= f.file_len + e <= f.file_len ==> f.seek_target(SeekFrom::End(e)) == Ok::<
            u64,
            SeekError,
        >((f.file_len + e) as u64),
        !(0 <= f.file_len + e <= f.file_len) ==> f.seek_target(SeekFrom::End(e)) == Err::<
            u64,
            SeekError,
        >(SeekError::InvalidSeek),
{
}

/// Every seek in a file that is too long for an `i64` is refused as out of range.
pub proof fn law_no_seek_in_too_long_a_file(f: FileStreamView, to: SeekFrom)
    requires
        f.file_len > i64::MAX,
    ensures
        f.seek_target(to) == Err::<u64, SeekError>(SeekError::OutOfRange),
{
}

/// A seek from the position leads where the seek to the sum leads, and the seek back leads
/// back.
pub proof fn law_seek_there_and_back(f: FileStreamView, o: i64)
    requires
        f.wf(),
        f.file_len <= i64::MAX,
        o > i64::MIN,
    ensures
        f.seek_target(SeekFrom::Current(o)) matches Ok(there) ==> {
            &&& there - f.position == o
            &&& f.seek_target(SeekFrom::Start(there)) == Ok::<u64, SeekError>(there)
            &&& f.at(there).seek_target(SeekFrom::Current((-o) as i64)) == Ok::<u64, SeekError>(
                f.position,
            )
        },
{
}

/// A read at the end of the file gets nothing. Before it, a read needs the piece that spans
/// the position. It waits if that is not there, and fails if that is not known. Else it
/// reads the reader's file from the reader's position on: as many bytes as the buffer, the
/// piece and the file have room for.
pub proof fn law_read_is_at_the_position(
    f: FileStreamView,
    chunks: Result<&ChunkTracker, TorrentError>,
    buf_len: usize,
    id: int,
)
    requires
        f.wf(),
        id * f.lengths.piece() <= f.file_torrent_abs_offset + f.position < (id + 1)
            * f.lengths.piece(),
    ensures
        f.position == f.file_len ==> f.read_step(chunks, buf_len) == Ok::<ReadStep, TorrentError>(
            ReadStep::Eof,
        ),
        f.position < f.file_len ==> match chunks {
            Err(e) => f.read_step(chunks, buf_len) == Err::<ReadStep, TorrentError>(e),
            Ok(c) => if id < c.have_pieces@.len() && c.have_pieces@[id] {
                &&& f.read_step(chunks, buf_len) matches Ok(ReadStep::Read { file_id, offset, len })
                &&& file_id == f.file_id
                &&& offset == f.position
                &&& len <= buf_len
                &&& offset + len <= f.file_len
                &&& f.file_torrent_abs_offset + offset + len <= (id + 1) * f.lengths.piece()
                &&& {
                    ||| len == buf_len
                    ||| offset + len == f.file_len
                    ||| f.file_torrent_abs_offset + offset + len == (id + 1) * f.lengths.piece()
                }
            } else {
                f.read_step(chunks, buf_len) == Ok::<ReadStep, TorrentError>(ReadStep::Pending)
            },
        },
{
    let p = f.lengths.piece();
    let abs = f.file_torrent_abs_offset + f.position;
    if f.position < f.file_len {
        lemma_last_piece(f.lengths);
        lemma_scaled_order(id, 0, p);
        let end = if (id + 1) * p < f.lengths.total() {
            (id + 1) * p
        } else {
            f.lengths.total()
        };
        law_byte_is_in_its_piece(
            f.lengths,
            f.position as int,
            f.file_torrent_abs_offset as int,
            id,
            end - abs,
        );
    }
}

/// Reads follow one another without a gap or an overlap: after a read and the advance over
/// what it got, the next read of the same file starts where it ended, and the file is over
/// just when its last byte was read.
pub proof fn law_reads_are_seamless(
    f: FileStreamView,
    chunks: Result<&ChunkTracker, TorrentError>,
    buf_len: usize,
    next_chunks: Result<&ChunkTracker, TorrentError>,
    next_buf_len: usize,
)
    requires
        f.wf(),
    ensures
        f.read_step(chunks, buf_len) matches Ok(ReadStep::Read { file_id, offset, len }) ==> {
            let next = f.at((offset + len) as u64).read_step(next_chunks, next_buf_len);
            &&& file_id == f.file_id
            &&& offset == f.position
            &&& offset + len <= f.file_len
            &&& buf_len > 0 ==> len > 0
            &&& next matches Ok(ReadStep::Read { file_id: next_file, offset: next_offset, len: _ })
                ==> next_file == file_id && next_offset == offset + len
            &&& next == Ok::<ReadStep, TorrentError>(ReadStep::Eof) <==> offset + len
                == f.file_len
        },
{
    if f.position < f.file_len {
        law_read_makes_progress(f, 1);
        if buf_len > 0 {
            law_read_makes_progress(f, buf_len as nat);
        }
        let abs = f.file_torrent_abs_offset + f.position;
        let p = f.lengths.piece();
        lemma_fundamental_div_mod(abs, p);
        lemma_mod_bound(abs, p);
        let id = abs / p;
        assert(p * id == id * p) by (nonlinear_arith);
        assert((id + 1) * p == id * p + p) by (nonlinear_arith);
        law_read_is_at_the_position(f, chunks, buf_len, id);
    }
}

/// A read starts with the end of the file, or with the piece that spans the position and as
/// many bytes as are left of it.
pub proof fn law_read_starts_in_its_piece(f: FileStreamView, id: int, left: int)
    requires
        f.wf(),
    ensures
        f.read_start() is Eof <==> f.position == f.file_len,
        f.read_start() == ReadStartView::At(id, left) <==> {
            &&& f.position < f.file_len
            &&& id * f.lengths.piece() <= f.file_torrent_abs_offset + f.position < (id + 1)
                * f.lengths.piece()
            &&& f.file_torrent_abs_offset + f.position + left == if (id + 1) * f.lengths.piece()
                < f.lengths.total() {
                (id + 1) * f.lengths.piece()
            } else {
                f.lengths.total()
            }
        },
        f.read_start() !is InvalidPosition,
{
    let p = f.lengths.piece();
    let abs = f.file_torrent_abs_offset + f.position;
    if f.position < f.file_len {
        lemma_byte_has_piece(f.lengths, abs);
    }
    law_byte_is_in_its_piece(
        f.lengths,
        f.position as int,
        f.file_torrent_abs_offset as int,
        id,
        left,
    );
}

/// A read gets as many bytes as the buffer, the piece and the file all have.
pub proof fn law_read_gets_what_all_have(f: FileStreamView, left: int, buf_len: int)
    ensures
        ({
            let n = f.read_len(left, buf_len);
            &&& n <= buf_len
            &&& n <= left
            &&& n <= f.file_len - f.position
            &&& n == buf_len || n == left || n == f.file_len - f.position
        }),
{
}

/// What a read starts with says what its fields hold.
pub proof fn law_start_says_its_piece(c: CurrentPiece)
    ensures
        ReadStart::Eof@ == ReadStartView::Eof,
        ReadStart::InvalidPosition@ == ReadStartView::InvalidPosition,
        ReadStart::At(c)@ == ReadStartView::At(c.id@ as int, c.piece_remaining as int),
{
}

} // verus!
