//! The state of one stream: where its reader is, which pieces it needs first, and who
//! waits for it.
use crate::lengths::{
    div_up, law_byte_is_in_its_piece, lemma_last_piece, lemma_scaled_order, piece_numbers,
    CurrentPiece, Lengths, ValidPieceIndex,
};
use std::task::Waker;
use vstd::arithmetic::div_mod::{lemma_fundamental_div_mod, lemma_mod_bound};
use vstd::prelude::*;

verus! {

/// How many bytes past its position a stream looks ahead: 512 MB. With pieces of 16 MB
/// that is about 32 pieces.
pub const PER_STREAM_BUF_DEFAULT: u64 = 512 * 1024 * 1024;

/// The size of the priority window while a stream starts.
pub const COLD_START_PRIORITY_PIECES: u32 = 6;

/// The size of the priority window once a stream plays.
pub const STEADY_STATE_PRIORITY_PIECES: u32 = 15;

/// The window rolls when fewer pieces than this are left in it.
pub const PRIORITY_UPDATE_THRESHOLD_PIECES: u32 = 3;

/// The numbers from `from` up to and without `to`, in order.
pub open spec fn piece_range(from: int, to: int) -> Seq<u32> {
    Seq::new(
        if from < to {
            (to - from) as nat
        } else {
            0
        },
        |k: int| (from + k) as u32,
    )
}

/// The smaller of two numbers.
pub open spec fn least(a: int, b: int) -> int {
    if a < b {
        a
    } else {
        b
    }
}

/// The `size` pieces from `first` on, as far as the torrent has them.
pub open spec fn window(first: int, size: int, l: Lengths) -> Seq<u32> {
    piece_range(first, least(first + size, l.count()))
}

/// The pieces that hold the next bytes of a file for a reader at `position`, as far as
/// the file and the lookahead reach and the torrent has them.
pub open spec fn lookahead(file_abs_offset: int, position: int, file_len: int, l: Lengths) -> Seq<
    u32,
> {
    let start = file_abs_offset + position;
    let end = least(start + PER_STREAM_BUF_DEFAULT, file_abs_offset + file_len);
    piece_range(start / l.piece(), least(div_up(end, l.piece()), l.count()))
}

/// The pieces from number `from` up to and without `to` that exist.
fn existing_pieces(from: u128, to: u128, lengths: &Lengths) -> (pieces: Vec<ValidPieceIndex>)
    ensures
        piece_numbers(pieces@) == piece_range(from as int, least(to as int, lengths.count())),
{
    let count: u32 = lengths.total_pieces();
    let end: u128 = if to < count as u128 {
        to
    } else {
        count as u128
    };
    let mut pieces: Vec<ValidPieceIndex> = Vec::new();
    let mut i: u128 = from;
    while i < end
        invariant
            count == lengths.count(),
            end <= count,
            from <= i,
            from <= end ==> i <= end,
            from > end ==> i == from,
            pieces@.len() == i - from,
            forall|k: int| 0 <= k < pieces@.len() ==> (#[trigger] pieces@[k])@ == from + k,
        decreases end - i,
    {
        if let Some(piece) = lengths.validate_piece_index(i as u32) {
            pieces.push(piece);
        }
        i = i + 1;
    }
    assert(piece_numbers(pieces@) =~= piece_range(from as int, end as int));
    pieces
}

/// The pieces that hold the next bytes of a file for a reader at `position`.
pub fn lookahead_queue(
    file_abs_offset: u64,
    position: u64,
    file_len: u64,
    lengths: &Lengths,
) -> (pieces: Vec<ValidPieceIndex>)
    ensures
        piece_numbers(pieces@) == lookahead(
            file_abs_offset as int,
            position as int,
            file_len as int,
            *lengths,
        ),
{
    let start: u128 = file_abs_offset as u128 + position as u128;
    let file_end: u128 = file_abs_offset as u128 + file_len as u128;
    let reach: u128 = start + PER_STREAM_BUF_DEFAULT as u128;
    let end: u128 = if reach < file_end {
        reach
    } else {
        file_end
    };
    let dpl: u128 = lengths.default_piece_length() as u128;
    let start_id: u128 = start / dpl;
    let end_id: u128 = (end + dpl - 1) / dpl;
    existing_pieces(start_id, end_id, lengths)
}

/// The `size` pieces from `first` on, as far as the torrent has them.
fn window_pieces(first: u32, size: u32, lengths: &Lengths) -> (pieces: Vec<ValidPieceIndex>)
    ensures
        piece_numbers(pieces@) == window(first as int, size as int, *lengths),
{
    existing_pieces(first as u128, first as u128 + size as u128, lengths)
}

/// What a stream's state says.
#[verifier::ext_equal]
pub struct StreamView {
    pub file_id: usize,
    pub file_len: u64,
    pub file_abs_offset: u64,
    pub position: u64,
    pub waker: Option<Waker>,
    pub priority_pieces: Option<Seq<u32>>,
    pub priority_window_start: Option<u32>,
    pub is_playing: bool,
    pub last_activity: u128,
}

impl StreamView {
    /// A stream at the start of its file, without priority and with nobody waiting.
    pub open spec fn opened(file_id: usize, file_len: u64, file_abs_offset: u64, now: u128) -> Self {
        StreamView {
            file_id,
            file_len,
            file_abs_offset,
            position: 0,
            waker: None,
            priority_pieces: None,
            priority_window_start: None,
            is_playing: false,
            last_activity: now,
        }
    }

    /// The number of the piece that the reader is at.
    pub open spec fn current(self, l: Lengths) -> Option<int> {
        match l.piece_at(self.position as int, self.file_abs_offset as int) {
            Some((id, _)) => Some(id),
            None => None,
        }
    }

    /// The pieces that the stream looks ahead to.
    pub open spec fn queue(self, l: Lengths) -> Seq<u32> {
        lookahead(self.file_abs_offset as int, self.position as int, self.file_len as int, l)
    }

    /// The priority pieces, none where they are not set.
    pub open spec fn priority(self) -> Seq<u32> {
        match self.priority_pieces {
            Some(p) => p,
            None => Seq::empty(),
        }
    }

    /// The last piece of a priority window that starts at `window_start`.
    pub open spec fn window_end(self, window_start: u32) -> u32 {
        if self.priority().len() > 0 {
            self.priority().last()
        } else {
            window_start
        }
    }

    /// Whether a reader at piece `current` has left the priority window or is close to
    /// its end. A stream without a window start does not use a rolling window.
    pub open spec fn should_roll(self, current: u32) -> bool {
        match self.priority_window_start {
            None => false,
            Some(start) => {
                ||| current < start
                ||| current > self.window_end(start)
                ||| self.window_end(start) - current < PRIORITY_UPDATE_THRESHOLD_PIECES
            },
        }
    }

    /// Whether the stream counts as playing once its reader is at piece `current`: it did
    /// before, or the reader is past the first few pieces from the window's start.
    pub open spec fn playing_at(self, current: u32) -> bool {
        self.is_playing || (self.priority_window_start matches Some(start) && current >= start
            + COLD_START_PRIORITY_PIECES)
    }

    /// The window that starts at piece `current`: small on a cold start, larger once the
    /// stream plays.
    pub open spec fn window_at(self, current: u32, l: Lengths) -> Seq<u32> {
        window(
            current as int,
            if self.playing_at(current) {
                STEADY_STATE_PRIORITY_PIECES as int
            } else {
                COLD_START_PRIORITY_PIECES as int
            },
            l,
        )
    }

    /// Whether a new window at piece `current` differs from the present one in its start
    /// or its size.
    pub open spec fn window_changes(self, current: u32, l: Lengths) -> bool {
        ||| self.priority_window_start != Some(current)
        ||| self.priority_pieces is None
        ||| self.priority().len() != self.window_at(current, l).len()
    }

    /// The state after the reader got to piece `current`.
    pub open spec fn rolled(self, current: u32, l: Lengths) -> Self {
        if !self.should_roll(current) {
            self
        } else if self.window_at(current, l).len() > 0 && self.window_changes(current, l) {
            StreamView {
                is_playing: self.playing_at(current),
                priority_window_start: Some(current),
                priority_pieces: Some(self.window_at(current, l)),
                ..self
            }
        } else {
            StreamView { is_playing: self.playing_at(current), ..self }
        }
    }

    /// The state after the reader moved to byte `position` of the file, in piece
    /// `current`, at the time `now`.
    pub open spec fn moved(self, position: u64, current: u32, l: Lengths, now: u128) -> Self {
        (StreamView { position, last_activity: now, ..self }).rolled(current, l)
    }

    /// The state after `waker` was left to be woken at the time `now`.
    pub open spec fn waiting(self, waker: Waker, now: u128) -> Self {
        StreamView { waker: Some(waker), last_activity: now, ..self }
    }

    /// The same state with nobody waiting.
    pub open spec fn asleep(self) -> Self {
        StreamView { waker: None, ..self }
    }

    /// The state after piece `piece` was completed: nobody waits for it any longer.
    pub open spec fn woken(self, piece: int, l: Lengths) -> Self {
        if self.current(l) == Some(piece) {
            self.asleep()
        } else {
            self
        }
    }

    /// The state after the priority pieces were set. The rolling window is anchored to
    /// the first of them, if there is one. `None` switches the rolling window off too.
    pub open spec fn prioritized(self, pieces: Option<Seq<u32>>) -> Self {
        StreamView {
            priority_pieces: pieces,
            priority_window_start: match pieces {
                Some(p) => if p.len() > 0 {
                    Some(p[0])
                } else {
                    self.priority_window_start
                },
                None => None,
            },
            ..self
        }
    }

    /// The state after a cold start window was put at piece `current`. Where no piece
    /// from there on exists, the priority pieces stay.
    pub open spec fn windowed(self, current: u32, l: Lengths) -> Self {
        let w = window(current as int, COLD_START_PRIORITY_PIECES as int, l);
        StreamView {
            priority_window_start: Some(current),
            is_playing: false,
            priority_pieces: if w.len() > 0 {
                Some(w)
            } else {
                self.priority_pieces
            },
            ..self
        }
    }

    /// The state after the rolling window was switched on at piece `current`: anchored to
    /// the priority pieces that are there, else put at `current`.
    pub open spec fn windowed_or_anchored(self, current: u32, l: Lengths) -> Self {
        if self.priority().len() > 0 {
            StreamView {
                priority_window_start: Some(self.priority()[0]),
                is_playing: false,
                ..self
            }
        } else {
            self.windowed(current, l)
        }
    }
}

/// The state of one stream.
pub struct StreamState {
    pub file_id: usize,
    pub file_len: u64,
    pub file_abs_offset: u64,
    pub position: u64,
    /// The task to wake when the piece at the position is there.
    pub waker: Option<Waker>,
    /// Pieces that are asked for before all others. They are for seeks, and touch no
    /// other stream.
    pub priority_pieces: Option<Vec<ValidPieceIndex>>,
    /// The first piece of the priority window, for rolling it.
    pub priority_window_start: Option<u32>,
    /// Whether the stream is past its cold start.
    pub is_playing: bool,
    /// When the stream was last read from or waited on, in nanoseconds.
    pub last_activity: u128,
}

impl View for StreamState {
    type V = StreamView;

    open spec fn view(&self) -> StreamView {
        StreamView {
            file_id: self.file_id,
            file_len: self.file_len,
            file_abs_offset: self.file_abs_offset,
            position: self.position,
            waker: self.waker,
            priority_pieces: match self.priority_pieces {
                Some(p) => Some(piece_numbers(p@)),
                None => None,
            },
            priority_window_start: self.priority_window_start,
            is_playing: self.is_playing,
            last_activity: self.last_activity,
        }
    }
}

impl StreamState {
    /// A stream at the start of its file.
    pub fn new(file_id: usize, file_len: u64, file_abs_offset: u64, now: u128) -> (s: Self)
        ensures
            s@ == StreamView::opened(file_id, file_len, file_abs_offset, now),
    {
        StreamState {
            file_id,
            file_len,
            file_abs_offset,
            position: 0,
            waker: None,
            priority_pieces: None,
            priority_window_start: None,
            is_playing: false,
            last_activity: now,
        }
    }

    /// A copy of the state with nobody waiting.
    pub fn copy_asleep(&self) -> (s: Self)
        ensures
            s@ == self@.asleep(),
    {
        let priority_pieces: Option<Vec<ValidPieceIndex>> = match &self.priority_pieces {
            Some(p) => {
                let copied = p.clone();
                assert(piece_numbers(copied@) =~= piece_numbers(p@));
                Some(copied)
            },
            None => None,
        };
        StreamState {
            file_id: self.file_id,
            file_len: self.file_len,
            file_abs_offset: self.file_abs_offset,
            position: self.position,
            waker: None,
            priority_pieces,
            priority_window_start: self.priority_window_start,
            is_playing: self.is_playing,
            last_activity: self.last_activity,
        }
    }

    /// The piece that the reader is at.
    pub fn current_piece(&self, lengths: &Lengths) -> (r: Option<CurrentPiece>)
        ensures
            r is Some <==> self@.current(*lengths) is Some,
            r matches Some(c) ==> lengths.piece_at(
                self.position as int,
                self.file_abs_offset as int,
            ) == Some((c.id@ as int, c.piece_remaining as int)),
    {
        lengths.compute_current_piece(self.position, self.file_abs_offset)
    }

    /// The pieces that the stream looks ahead to, without the priority pieces.
    pub fn queue_without_priority(&self, lengths: &Lengths) -> (pieces: Vec<ValidPieceIndex>)
        ensures
            piece_numbers(pieces@) == self@.queue(*lengths),
    {
        lookahead_queue(self.file_abs_offset, self.position, self.file_len, lengths)
    }

    /// Whether a reader at piece `current` has left the priority window or is close to
    /// its end.
    fn should_roll(&self, current: u32) -> (r: bool)
        ensures
            r == self@.should_roll(current),
    {
        match self.priority_window_start {
            None => false,
            Some(start) => {
                let window_end: u32 = match &self.priority_pieces {
                    Some(p) => if p.len() > 0 {
                        p[p.len() - 1].get()
                    } else {
                        start
                    },
                    None => start,
                };
                current < start || current > window_end || window_end - current
                    < PRIORITY_UPDATE_THRESHOLD_PIECES
            },
        }
    }

    /// Rolls the priority window for a reader at piece `current`.
    pub fn roll(&mut self, current: u32, lengths: &Lengths)
        ensures
            final(self)@ == old(self)@.rolled(current, *lengths),
    {
        if !self.should_roll(current) {
            return;
        }
        let ghost before = self@;
        if let Some(start) = self.priority_window_start {
            if current as u64 >= start as u64 + COLD_START_PRIORITY_PIECES as u64 {
                self.is_playing = true;
            }
        }
        let size: u32 = if self.is_playing {
            STEADY_STATE_PRIORITY_PIECES
        } else {
            COLD_START_PRIORITY_PIECES
        };
        let pieces = window_pieces(current, size, lengths);
        assert(piece_numbers(pieces@) == before.window_at(current, *lengths));
        assert(pieces@.len() == before.window_at(current, *lengths).len());
        if pieces.len() > 0 {
            let same_start: bool = match self.priority_window_start {
                Some(start) => start == current,
                None => false,
            };
            let same_size: bool = match &self.priority_pieces {
                Some(p) => p.len() == pieces.len(),
                None => false,
            };
            if !same_start || !same_size {
                self.priority_window_start = Some(current);
                self.priority_pieces = Some(pieces);
            }
        }
    }

    /// Sets the priority pieces and anchors the rolling window to the first of them, or
    /// clears them and switches the window off.
    pub fn prioritize(&mut self, pieces: Option<Vec<ValidPieceIndex>>)
        ensures
            final(self)@ == old(self)@.prioritized(
                match pieces {
                    Some(p) => Some(piece_numbers(p@)),
                    None => None,
                },
            ),
    {
        match &pieces {
            Some(p) => {
                if p.len() > 0 {
                    self.priority_window_start = Some(p[0].get());
                }
            },
            None => {
                self.priority_window_start = None;
            },
        }
        self.priority_pieces = pieces;
    }

    /// Puts a cold start window at piece `current`.
    pub fn start_window(&mut self, current: u32, lengths: &Lengths)
        ensures
            final(self)@ == old(self)@.windowed(current, *lengths),
    {
        self.priority_window_start = Some(current);
        self.is_playing = false;
        let pieces = window_pieces(current, COLD_START_PRIORITY_PIECES, lengths);
        assert(pieces@.len() == piece_numbers(pieces@).len());
        if pieces.len() > 0 {
            self.priority_pieces = Some(pieces);
        }
    }

    /// Switches the rolling window on at piece `current`, anchored to the priority pieces
    /// that are there.
    pub fn start_window_or_anchor(&mut self, current: u32, lengths: &Lengths)
        ensures
            final(self)@ == old(self)@.windowed_or_anchored(current, *lengths),
    {
        if let Some(p) = &self.priority_pieces {
            if p.len() > 0 {
                self.priority_window_start = Some(p[0].get());
                self.is_playing = false;
                return;
            }
        }
        self.start_window(current, lengths);
    }
}

/// Rolling the window twice for a reader at one piece is the same as rolling it once.
pub proof fn law_roll_idempotent(s: StreamView, current: u32, l: Lengths)
    requires
        l.wf(),
    ensures
        s.rolled(current, l).rolled(current, l) == s.rolled(current, l),
{
}

/// A stream for which no window was ever switched on keeps its priority pieces, however
/// its reader moves.
pub proof fn law_rolling_is_opt_in(
    s: StreamView,
    position: u64,
    current: u32,
    l: Lengths,
    now: u128,
)
    requires
        s.priority_window_start is None,
    ensures
        s.moved(position, current, l, now) == (StreamView { position, last_activity: now, ..s }),
{
}

/// Once the priority of a stream was cleared, its reader has no priority pieces wherever
/// it moves.
pub proof fn law_cleared_priority_stays_cleared(
    s: StreamView,
    position: u64,
    current: u32,
    l: Lengths,
    now: u128,
)
    ensures
        ({
            let t = s.prioritized(None).moved(position, current, l, now);
            t.priority_pieces is None && t.priority_window_start is None
        }),
{
}

/// Priority pieces that were chosen for a seek are not overwritten by it, if the place
/// that it leads to is not before them and at least three pieces before the last of them.
pub proof fn law_chosen_pieces_survive_seek(
    s: StreamView,
    pieces: Seq<u32>,
    position: u64,
    current: u32,
    l: Lengths,
    now: u128,
)
    requires
        pieces.len() > 0,
        pieces[0] <= current,
        pieces.last() - current >= PRIORITY_UPDATE_THRESHOLD_PIECES,
    ensures
        s.prioritized(Some(pieces)).moved(position, current, l, now).priority() == pieces,
{
}

/// A rolling window follows its reader: after a move to an existing piece it starts no
/// later than that piece, and it reaches at least three pieces past it or starts there
/// with a full size, as far as the torrent has pieces.
pub proof fn law_window_follows_reader(s: StreamView, current: u32, l: Lengths)
    requires
        l.wf(),
        s.priority_window_start is Some,
        current < l.count(),
    ensures
        ({
            let t = s.rolled(current, l);
            &&& t.priority_window_start matches Some(start)
            &&& start <= current
            &&& ({
                ||| t.window_end(start) - current >= PRIORITY_UPDATE_THRESHOLD_PIECES
                ||| start == current && t.priority().len() == t.window_at(current, l).len()
            })
        }),
{
}

/// A window that rolled anew starts at the reader's piece, runs on without a gap, and
/// holds only pieces that exist.
pub proof fn law_rolled_window_is_contiguous(s: StreamView, current: u32, l: Lengths, k: int)
    requires
        l.wf(),
        s.should_roll(current),
        s.window_changes(current, l),
        current < l.count(),
        0 <= k < s.rolled(current, l).priority().len(),
    ensures
        s.rolled(current, l).priority()[k] == current + k,
        current + k < l.count(),
        s.rolled(current, l).priority().len() == least(
            if s.playing_at(current) {
                STEADY_STATE_PRIORITY_PIECES as int
            } else {
                COLD_START_PRIORITY_PIECES as int
            },
            l.count() - current,
        ),
{
}

/// What a state says is what its fields hold.
pub proof fn law_view_is_the_fields(s: StreamState)
    ensures
        s@.file_id == s.file_id,
        s@.file_len == s.file_len,
        s@.file_abs_offset == s.file_abs_offset,
        s@.position == s.position,
        s@.waker == s.waker,
        s@.priority_pieces is Some <==> s.priority_pieces is Some,
        s.priority_pieces matches Some(p) ==> s@.priority_pieces->0.len() == p@.len()
            && forall|k: int|
            0 <= k < p@.len() ==> #[trigger] s@.priority_pieces->0[k] == p@[k]@,
        s@.priority_window_start == s.priority_window_start,
        s@.is_playing == s.is_playing,
        s@.last_activity == s.last_activity,
{
}

/// A reader looks ahead to the pieces that overlap the next 512 MB of its file, as far as
/// the file and the torrent reach, in order and without a gap.
pub proof fn law_lookahead_is_the_next_bytes(
    file_abs_offset: int,
    position: int,
    file_len: int,
    l: Lengths,
    x: u32,
    k: int,
)
    requires
        l.wf(),
        0 <= file_abs_offset,
        0 <= position,
        0 <= file_len,
    ensures
        ({
            let q = lookahead(file_abs_offset, position, file_len, l);
            &&& q.contains(x) <==> {
                &&& (x + 1) * l.piece() > file_abs_offset + position
                &&& x * l.piece() < file_abs_offset + position + 536_870_912
                &&& x * l.piece() < file_abs_offset + file_len
                &&& x * l.piece() < l.total()
            }
            &&& 0 <= k < q.len() - 1 ==> q[k + 1] == q[k] + 1
        }),
{
    let p = l.piece();
    let n = l.count();
    let start = file_abs_offset + position;
    let end = least(start + PER_STREAM_BUF_DEFAULT, file_abs_offset + file_len);
    let first = start / p;
    let stop = div_up(end, p);
    let q = lookahead(file_abs_offset, position, file_len, l);
    lemma_fundamental_div_mod(start, p);
    lemma_mod_bound(start, p);
    lemma_fundamental_div_mod(end + p - 1, p);
    lemma_mod_bound(end + p - 1, p);
    assert(p * first == first * p) by (nonlinear_arith);
    assert(p * stop == stop * p) by (nonlinear_arith);
    assert((x + 1) * p == x * p + p) by (nonlinear_arith);
    lemma_last_piece(l);
    assert((n - 1) * p == n * p - p) by (nonlinear_arith);
    assert(first >= 0) by (nonlinear_arith)
        requires
            first == start / p,
            start >= 0,
            p > 0,
    ;
    lemma_scaled_order(x as int, first, p);
    lemma_scaled_order(x as int, stop, p);
    lemma_scaled_order(x as int, n, p);
    if first <= x && x < stop && x < n {
        assert(q[x - first] == x);
    }
}

/// A stream looks ahead from its position in its file.
pub proof fn law_stream_looks_ahead(s: StreamView, l: Lengths, x: u32, k: int)
    requires
        l.wf(),
    ensures
        s.queue(l).contains(x) <==> {
            &&& (x + 1) * l.piece() > s.file_abs_offset + s.position
            &&& x * l.piece() < s.file_abs_offset + s.position + 536_870_912
            &&& x * l.piece() < s.file_abs_offset + s.file_len
            &&& x * l.piece() < l.total()
        },
        0 <= k < s.queue(l).len() - 1 ==> s.queue(l)[k + 1] == s.queue(l)[k] + 1,
{
    law_lookahead_is_the_next_bytes(
        s.file_abs_offset as int,
        s.position as int,
        s.file_len as int,
        l,
        x,
        k,
    );
}

/// The reader of a stream is at the piece that spans its position.
pub proof fn law_current_piece_spans_position(s: StreamView, l: Lengths, id: int)
    requires
        l.wf(),
    ensures
        s.current(l) == Some(id) <==> {
            &&& id * l.piece() <= s.file_abs_offset + s.position < (id + 1) * l.piece()
            &&& id * l.piece() < l.total()
            &&& s.file_abs_offset + s.position <= l.total()
        },
{
    let abs = s.file_abs_offset + s.position;
    let end = if (id + 1) * l.piece() < l.total() {
        (id + 1) * l.piece()
    } else {
        l.total()
    };
    law_byte_is_in_its_piece(l, s.position as int, s.file_abs_offset as int, id, end - abs);
    if let Some((at, left)) = l.piece_at(s.position as int, s.file_abs_offset as int) {
        law_byte_is_in_its_piece(l, s.position as int, s.file_abs_offset as int, at, left);
    }
}

/// Wherever a reader moves, forwards or backwards, a window that is on follows it. It stays
/// while the reader is in it and at least three pieces before its last. Else it starts at
/// the reader's piece and runs on without a gap: over 15 pieces once the stream plays or
/// the reader is six pieces past the window's start, over six before, as far as there are
/// pieces. A window of that start and size is kept as it is, and so is the window of a
/// reader behind the last piece.
pub proof fn law_window_moves_with_reader(
    s: StreamView,
    position: u64,
    current: u32,
    l: Lengths,
    now: u128,
    start: u32,
    last: u32,
)
    requires
        l.wf(),
        s.priority_window_start == Some(start),
        last == (match s.priority_pieces {
            Some(p) => if p.len() > 0 {
                p[p.len() - 1]
            } else {
                start
            },
            None => start,
        }),
    ensures
        ({
            let t = s.moved(position, current, l, now);
            let in_window = start <= current && current + 3 <= last;
            let plays = s.is_playing || current >= start + 6;
            let size: int = if plays {
                15
            } else {
                6
            };
            let there: int = if l.count() - current < size {
                l.count() - current
            } else {
                size
            };
            &&& in_window ==> t.priority_pieces == s.priority_pieces && t.priority_window_start
                == Some(start) && t.is_playing == s.is_playing
            &&& !in_window ==> t.is_playing == plays
            &&& !in_window && current * l.piece() >= l.total() ==> t.priority_pieces
                == s.priority_pieces && t.priority_window_start == Some(start)
            &&& !in_window && current * l.piece() < l.total() ==> {
                &&& t.priority_window_start == Some(current)
                &&& t.priority_pieces matches Some(q)
                &&& q.len() == there
                &&& if start == current && s.priority_pieces is Some
                    && s.priority_pieces->0.len() == there {
                    Some(q) == s.priority_pieces
                } else {
                    forall|k: int| 0 <= k < q.len() ==> #[trigger] q[k] == current + k
                }
            }
        }),
{
    let p = l.piece();
    let n = l.count();
    lemma_last_piece(l);
    assert((n - 1) * p == n * p - p) by (nonlinear_arith);
    lemma_scaled_order(current as int, n, p);
}

/// A move changes the position and the time of the last activity, and nothing else but the
/// window. Without a window start nothing else changes at all.
pub proof fn law_move_sets_position(
    s: StreamView,
    position: u64,
    current: u32,
    l: Lengths,
    now: u128,
)
    ensures
        ({
            let t = s.moved(position, current, l, now);
            &&& t.position == position
            &&& t.last_activity == now
            &&& t.waker == s.waker
            &&& t.file_id == s.file_id
            &&& t.file_len == s.file_len
            &&& t.file_abs_offset == s.file_abs_offset
            &&& s.priority_window_start is None ==> t.priority_window_start is None
                && t.priority_pieces == s.priority_pieces && t.is_playing == s.is_playing
        }),
{
}

/// Rolling the window for a piece does to the window what a move to that piece does, and
/// nothing else.
pub proof fn law_roll_is_a_move_in_place(
    s: StreamView,
    position: u64,
    current: u32,
    l: Lengths,
    now: u128,
)
    ensures
        ({
            let t = s.rolled(current, l);
            let m = s.moved(position, current, l, now);
            &&& t.position == s.position
            &&& t.last_activity == s.last_activity
            &&& t.waker == s.waker
            &&& t.file_id == s.file_id
            &&& t.file_len == s.file_len
            &&& t.file_abs_offset == s.file_abs_offset
            &&& t.priority_pieces == m.priority_pieces
            &&& t.priority_window_start == m.priority_window_start
            &&& t.is_playing == m.is_playing
        }),
{
}

/// A stream is opened at the start of its file, without priority and with nobody waiting.
pub proof fn law_stream_opens_at_start(
    file_id: usize,
    file_len: u64,
    file_abs_offset: u64,
    now: u128,
)
    ensures
        ({
            let t = StreamView::opened(file_id, file_len, file_abs_offset, now);
            &&& t.file_id == file_id
            &&& t.file_len == file_len
            &&& t.file_abs_offset == file_abs_offset
            &&& t.position == 0
            &&& t.waker is None
            &&& t.priority_pieces is None
            &&& t.priority_window_start is None
            &&& !t.is_playing
            &&& t.last_activity == now
        }),
{
}

/// Waiting leaves the waker and makes the stream active, and changes nothing else.
pub proof fn law_waiting_leaves_waker(s: StreamView, waker: Waker, now: u128)
    ensures
        ({
            let t = s.waiting(waker, now);
            &&& t.waker == Some(waker)
            &&& t.last_activity == now
            &&& t.position == s.position
            &&& t.file_id == s.file_id
            &&& t.file_len == s.file_len
            &&& t.file_abs_offset == s.file_abs_offset
            &&& t.priority_pieces == s.priority_pieces
            &&& t.priority_window_start == s.priority_window_start
            &&& t.is_playing == s.is_playing
        }),
{
}

/// The completion of a piece takes the waker of a stream whose position the piece spans,
/// and of no other, and changes nothing else.
pub proof fn law_completion_takes_waker(s: StreamView, piece: int, l: Lengths)
    requires
        l.wf(),
    ensures
        ({
            let t = s.woken(piece, l);
            let here = piece * l.piece() <= s.file_abs_offset + s.position < (piece + 1)
                * l.piece() && piece * l.piece() < l.total() && s.file_abs_offset + s.position
                <= l.total();
            &&& here ==> t.waker is None
            &&& !here ==> t.waker == s.waker
            &&& t.last_activity == s.last_activity
            &&& t.position == s.position
            &&& t.file_id == s.file_id
            &&& t.file_len == s.file_len
            &&& t.file_abs_offset == s.file_abs_offset
            &&& t.priority_pieces == s.priority_pieces
            &&& t.priority_window_start == s.priority_window_start
            &&& t.is_playing == s.is_playing
        }),
{
    law_current_piece_spans_position(s, l, piece);
}

/// A walk sees a state as it is, but for the waker.
pub proof fn law_only_the_waker_is_left_out(s: StreamView)
    ensures
        ({
            let t = s.asleep();
            &&& t.waker is None
            &&& t.last_activity == s.last_activity
            &&& t.position == s.position
            &&& t.file_id == s.file_id
            &&& t.file_len == s.file_len
            &&& t.file_abs_offset == s.file_abs_offset
            &&& t.priority_pieces == s.priority_pieces
            &&& t.priority_window_start == s.priority_window_start
            &&& t.is_playing == s.is_playing
        }),
{
}

/// Setting priority pieces sets just them, and anchors the window to the first; an empty
/// list leaves the window's start, and clearing them takes it away.
pub proof fn law_priority_is_what_was_set(s: StreamView, pieces: Option<Seq<u32>>)
    ensures
        ({
            let t = s.prioritized(pieces);
            &&& t.priority_pieces == pieces
            &&& pieces is None ==> t.priority_window_start is None
            &&& pieces matches Some(p) ==> if p.len() > 0 {
                t.priority_window_start == Some(p[0])
            } else {
                t.priority_window_start == s.priority_window_start
            }
            &&& t.is_playing == s.is_playing
            &&& t.waker == s.waker
            &&& t.last_activity == s.last_activity
            &&& t.position == s.position
            &&& t.file_id == s.file_id
            &&& t.file_len == s.file_len
            &&& t.file_abs_offset == s.file_abs_offset
        }),
{
}

/// A cold start window holds the six pieces from the given one on, as far as there are
/// pieces. Where there is none, the priority pieces stay.
pub proof fn law_cold_start_window(s: StreamView, current: u32, l: Lengths)
    requires
        l.wf(),
    ensures
        ({
            let t = s.windowed(current, l);
            &&& t.priority_window_start == Some(current)
            &&& !t.is_playing
            &&& current * l.piece() >= l.total() ==> t.priority_pieces == s.priority_pieces
            &&& current * l.piece() < l.total() ==> {
                &&& t.priority_pieces matches Some(q)
                &&& q.len() == if l.count() - current < 6 {
                    l.count() - current
                } else {
                    6
                }
                &&& forall|k: int| 0 <= k < q.len() ==> #[trigger] q[k] == current + k
            }
            &&& t.waker == s.waker
            &&& t.last_activity == s.last_activity
            &&& t.position == s.position
            &&& t.file_id == s.file_id
            &&& t.file_len == s.file_len
            &&& t.file_abs_offset == s.file_abs_offset
        }),
{
    let p = l.piece();
    let n = l.count();
    lemma_last_piece(l);
    assert((n - 1) * p == n * p - p) by (nonlinear_arith);
    lemma_scaled_order(current as int, n, p);
}

/// Switching the window on keeps priority pieces that were set and starts it at the first
/// of them. Without such pieces it is a cold start.
pub proof fn law_set_pieces_anchor_the_window(s: StreamView, current: u32, l: Lengths)
    ensures
        ({
            let t = s.windowed_or_anchored(current, l);
            let set = s.priority_pieces is Some && s.priority_pieces->0.len() > 0;
            &&& set ==> t.priority_pieces == s.priority_pieces
            &&& set ==> t.priority_window_start == Some(s.priority_pieces->0[0])
            &&& !set ==> t == s.windowed(current, l)
            &&& !t.is_playing
            &&& t.waker == s.waker
            &&& t.last_activity == s.last_activity
            &&& t.position == s.position
            &&& t.file_id == s.file_id
            &&& t.file_len == s.file_len
            &&& t.file_abs_offset == s.file_abs_offset
        }),
{
}

} // verus!
