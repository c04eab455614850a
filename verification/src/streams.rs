//! The streams and anchors of one torrent, and the pieces that they need next.
use crate::interleave::{
    first_occurrences, interleave_priority, number_lists, round_robin, NextPieces,
};
use crate::lengths::{piece_numbers, Lengths, ValidPieceIndex};
use crate::outside::{
    anchor_entries, channel_capacity, channel_of, count_anchors, count_streams, insert_anchor,
    insert_stream, new_anchors, new_channel, new_streams, no_anchors, passed, receive,
    remove_anchor, remove_stream, send, sent, shuffle, source_of, stream_entries, subscribe,
    walk_anchors, walk_streams,
};
use crate::stream_state::{lookahead, lookahead_queue, StreamState, StreamView};
use dashmap::DashMap;
use std::task::Waker;
use std::time::{Duration, Instant};
use tokio::sync::broadcast::{Receiver, Sender};
use vstd::arithmetic::power2::is_pow2;
use vstd::prelude::*;

verus! {

/// A stream that was read from or waited on less than this many seconds ago is active.
pub const ACTIVE_SECS: u128 = 2;

/// A stream that was active less than this many seconds ago still counts where no stream
/// is active.
pub const RECENT_SECS: u128 = 30;

/// How many completed pieces a subscriber may lag behind.
pub const PIECE_NOTIFY_CAPACITY: usize = 256;

/// A place where a user watches. It stays while the user's connections come and go: the
/// application registers it, moves it, and takes it away.
#[derive(Debug)]
pub struct StreamingAnchor {
    pub file_id: usize,
    pub file_abs_offset: u64,
    pub position: u64,
    pub file_len: u64,
    pub last_updated: Instant,
}

impl StreamingAnchor {
    /// The pieces that the user needs next.
    pub open spec fn queue(self, l: Lengths) -> Seq<u32> {
        lookahead(self.file_abs_offset as int, self.position as int, self.file_len as int, l)
    }
}

impl Clone for StreamingAnchor {
    fn clone(&self) -> (r: Self)
        ensures
            r == *self,
    {
        StreamingAnchor {
            file_id: self.file_id,
            file_abs_offset: self.file_abs_offset,
            position: self.position,
            file_len: self.file_len,
            last_updated: self.last_updated,
        }
    }
}

/// `n` is what a clock that was started at `start` shows: what `Duration::as_nanos` gives
/// for what `Instant::elapsed` gives for the start.
pub open spec fn clock_shows(start: Instant, n: u128) -> bool {
    exists|d: Duration| #[trigger]
        call_ensures(Instant::elapsed, (&start,), d) && call_ensures(Duration::as_nanos, (&d,), n)
}

/// `t` is what `Instant::now` gives.
pub open spec fn is_reading(t: Instant) -> bool {
    call_ensures(Instant::now, (), t)
}

/// The whole seconds from `last` to `now`.
pub open spec fn idle_secs(now: u128, last: u128) -> int {
    if last <= now {
        (now - last) / 1_000_000_000
    } else {
        0
    }
}

/// What a list of numbered states says.
pub open spec fn stream_walk(r: Seq<(usize, StreamState)>) -> Seq<(usize, StreamView)> {
    r.map_values(|e: (usize, StreamState)| (e.0, e.1@))
}

/// What a list of named anchors says.
pub open spec fn anchor_walk(r: Seq<(String, StreamingAnchor)>) -> Seq<
    (Seq<char>, StreamingAnchor),
> {
    r.map_values(|e: (String, StreamingAnchor)| (e.0@, e.1))
}

/// `w` lists every stream of `m` once, in some order, without the wakers.
pub open spec fn is_walk(w: Seq<(usize, StreamView)>, m: Map<usize, StreamView>) -> bool {
    &&& forall|i: int, j: int| 0 <= i < j < w.len() ==> (#[trigger] w[i]).0 != (#[trigger] w[j]).0
    &&& forall|i: int|
        0 <= i < w.len() ==> m.contains_key((#[trigger] w[i]).0) && w[i].1 == m[w[i].0].asleep()
    &&& forall|id: usize| #[trigger]
        m.contains_key(id) ==> exists|i: int| 0 <= i < w.len() && (#[trigger] w[i]).0 == id
}

/// `w` lists every anchor of `m` once, in some order.
pub open spec fn is_anchor_walk(
    w: Seq<(Seq<char>, StreamingAnchor)>,
    m: Map<Seq<char>, StreamingAnchor>,
) -> bool {
    &&& forall|i: int, j: int| 0 <= i < j < w.len() ==> (#[trigger] w[i]).0 != (#[trigger] w[j]).0
    &&& forall|i: int|
        0 <= i < w.len() ==> m.contains_key((#[trigger] w[i]).0) && w[i].1 == m[w[i].0]
    &&& forall|name: Seq<char>| #[trigger]
        m.contains_key(name) ==> exists|i: int| 0 <= i < w.len() && (#[trigger] w[i]).0 == name
}

/// `keys` holds `n` items.
pub open spec fn is_size<A>(keys: Set<A>, n: usize) -> bool {
    keys.finite() && keys.len() == n
}

/// `p` holds every index below `n` once.
pub open spec fn is_permutation(p: Seq<int>, n: nat) -> bool {
    &&& p.len() == n
    &&& p.no_duplicates()
    &&& forall|i: int| 0 <= i < n ==> 0 <= #[trigger] p[i] < n
}

/// `a` holds the items of `b` in some order.
pub open spec fn is_shuffle<A>(a: Seq<A>, b: Seq<A>) -> bool {
    exists|p: Seq<int>| #[trigger]
        is_permutation(p, b.len()) && a.len() == b.len() && forall|i: int|
            0 <= i < a.len() ==> #[trigger] a[i] == b[p[i]]
}

/// `order` is an order that `SliceRandom::shuffle` brings `queues` into.
pub closed spec fn shuffled_by_chance(queues: Seq<Seq<u32>>, order: Seq<Seq<u32>>) -> bool {
    exists|given: Vec<Vec<ValidPieceIndex>>, r: Vec<Vec<ValidPieceIndex>>| #[trigger]
        call_ensures(shuffle, (given,), r) && number_lists(given@) == queues && number_lists(r@)
            == order
}

/// The streams of `w` that are active at the time `now`.
pub open spec fn active(w: Seq<(usize, StreamView)>, now: u128) -> Seq<(usize, StreamView)> {
    w.filter(|e: (usize, StreamView)| idle_secs(now, e.1.last_activity) < ACTIVE_SECS)
}

/// The streams of `w` that were active lately.
pub open spec fn recent(w: Seq<(usize, StreamView)>, now: u128) -> Seq<(usize, StreamView)> {
    w.filter(|e: (usize, StreamView)| idle_secs(now, e.1.last_activity) < RECENT_SECS)
}

/// The stream of `w` that was idle for the fewest seconds, the first of them in `w`.
pub open spec fn least_idle(w: Seq<(usize, StreamView)>, now: u128) -> (usize, StreamView)
    recommends
        w.len() > 0,
    decreases w.len(),
{
    if w.len() <= 1 {
        w[0]
    } else {
        let rest = least_idle(w.drop_last(), now);
        if idle_secs(now, w.last().1.last_activity) < idle_secs(now, rest.1.last_activity) {
            w.last()
        } else {
            rest
        }
    }
}

/// The lookahead of each stream of `w`.
pub open spec fn stream_queues(w: Seq<(usize, StreamView)>, l: Lengths) -> Seq<Seq<u32>> {
    w.map_values(|e: (usize, StreamView)| e.1.queue(l))
}

/// The lookahead of each anchor of `a`.
pub open spec fn anchor_queues(a: Seq<(Seq<char>, StreamingAnchor)>, l: Lengths) -> Seq<Seq<u32>> {
    a.map_values(|e: (Seq<char>, StreamingAnchor)| e.1.queue(l))
}

/// The queues that are taken from in turn: those of the active streams; where there is
/// none, that of the stream that was active last, if that was lately; where there is none
/// either, those of the anchors.
pub open spec fn normal_queues(
    w: Seq<(usize, StreamView)>,
    a: Seq<(Seq<char>, StreamingAnchor)>,
    now: u128,
    l: Lengths,
) -> Seq<Seq<u32>> {
    if active(w, now).len() > 0 {
        stream_queues(active(w, now), l)
    } else if recent(w, now).len() > 0 {
        seq![least_idle(recent(w, now), now).1.queue(l)]
    } else {
        anchor_queues(a, l)
    }
}

/// The priority pieces of each stream of `w` that has them.
pub open spec fn priority_queues(w: Seq<(usize, StreamView)>) -> Seq<Seq<u32>> {
    w.filter(|e: (usize, StreamView)| e.1.priority_pieces is Some).map_values(
        |e: (usize, StreamView)| e.1.priority(),
    )
}

/// The priority pieces of all streams of `w`, taken in turn, each once.
pub open spec fn priority_pieces(w: Seq<(usize, StreamView)>) -> Seq<u32> {
    first_occurrences(round_robin(priority_queues(w)))
}

/// The priority pieces of all streams of `w`, one stream after the other.
pub open spec fn all_priority(w: Seq<(usize, StreamView)>) -> Seq<u32>
    decreases w.len(),
{
    if w.len() == 0 {
        Seq::empty()
    } else {
        all_priority(w.drop_last()) + w.last().1.priority()
    }
}

/// The whole seconds from `last` to `now`.
fn idle(now: u128, last: u128) -> (n: u128)
    ensures
        n == idle_secs(now, last),
{
    if last <= now {
        (now - last) / 1_000_000_000
    } else {
        0
    }
}

/// The priority pieces of each of `streams` that has them.
fn collect_priority_queues(streams: &Vec<(usize, StreamState)>) -> (queues: Vec<
    Vec<ValidPieceIndex>,
>)
    ensures
        number_lists(queues@) == priority_queues(stream_walk(streams@)),
{
    let ghost w = stream_walk(streams@);
    let mut queues: Vec<Vec<ValidPieceIndex>> = Vec::new();
    let mut i: usize = 0;
    assert(number_lists(queues@) =~= priority_queues(w.take(0)));
    while i < streams.len()
        invariant
            i <= streams.len(),
            w == stream_walk(streams@),
            number_lists(queues@) == priority_queues(w.take(i as int)),
        decreases streams.len() - i,
    {
        let ghost had = number_lists(queues@);
        assert(w.take(i + 1).drop_last() =~= w.take(i as int));
        reveal(Seq::filter);
        if let Some(p) = &streams[i].1.priority_pieces {
            let copied = p.clone();
            assert(piece_numbers(copied@) =~= piece_numbers(p@));
            queues.push(copied);
            assert(number_lists(queues@) =~= had.push(piece_numbers(p@)));
        }
        i = i + 1;
        assert(number_lists(queues@) =~= priority_queues(w.take(i as int)));
    }
    assert(w.take(i as int) =~= w);
    queues
}

/// The queues that are taken from in turn.
fn collect_normal_queues(
    streams: &Vec<(usize, StreamState)>,
    anchors: &Vec<(String, StreamingAnchor)>,
    now: u128,
    lengths: &Lengths,
) -> (queues: Vec<Vec<ValidPieceIndex>>)
    ensures
        number_lists(queues@) == normal_queues(
            stream_walk(streams@),
            anchor_walk(anchors@),
            now,
            *lengths,
        ),
{
    let ghost w = stream_walk(streams@);
    let mut active_queues: Vec<Vec<ValidPieceIndex>> = Vec::new();
    let mut most_recent: Option<(u128, usize)> = None;
    let mut i: usize = 0;
    assert(number_lists(active_queues@) =~= stream_queues(active(w.take(0), now), *lengths));
    while i < streams.len()
        invariant
            i <= streams.len(),
            w == stream_walk(streams@),
            number_lists(active_queues@) == stream_queues(active(w.take(i as int), now), *lengths),
            most_recent is None <==> recent(w.take(i as int), now).len() == 0,
            most_recent matches Some((secs, k)) ==> {
                &&& k < i
                &&& w[k as int] == least_idle(recent(w.take(i as int), now), now)
                &&& secs == idle_secs(now, w[k as int].1.last_activity)
            },
        decreases streams.len() - i,
    {
        let ghost had = number_lists(active_queues@);
        let ghost part = w.take(i + 1);
        assert(part.drop_last() =~= w.take(i as int));
        assert(part.last() == w[i as int]);
        reveal(Seq::filter);
        let state = &streams[i].1;
        let secs: u128 = idle(now, state.last_activity);
        if secs < ACTIVE_SECS {
            let queue = state.queue_without_priority(lengths);
            active_queues.push(queue);
            assert(number_lists(active_queues@) =~= had.push(state@.queue(*lengths)));
        }
        assert(number_lists(active_queues@) =~= stream_queues(active(part, now), *lengths));
        if secs < RECENT_SECS {
            assert(recent(part, now) == recent(w.take(i as int), now).push(w[i as int]));
            assert(recent(part, now).drop_last() =~= recent(w.take(i as int), now));
            let fresher: bool = match most_recent {
                Some((least, _)) => secs < least,
                None => true,
            };
            if fresher {
                most_recent = Some((secs, i));
            }
        }
        i = i + 1;
    }
    assert(w.take(i as int) =~= w);
    if active_queues.len() > 0 {
        assert(number_lists(active_queues@).len() > 0);
        return active_queues;
    }
    assert(number_lists(active_queues@).len() == 0);
    let mut queues: Vec<Vec<ValidPieceIndex>> = Vec::new();
    if let Some((_, k)) = most_recent {
        let queue = streams[k].1.queue_without_priority(lengths);
        queues.push(queue);
        assert(number_lists(queues@) =~= seq![w[k as int].1.queue(*lengths)]);
        return queues;
    }
    let ghost a = anchor_walk(anchors@);
    let mut j: usize = 0;
    while j < anchors.len()
        invariant
            j <= anchors.len(),
            a == anchor_walk(anchors@),
            queues@.len() == j,
            forall|k: int|
                0 <= k < j ==> piece_numbers((#[trigger] queues@[k])@) == a[k].1.queue(*lengths),
        decreases anchors.len() - j,
    {
        let anchor = &anchors[j].1;
        let queue = lookahead_queue(
            anchor.file_abs_offset,
            anchor.position,
            anchor.file_len,
            lengths,
        );
        queues.push(queue);
        j = j + 1;
    }
    assert(number_lists(queues@) =~= anchor_queues(a, *lengths));
    queues
}

/// The pieces that a torrent with the given streams and anchors needs at the time `now`:
/// the priority pieces of all streams, and the queues to take from in turn after them.
pub fn plan_next_pieces(
    streams: &Vec<(usize, StreamState)>,
    anchors: &Vec<(String, StreamingAnchor)>,
    now: u128,
    lengths: &Lengths,
) -> (r: (Vec<ValidPieceIndex>, Vec<Vec<ValidPieceIndex>>))
    ensures
        piece_numbers(r.0@) == priority_pieces(stream_walk(streams@)),
        number_lists(r.1@) == normal_queues(
            stream_walk(streams@),
            anchor_walk(anchors@),
            now,
            *lengths,
        ),
{
    let priority = interleave_priority(&collect_priority_queues(streams));
    let queues = collect_normal_queues(streams, anchors, now, lengths);
    (priority, queues)
}

/// The priority pieces of all of `streams`, one stream after the other.
pub fn concat_priority_pieces(streams: &Vec<(usize, StreamState)>) -> (pieces: Vec<ValidPieceIndex>)
    ensures
        piece_numbers(pieces@) == all_priority(stream_walk(streams@)),
{
    let ghost w = stream_walk(streams@);
    let mut pieces: Vec<ValidPieceIndex> = Vec::new();
    let mut i: usize = 0;
    assert(piece_numbers(pieces@) =~= all_priority(w.take(0)));
    while i < streams.len()
        invariant
            i <= streams.len(),
            w == stream_walk(streams@),
            piece_numbers(pieces@) == all_priority(w.take(i as int)),
        decreases streams.len() - i,
    {
        let ghost had = piece_numbers(pieces@);
        assert(w.take(i + 1).drop_last() =~= w.take(i as int));
        if let Some(p) = &streams[i].1.priority_pieces {
            let mut copied = p.clone();
            assert(piece_numbers(copied@) =~= piece_numbers(p@));
            pieces.append(&mut copied);
        }
        i = i + 1;
        assert(piece_numbers(pieces@) =~= all_priority(w.take(i as int)));
    }
    assert(w.take(i as int) =~= w);
    pieces
}

/// What a receiver gets from a channel.
#[derive(Clone, Copy, Debug, PartialEq, Eq, Structural)]
pub enum Received {
    /// This value.
    Value(u32),
    /// Nothing: it got all that was sent.
    Nothing,
    /// Nothing: it lagged behind, and missed so many values.
    Lagged(u64),
    /// Nothing: nobody can send any more.
    Closed,
}

/// What a receiver gets that is past the values `before` of a channel, on which `sent` was
/// sent and which holds `capacity` values for it; and the values that it is past then.
pub open spec fn next_received(sent: Seq<u32>, capacity: nat, before: Seq<u32>) -> (
    Received,
    Seq<u32>,
) {
    let next = before.len() as int;
    let behind = sent.len() - next;
    if behind <= 0 {
        (Received::Nothing, before)
    } else if behind <= capacity {
        (Received::Value(sent[next]), sent.take(next + 1))
    } else {
        (Received::Lagged((behind - capacity) as u64), sent.take(sent.len() - capacity))
    }
}

/// What the streams and anchors of a torrent say.
#[verifier::ext_equal]
pub struct TorrentStreamsView {
    /// The number that the next stream gets.
    pub next_stream_id: usize,
    pub streams: Map<usize, StreamView>,
    /// The anchors, under the names of their sessions.
    pub anchors: Map<Seq<char>, StreamingAnchor>,
    /// The pieces whose completion was made known, in order.
    pub completed: Seq<u32>,
    /// The channel on which completed pieces are made known.
    pub channel: nat,
    /// How many completed pieces a subscriber may lag behind.
    pub notify_capacity: nat,
    /// The times in the streams' states are counted from here.
    pub clock: Instant,
}

impl TorrentStreamsView {
    /// Stream `id`, if it is there, is in state `state` instead.
    pub open spec fn with_stream(self, id: usize, state: StreamView) -> Self {
        if self.streams.contains_key(id) {
            TorrentStreamsView { streams: self.streams.insert(id, state), ..self }
        } else {
            self
        }
    }

    /// `after` differs in that, at a time that the clock shows, the reader of stream `id`
    /// moved to byte `position`, in piece `current`.
    pub open spec fn reader_moved(
        self,
        id: usize,
        position: u64,
        current: u32,
        l: Lengths,
        after: Self,
    ) -> bool {
        exists|now: u128|
            clock_shows(self.clock, now) && after == self.with_stream(
                id,
                #[trigger] self.streams[id].moved(position, current, l, now),
            )
    }

    /// `after` differs in that, at a time that the clock shows, `waker` was left at stream
    /// `id`.
    pub open spec fn waker_left(self, id: usize, waker: Waker, after: Self) -> bool {
        exists|now: u128|
            clock_shows(self.clock, now) && after == self.with_stream(
                id,
                #[trigger] self.streams[id].waiting(waker, now),
            )
    }

    /// `after` differs in that, at a time that the clock shows, a stream of a file was
    /// opened.
    pub open spec fn stream_opened(
        self,
        file_id: usize,
        file_len: u64,
        file_abs_offset: u64,
        after: Self,
    ) -> bool {
        exists|now: u128|
            clock_shows(self.clock, now) && after == self.with_new_stream(
                #[trigger] StreamView::opened(file_id, file_len, file_abs_offset, now),
            )
    }

    /// `after` differs in that, at some time, the place where the user of a session
    /// watches was set.
    pub open spec fn anchor_set(
        self,
        session: Seq<char>,
        file_id: usize,
        file_abs_offset: u64,
        position: u64,
        file_len: u64,
        after: Self,
    ) -> bool {
        exists|now: Instant|
            is_reading(now) && after == self.with_anchor(
                session,
                #[trigger] new_anchor(file_id, file_abs_offset, position, file_len, now),
            )
    }

    /// A stream in state `state` was added under the next number.
    pub open spec fn with_new_stream(self, state: StreamView) -> Self {
        TorrentStreamsView {
            streams: self.streams.insert(self.next_stream_id, state),
            ..self.id_given()
        }
    }

    /// Nobody waits any longer for piece `piece`.
    pub open spec fn woken(self, piece: int, l: Lengths) -> Self {
        TorrentStreamsView {
            streams: self.streams.map_values(|s: StreamView| s.woken(piece, l)),
            ..self
        }
    }

    /// Piece `piece` was completed: that was made known, and nobody waits for it any longer.
    pub open spec fn piece_completed(self, piece: u32, l: Lengths) -> Self {
        (TorrentStreamsView { completed: self.completed.push(piece), ..self }).woken(
            piece as int,
            l,
        )
    }

    /// The next number for a stream was given out.
    pub open spec fn id_given(self) -> Self {
        TorrentStreamsView {
            next_stream_id: if self.next_stream_id == usize::MAX {
                0
            } else {
                (self.next_stream_id + 1) as usize
            },
            ..self
        }
    }

    /// Stream `id` was removed.
    pub open spec fn without_stream(self, id: usize) -> Self {
        TorrentStreamsView { streams: self.streams.remove(id), ..self }
    }

    /// The place where the user of a session watches was set to `anchor`.
    pub open spec fn with_anchor(self, session: Seq<char>, anchor: StreamingAnchor) -> Self {
        TorrentStreamsView { anchors: self.anchors.insert(session, anchor), ..self }
    }

    /// The anchor of a session was removed.
    pub open spec fn without_anchor(self, session: Seq<char>) -> Self {
        TorrentStreamsView { anchors: self.anchors.remove(session), ..self }
    }

    /// `after` differs by one of the changes that streams and anchors undergo.
    pub open spec fn step_to(self, after: Self) -> bool {
        ||| after == self.id_given()
        ||| exists|state: StreamView| after == #[trigger] self.with_new_stream(state)
        ||| exists|id: usize, state: StreamView| after == #[trigger] self.with_stream(id, state)
        ||| exists|id: usize| after == #[trigger] self.without_stream(id)
        ||| exists|session: Seq<char>, anchor: StreamingAnchor|
            after == #[trigger] self.with_anchor(session, anchor)
        ||| exists|session: Seq<char>| after == #[trigger] self.without_anchor(session)
        ||| exists|piece: u32, l: Lengths| after == #[trigger] self.piece_completed(piece, l)
    }

    /// The channel holds as many completed pieces for a subscriber as it was made for.
    pub open spec fn is_set_up(self) -> bool {
        self.notify_capacity == PIECE_NOTIFY_CAPACITY
    }

    /// Somebody waits at stream `id` for piece `piece`.
    pub open spec fn waits_for(self, id: usize, piece: int, l: Lengths) -> bool {
        &&& self.streams.contains_key(id)
        &&& self.streams[id].waker is Some
        &&& self.streams[id].current(l) == Some(piece)
    }
}

/// The streams and anchors of one torrent.
pub struct TorrentStreams {
    next_stream_id: usize,
    streams: DashMap<usize, StreamState>,
    anchors: DashMap<String, StreamingAnchor>,
    piece_completed_tx: Sender<u32>,
    /// The times in the streams' states are counted from here.
    clock_start: Instant,
}

impl View for TorrentStreams {
    type V = TorrentStreamsView;

    closed spec fn view(&self) -> TorrentStreamsView {
        TorrentStreamsView {
            next_stream_id: self.next_stream_id,
            streams: stream_entries(self.streams),
            anchors: anchor_entries(self.anchors),
            completed: sent(self.piece_completed_tx),
            channel: channel_of(self.piece_completed_tx),
            notify_capacity: channel_capacity(self.piece_completed_tx),
            clock: self.clock_start,
        }
    }
}

impl Default for TorrentStreams {
    /// No streams and no anchors.
    fn default() -> (r: Self)
        ensures
            r@.next_stream_id == 0,
            r@.streams == Map::<usize, StreamView>::empty(),
            r@.anchors == Map::<Seq<char>, StreamingAnchor>::empty(),
            r@.completed == Seq::<u32>::empty(),
            r@.notify_capacity == PIECE_NOTIFY_CAPACITY,
            r@.is_set_up(),
            is_reading(r@.clock),
    {
        assert(is_pow2(PIECE_NOTIFY_CAPACITY as int)) by {
            reveal_with_fuel(is_pow2, 9);
        }
        let read_clock = Instant::now;
        let r = TorrentStreams {
            next_stream_id: 0,
            streams: new_streams(),
            anchors: new_anchors(),
            piece_completed_tx: new_channel(PIECE_NOTIFY_CAPACITY),
            clock_start: read_clock(),
        };
        assert(r@.streams =~= Map::<usize, StreamView>::empty());
        assert(r@.anchors =~= Map::<Seq<char>, StreamingAnchor>::empty());
        r
    }
}

impl TorrentStreams {
    /// The nanoseconds since the streams were set up.
    fn now(&self) -> (n: u128)
        ensures
            clock_shows(self@.clock, n),
    {
        let elapsed = Instant::elapsed;
        let as_nanos = Duration::as_nanos;
        let since = elapsed(&self.clock_start);
        as_nanos(&since)
    }

    /// Gives out the next number for a stream. The numbers start anew after the largest.
    pub fn next_id(&mut self) -> (id: usize)
        ensures
            id == old(self)@.next_stream_id,
            final(self)@ == old(self)@.id_given(),
    {
        let id: usize = self.next_stream_id;
        self.next_stream_id = id.wrapping_add(1);
        id
    }

    /// The number of streams.
    pub fn stream_count(&self) -> (n: usize)
        ensures
            n == self@.streams.len(),
            self@.streams.dom().finite(),
    {
        count_streams(&self.streams)
    }

    /// Whether there is a stream or an anchor, and with it a place to download around.
    pub fn has_streaming_context(&self) -> (r: bool)
        ensures
            r <==> self@.streams.dom() != Set::<usize>::empty() || self@.anchors.dom() != Set::<
                Seq<char>,
            >::empty(),
    {
        let n: usize = count_streams(&self.streams);
        if n > 0 {
            return true;
        }
        assert(self@.streams.dom() =~= Set::<usize>::empty());
        !no_anchors(&self.anchors)
    }

    /// The number of anchors.
    pub fn anchor_count(&self) -> (n: usize)
        ensures
            n == self@.anchors.len(),
            self@.anchors.dom().finite(),
    {
        count_anchors(&self.anchors)
    }

    /// Registers the place where a session's user watches, or moves it.
    pub fn register_streaming_anchor(
        &mut self,
        session_id: &str,
        file_id: usize,
        position: u64,
        file_abs_offset: u64,
        file_len: u64,
    )
        ensures
            old(self)@.anchor_set(
                session_id@,
                file_id,
                file_abs_offset,
                position,
                file_len,
                final(self)@,
            ),
    {
        let read_clock = Instant::now;
        let now = read_clock();
        let anchor = StreamingAnchor {
            file_id,
            file_abs_offset,
            position,
            file_len,
            last_updated: now,
        };
        assert(anchor == new_anchor(file_id, file_abs_offset, position, file_len, now));
        insert_anchor(&mut self.anchors, session_id.to_string(), anchor);
    }

    /// Removes the anchor of a session that ended.
    pub fn unregister_streaming_anchor(&mut self, session_id: &str)
        ensures
            final(self)@ == old(self)@.without_anchor(session_id@),
    {
        let _ = remove_anchor(&mut self.anchors, session_id);
    }

    /// A receiver of the numbers of the pieces that are completed from now on.
    pub fn subscribe_piece_completed(&self) -> (rx: Receiver<u32>)
        ensures
            source_of(rx) == self@.channel,
            passed(rx) == self@.completed,
    {
        subscribe(&self.piece_completed_tx)
    }

    /// What a subscriber gets next, without waiting for it.
    pub fn receive_piece_completed(&self, rx: &mut Receiver<u32>) -> (r: Received)
        ensures
            source_of(*final(rx)) == source_of(*old(rx)),
            source_of(*old(rx)) == self@.channel ==> (r, passed(*final(rx))) == next_received(
                self@.completed,
                self@.notify_capacity,
                passed(*old(rx)),
            ),
    {
        receive(&self.piece_completed_tx, rx)
    }

    /// Adds a stream at the start of a file at the time `now`, and gives its number.
    pub fn open_stream_at(
        &mut self,
        file_id: usize,
        file_len: u64,
        file_abs_offset: u64,
        now: u128,
    ) -> (id: usize)
        ensures
            id == old(self)@.next_stream_id,
            final(self)@ == old(self)@.with_new_stream(
                StreamView::opened(file_id, file_len, file_abs_offset, now),
            ),
    {
        let id = self.next_id();
        insert_stream(
            &mut self.streams,
            id,
            StreamState::new(file_id, file_len, file_abs_offset, now),
        );
        id
    }

    /// Adds a stream at the start of a file, and gives its number.
    pub fn open_stream(&mut self, file_id: usize, file_len: u64, file_abs_offset: u64) -> (id:
        usize)
        ensures
            id == old(self)@.next_stream_id,
            old(self)@.stream_opened(file_id, file_len, file_abs_offset, final(self)@),
    {
        let now: u128 = self.now();
        self.open_stream_at(file_id, file_len, file_abs_offset, now)
    }

    /// Leaves `waker` to be woken when the piece at the position of a stream is there.
    pub fn register_waker_at(&mut self, stream_id: usize, waker: Waker, now: u128)
        ensures
            final(self)@ == old(self)@.with_stream(
                stream_id,
                old(self)@.streams[stream_id].waiting(waker, now),
            ),
    {
        match remove_stream(&mut self.streams, stream_id) {
            Some(mut state) => {
                state.waker = Some(waker);
                state.last_activity = now;
                insert_stream(&mut self.streams, stream_id, state);
                assert(self@.streams =~= old(self)@.streams.insert(stream_id, state@));
            },
            None => {
                assert(self@.streams =~= old(self)@.streams);
            },
        }
    }

    /// Leaves `waker` to be woken when the piece at the position of a stream is there.
    pub fn register_waker(&mut self, stream_id: usize, waker: Waker)
        ensures
            old(self)@.waker_left(stream_id, waker, final(self)@),
    {
        let now: u128 = self.now();
        self.register_waker_at(stream_id, waker, now);
    }

    /// Moves the reader of a stream to byte `position` of its file, in piece `current`,
    /// and rolls its priority window.
    pub fn move_stream_at(
        &mut self,
        stream_id: usize,
        position: u64,
        current: u32,
        lengths: &Lengths,
        now: u128,
    )
        ensures
            final(self)@ == old(self)@.with_stream(
                stream_id,
                old(self)@.streams[stream_id].moved(position, current, *lengths, now),
            ),
    {
        match remove_stream(&mut self.streams, stream_id) {
            Some(mut state) => {
                state.position = position;
                state.last_activity = now;
                state.roll(current, lengths);
                insert_stream(&mut self.streams, stream_id, state);
                assert(self@.streams =~= old(self)@.streams.insert(stream_id, state@));
            },
            None => {
                assert(self@.streams =~= old(self)@.streams);
            },
        }
    }

    /// Moves the reader of a stream to byte `position` of its file, in piece `current`,
    /// and rolls its priority window.
    pub fn move_stream(
        &mut self,
        stream_id: usize,
        position: u64,
        current: u32,
        lengths: &Lengths,
    )
        ensures
            old(self)@.reader_moved(stream_id, position, current, *lengths, final(self)@),
    {
        let now: u128 = self.now();
        self.move_stream_at(stream_id, position, current, lengths, now);
    }

    /// Removes a stream and gives the state that it was in.
    pub fn drop_stream(&mut self, stream_id: usize) -> (r: Option<StreamState>)
        ensures
            r is Some <==> old(self)@.streams.contains_key(stream_id),
            r matches Some(state) ==> state@ == old(self)@.streams[stream_id],
            final(self)@ == old(self)@.without_stream(stream_id),
    {
        remove_stream(&mut self.streams, stream_id)
    }

    /// Sets the pieces that a stream asks for before all others. `None` clears them and
    /// switches the rolling window off. Whether the stream counts as playing stays.
    pub fn set_stream_priority(&mut self, stream_id: usize, pieces: Option<Vec<ValidPieceIndex>>)
        ensures
            final(self)@ == old(self)@.with_stream(
                stream_id,
                old(self)@.streams[stream_id].prioritized(
                    match pieces {
                        Some(p) => Some(piece_numbers(p@)),
                        None => None,
                    },
                ),
            ),
    {
        match remove_stream(&mut self.streams, stream_id) {
            Some(mut state) => {
                state.prioritize(pieces);
                insert_stream(&mut self.streams, stream_id, state);
                assert(self@.streams =~= old(self)@.streams.insert(stream_id, state@));
            },
            None => {
                assert(self@.streams =~= old(self)@.streams);
            },
        }
    }

    /// Puts a rolling priority window for a cold start at piece `current_piece`.
    pub fn enable_rolling_priority(
        &mut self,
        stream_id: usize,
        current_piece: u32,
        lengths: &Lengths,
    )
        ensures
            final(self)@ == old(self)@.with_stream(
                stream_id,
                old(self)@.streams[stream_id].windowed(current_piece, *lengths),
            ),
    {
        match remove_stream(&mut self.streams, stream_id) {
            Some(mut state) => {
                state.start_window(current_piece, lengths);
                insert_stream(&mut self.streams, stream_id, state);
                assert(self@.streams =~= old(self)@.streams.insert(stream_id, state@));
            },
            None => {
                assert(self@.streams =~= old(self)@.streams);
            },
        }
    }

    /// Switches the rolling priority window of a stream on: anchored to the priority
    /// pieces that were set for it, else for a cold start at piece `current_piece`.
    pub fn enable_or_anchor_rolling_priority(
        &mut self,
        stream_id: usize,
        current_piece: u32,
        lengths: &Lengths,
    )
        ensures
            final(self)@ == old(self)@.with_stream(
                stream_id,
                old(self)@.streams[stream_id].windowed_or_anchored(current_piece, *lengths),
            ),
    {
        match remove_stream(&mut self.streams, stream_id) {
            Some(mut state) => {
                state.start_window_or_anchor(current_piece, lengths);
                insert_stream(&mut self.streams, stream_id, state);
                assert(self@.streams =~= old(self)@.streams.insert(stream_id, state@));
            },
            None => {
                assert(self@.streams =~= old(self)@.streams);
            },
        }
    }

    /// The priority pieces of all streams, one stream after the other.
    pub fn get_all_priority_pieces(&self) -> (pieces: Vec<ValidPieceIndex>)
        ensures
            exists|w: Seq<(usize, StreamView)>| #[trigger]
                is_walk(w, self@.streams) && piece_numbers(pieces@) == all_priority(w),
    {
        let walked = walk_streams(&self.streams);
        assert(is_walk(stream_walk(walked@), self@.streams));
        concat_priority_pieces(&walked)
    }

    /// The number of a stream of the file `file_id`.
    pub fn get_stream_id_by_file(&self, file_id: usize) -> (r: Option<usize>)
        ensures
            r matches Some(id) ==> self@.streams.contains_key(id) && self@.streams[id].file_id
                == file_id,
            r is None ==> forall|id: usize| #[trigger]
                self@.streams.contains_key(id) ==> self@.streams[id].file_id != file_id,
    {
        let walked = walk_streams(&self.streams);
        let ghost w = stream_walk(walked@);
        let mut i: usize = 0;
        while i < walked.len()
            invariant
                i <= walked.len(),
                w == stream_walk(walked@),
                is_walk(w, self@.streams),
                forall|k: int| 0 <= k < i ==> (#[trigger] w[k]).1.file_id != file_id,
            decreases walked.len() - i,
        {
            assert(w[i as int] == (walked@[i as int].0, walked@[i as int].1@));
            if walked[i].1.file_id == file_id {
                return Some(walked[i].0);
            }
            i = i + 1;
        }
        assert forall|id: usize| #[trigger] self@.streams.contains_key(id) implies self@.streams[
            id
        ].file_id != file_id by {
            let k = choose|k: int| 0 <= k < w.len() && (#[trigger] w[k]).0 == id;
        }
        None
    }

    /// The files of all streams.
    pub fn streamed_file_ids(&self) -> (ids: Vec<usize>)
        ensures
            exists|w: Seq<(usize, StreamView)>| #[trigger]
                is_walk(w, self@.streams) && ids@ == w.map_values(
                    |e: (usize, StreamView)| e.1.file_id,
                ),
    {
        let walked = walk_streams(&self.streams);
        let ghost w = stream_walk(walked@);
        let mut ids: Vec<usize> = Vec::new();
        let mut i: usize = 0;
        while i < walked.len()
            invariant
                i <= walked.len(),
                w == stream_walk(walked@),
                ids@.len() == i,
                forall|k: int| 0 <= k < i ==> #[trigger] ids@[k] == w[k].1.file_id,
            decreases walked.len() - i,
        {
            ids.push(walked[i].1.file_id);
            i = i + 1;
        }
        assert(is_walk(w, self@.streams));
        assert(ids@ =~= w.map_values(|e: (usize, StreamView)| e.1.file_id));
        ids
    }

    /// The pieces to ask for next. The priority pieces of all streams come first. Then
    /// come those of the active streams in turn, or what stands in for them.
    pub fn iter_next_pieces(&self, lengths: &Lengths) -> (r: NextPieces)
        ensures
            exists|
                w: Seq<(usize, StreamView)>,
                a: Seq<(Seq<char>, StreamingAnchor)>,
                now: u128,
                order: Seq<Seq<u32>>,
            |
                {
                    &&& is_walk(w, self@.streams)
                    &&& is_anchor_walk(a, self@.anchors)
                    &&& clock_shows(self@.clock, now)
                    &&& #[trigger] is_shuffle(order, normal_queues(w, a, now, *lengths))
                    &&& shuffled_by_chance(normal_queues(w, a, now, *lengths), order)
                    &&& r@ == priority_pieces(w) + round_robin(order)
                },
    {
        let streams = walk_streams(&self.streams);
        let anchors = walk_anchors(&self.anchors);
        let now: u128 = self.now();
        let (priority, queues) = plan_next_pieces(&streams, &anchors, now, lengths);
        let by_chance = shuffle;
        let shuffled = by_chance(queues);
        proof {
            lemma_shuffled_numbers(shuffled@, queues@);
        }
        NextPieces::new(priority, shuffled)
    }

    /// Makes known that a piece was completed, and gives the wakers of the streams that
    /// waited for it.
    #[must_use]
    pub fn wake_streams_on_piece_completed(
        &mut self,
        piece_id: ValidPieceIndex,
        lengths: &Lengths,
    ) -> (wakers: Vec<Waker>)
        ensures
            final(self)@ == old(self)@.piece_completed(piece_id@, *lengths),
            exists|ids: Seq<usize>| #[trigger]
                is_waiting_list(ids, old(self)@, piece_id@ as int, *lengths) && wakers@
                    == wakers_of(ids, old(self)@),
    {
        send(&mut self.piece_completed_tx, piece_id.get());
        let walked = walk_streams(&self.streams);
        let ghost w = stream_walk(walked@);
        let ghost first = self@;
        let ghost mut ids = Seq::<usize>::empty();
        let mut wakers: Vec<Waker> = Vec::new();
        let mut i: usize = 0;
        assert(wakers@ =~= wakers_of(ids, old(self)@));
        while i < walked.len()
            invariant
                i <= walked.len(),
                w == stream_walk(walked@),
                first == (TorrentStreamsView {
                    completed: old(self)@.completed.push(piece_id@),
                    ..old(self)@
                }),
                is_walk(w, first.streams),
                self@ == (TorrentStreamsView { streams: self@.streams, ..first }),
                self@.streams.dom() == first.streams.dom(),
                forall|k: int|
                    0 <= k < i ==> self@.streams[(#[trigger] w[k]).0] == first.streams[w[k].0].woken(
                        piece_id@ as int,
                        *lengths,
                    ),
                forall|k: int|
                    i <= k < w.len() ==> self@.streams[(#[trigger] w[k]).0]
                        == first.streams[w[k].0],
                ids.no_duplicates(),
                forall|n: int|
                    0 <= n < ids.len() ==> old(self)@.waits_for(
                        #[trigger] ids[n],
                        piece_id@ as int,
                        *lengths,
                    ),
                forall|n: int| 0 <= n < ids.len() ==> exists|k: int| 0 <= k < i && w[k].0 == #[trigger] ids[n],
                forall|k: int|
                    0 <= k < i && old(self)@.waits_for(
                        (#[trigger] w[k]).0,
                        piece_id@ as int,
                        *lengths,
                    ) ==> ids.contains(w[k].0),
                wakers@ == wakers_of(ids, old(self)@),
            decreases walked.len() - i,
        {
            let id: usize = walked[i].0;
            assert(w[i as int] == (walked@[i as int].0, walked@[i as int].1@));
            let here: bool = match walked[i].1.current_piece(lengths) {
                Some(current) => current.id.get() == piece_id.get(),
                None => false,
            };
            assert(here <==> first.streams[id].current(*lengths) == Some(piece_id@ as int));
            let ghost before = self@.streams;
            let ghost ids_before = ids;
            if here {
                if let Some(mut state) = remove_stream(&mut self.streams, id) {
                    let waker = state.waker.take();
                    assert(state@ == first.streams[id].asleep());
                    insert_stream(&mut self.streams, id, state);
                    assert(self@.streams =~= before.insert(id, state@));
                    if let Some(waker) = waker {
                        wakers.push(waker);
                        proof {
                            ids = ids.push(id);
                            assert forall|x: usize| ids_before.contains(x) || x
                                == id implies ids.contains(x) by {
                                vstd::seq_lib::lemma_seq_contains_after_push(ids_before, id, x);
                            }
                        }
                        assert(wakers@ =~= wakers_of(ids, old(self)@));
                    }
                }
            }
            assert(self@.streams.dom() =~= first.streams.dom());
            i = i + 1;
        }
        proof {
            assert(self@.streams =~= first.woken(piece_id@ as int, *lengths).streams) by {
                assert forall|id: usize| self@.streams.contains_key(id) implies self@.streams[id]
                    == first.streams[id].woken(piece_id@ as int, *lengths) by {
                    let k = choose|k: int| 0 <= k < w.len() && (#[trigger] w[k]).0 == id;
                }
            }
            assert forall|id: usize| old(self)@.waits_for(id, piece_id@ as int, *lengths) implies
                ids.contains(id) by {
                let k = choose|k: int| 0 <= k < w.len() && (#[trigger] w[k]).0 == id;
            }
            assert(is_waiting_list(ids, old(self)@, piece_id@ as int, *lengths));
        }
        wakers
    }
}

/// The anchor of a user who watches at byte `position` of a file.
pub open spec fn new_anchor(
    file_id: usize,
    file_abs_offset: u64,
    position: u64,
    file_len: u64,
    now: Instant,
) -> StreamingAnchor {
    StreamingAnchor { file_id, file_abs_offset, position, file_len, last_updated: now }
}

/// `ids` lists, once each and in some order, the streams at which somebody waits for
/// piece `piece`.
pub open spec fn is_waiting_list(
    ids: Seq<usize>,
    s: TorrentStreamsView,
    piece: int,
    l: Lengths,
) -> bool {
    &&& ids.no_duplicates()
    &&& forall|id: usize| ids.contains(id) <==> #[trigger] s.waits_for(id, piece, l)
}

/// The wakers left at the streams `ids`.
pub open spec fn wakers_of(ids: Seq<usize>, s: TorrentStreamsView) -> Seq<Waker> {
    ids.map_values(|id: usize| s.streams[id].waker->0)
}

proof fn lemma_shuffled_numbers(a: Seq<Vec<ValidPieceIndex>>, b: Seq<Vec<ValidPieceIndex>>)
    requires
        is_shuffle(a, b),
    ensures
        is_shuffle(number_lists(a), number_lists(b)),
{
    let p = choose|p: Seq<int>| #[trigger]
        is_permutation(p, b.len()) && a.len() == b.len() && forall|i: int|
            0 <= i < a.len() ==> #[trigger] a[i] == b[p[i]];
    assert(is_permutation(p, number_lists(b).len()));
    assert forall|i: int| 0 <= i < number_lists(a).len() implies #[trigger] number_lists(a)[i]
        == number_lists(b)[p[i]] by {
        assert(a[i] == b[p[i]]);
    }
}

/// An order by chance is one that the shuffle gives for lists with these numbers.
pub(crate) proof fn law_chance_is_the_shuffles(queues: Seq<Seq<u32>>, order: Seq<Seq<u32>>)
    requires
        shuffled_by_chance(queues, order),
    ensures
        exists|given: Vec<Vec<ValidPieceIndex>>, r: Vec<Vec<ValidPieceIndex>>| #[trigger]
            call_ensures(shuffle, (given,), r) && number_lists(given@) == queues && number_lists(
                r@,
            ) == order,
{
}

/// What the clock shows is what the standard library gives for the time since its start.
pub proof fn law_clock_shows_time_since_start(start: Instant, n: u128, t: Instant)
    ensures
        clock_shows(start, n) <==> exists|d: Duration| #[trigger]
            call_ensures(Instant::elapsed, (&start,), d) && call_ensures(
                Duration::as_nanos,
                (&d,),
                n,
            ),
        is_reading(t) <==> call_ensures(Instant::now, (), t),
{
}

} // verus!
