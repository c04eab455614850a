//! What holds of the streams of a torrent across several calls.
use crate::file_stream::{FileStreamView, ReadStep};
use crate::interleave::{
    all_items, first_occurrences, law_first_pieces_come_first, law_priority_pieces_come_once,
    law_round_robin_keeps_items, round_robin,
};
use crate::lengths::{div_up, lemma_byte_has_piece, Lengths};
use crate::stream_state::{
    law_current_piece_spans_position, law_lookahead_is_the_next_bytes, least, lookahead,
    StreamState, StreamView, PER_STREAM_BUF_DEFAULT,
};
use crate::streams::{
    active, all_priority, anchor_queues, anchor_walk, clock_shows, idle_secs, is_anchor_walk,
    is_permutation, is_reading, is_shuffle, is_waiting_list, is_walk, least_idle, new_anchor,
    next_received, normal_queues, priority_pieces, priority_queues, recent, stream_queues,
    stream_walk, wakers_of, Received, StreamingAnchor, TorrentStreamsView, ACTIVE_SECS,
    RECENT_SECS,
};
use crate::torrent::{ChunkTracker, TorrentError};
use std::task::Waker;
use std::time::Instant;
use vstd::arithmetic::div_mod::lemma_div_is_ordered;
use vstd::prelude::*;
use vstd::seq_lib::to_multiset_contains;

verus! {

/// Every stream has a number that was given out before the next one.
pub open spec fn ids_below_next(s: TorrentStreamsView) -> bool {
    forall|id: usize| #[trigger] s.streams.contains_key(id) ==> id < s.next_stream_id
}

/// A new stream gets a number that no other stream has, as long as the numbers have not
/// started anew.
pub proof fn law_new_stream_is_new(s: TorrentStreamsView, state: StreamView)
    requires
        ids_below_next(s),
        s.next_stream_id < usize::MAX,
    ensures
        !s.streams.contains_key(s.next_stream_id),
        ids_below_next(s.with_new_stream(state)),
        forall|id: usize| #[trigger]
            s.streams.contains_key(id) ==> s.with_new_stream(state).streams[id] == s.streams[id],
{
}

/// Changing a stream, waking readers and removing a stream keep the numbers below the
/// next one.
pub proof fn law_changes_keep_ids(
    s: TorrentStreamsView,
    id: usize,
    state: StreamView,
    piece: int,
    l: Lengths,
)
    requires
        ids_below_next(s),
    ensures
        ids_below_next(s.with_stream(id, state)),
        ids_below_next(s.woken(piece, l)),
        ids_below_next(s.without_stream(id)),
{
}

/// The stream of a reader is there, at the reader's position in the reader's file.
pub open spec fn in_step(f: FileStreamView, s: TorrentStreamsView) -> bool {
    &&& s.streams.contains_key(f.stream_id)
    &&& s.streams[f.stream_id].file_id == f.file_id
    &&& s.streams[f.stream_id].file_len == f.file_len
    &&& s.streams[f.stream_id].file_abs_offset == f.file_torrent_abs_offset
    &&& s.streams[f.stream_id].position == f.position
}

/// A reader that was just opened is in step with its stream.
pub proof fn law_opened_in_step(
    s: TorrentStreamsView,
    after: TorrentStreamsView,
    f: FileStreamView,
)
    requires
        s.stream_opened(f.file_id, f.file_len, f.file_torrent_abs_offset, after),
        f.stream_id == s.next_stream_id,
        f.position == 0,
    ensures
        in_step(f, after),
{
}

/// A reader that moves stays in step with its stream.
pub proof fn law_moved_in_step(
    f: FileStreamView,
    s: TorrentStreamsView,
    position: u64,
    after: TorrentStreamsView,
)
    requires
        in_step(f, s),
        s.reader_moved(f.stream_id, position, f.piece_number(position), f.lengths, after),
    ensures
        in_step(f.at(position), after),
{
}

/// What is done to one stream leaves the readers of all others in step.
pub proof fn law_others_stay_in_step(
    f: FileStreamView,
    s: TorrentStreamsView,
    id: usize,
    state: StreamView,
)
    requires
        in_step(f, s),
        id != f.stream_id,
    ensures
        in_step(f, s.with_stream(id, state)),
        in_step(f, s.without_stream(id)),
{
}

/// A waker, priority pieces, a priority window and the completion of a piece leave every
/// reader in step.
pub proof fn law_waiting_and_priority_keep_step(
    f: FileStreamView,
    s: TorrentStreamsView,
    waker: Waker,
    now: u128,
    pieces: Option<Seq<u32>>,
    current: u32,
    piece: int,
    l: Lengths,
)
    requires
        in_step(f, s),
    ensures
        in_step(f, s.with_stream(f.stream_id, s.streams[f.stream_id].waiting(waker, now))),
        in_step(f, s.with_stream(f.stream_id, s.streams[f.stream_id].prioritized(pieces))),
        in_step(f, s.with_stream(f.stream_id, s.streams[f.stream_id].windowed(current, l))),
        in_step(
            f,
            s.with_stream(f.stream_id, s.streams[f.stream_id].windowed_or_anchored(current, l)),
        ),
        in_step(f, s.woken(piece, l)),
{
}

/// A reader that had to wait is woken when the piece that it waits for is completed: its
/// waker is among those that come out, and it does not wait any longer.
pub proof fn law_blocked_reader_is_woken(
    f: FileStreamView,
    s: TorrentStreamsView,
    chunks: Result<&ChunkTracker, TorrentError>,
    piece: int,
    waker: Waker,
    buf_len: usize,
    after: TorrentStreamsView,
    ids: Seq<usize>,
)
    requires
        f.current_piece() == Some(piece),
        f.read_step(chunks, buf_len) == Ok::<ReadStep, TorrentError>(ReadStep::Pending),
        in_step(f, s),
        s.waker_left(f.stream_id, waker, after),
        is_waiting_list(ids, after, piece, f.lengths),
    ensures
        wakers_of(ids, after).contains(waker),
        after.woken(piece, f.lengths).streams[f.stream_id].waker is None,
{
    assert(after.waits_for(f.stream_id, piece, f.lengths));
    let k = choose|k: int| 0 <= k < ids.len() && ids[k] == f.stream_id;
    assert(wakers_of(ids, after)[k] == waker);
}

/// The completion of a piece leaves the streams as they are whose readers are elsewhere,
/// and nobody waits for the piece after it.
pub proof fn law_completion_wakes_only_its_readers(
    s: TorrentStreamsView,
    piece: int,
    l: Lengths,
    id: usize,
)
    requires
        s.streams.contains_key(id),
    ensures
        s.woken(piece, l).streams.contains_key(id),
        s.streams[id].current(l) != Some(piece) ==> s.woken(piece, l).streams[id] == s.streams[id],
        !s.woken(piece, l).waits_for(id, piece, l),
{
}

/// What a receiver gets, one after the other, until it got all that was sent.
pub open spec fn receipts(sent: Seq<u32>, capacity: nat, before: Seq<u32>) -> Seq<Received>
    decreases sent.len() - before.len(),
{
    if before.len() >= sent.len() {
        Seq::empty()
    } else {
        let (r, after) = next_received(sent, capacity, before);
        seq![r] + receipts(sent, capacity, after)
    }
}

/// Each of `pieces` as a value that is received.
pub open spec fn as_values(pieces: Seq<u32>) -> Seq<Received> {
    pieces.map_values(|p: u32| Received::Value(p))
}

proof fn lemma_receipts_in_reach(sent: Seq<u32>, capacity: nat, next: int)
    requires
        0 <= next <= sent.len(),
        sent.len() - next <= capacity,
    ensures
        receipts(sent, capacity, sent.take(next)) == as_values(sent.skip(next)),
    decreases sent.len() - next,
{
    if next < sent.len() {
        lemma_receipts_in_reach(sent, capacity, next + 1);
        assert(as_values(sent.skip(next)) =~= seq![Received::Value(sent[next])] + as_values(
            sent.skip(next + 1),
        ));
    } else {
        assert(as_values(sent.skip(next)) =~= Seq::<Received>::empty());
    }
}

proof fn lemma_receipts_since(before: Seq<u32>, pieces: Seq<u32>, capacity: nat)
    ensures
        receipts(before + pieces, capacity, before) == received_of(pieces, capacity),
{
    let all = before + pieces;
    let n = before.len() as int;
    assert(all.take(n) =~= before);
    if pieces.len() <= capacity {
        lemma_receipts_in_reach(all, capacity, n);
        assert(all.skip(n) =~= pieces);
    } else {
        let next = all.len() - capacity;
        lemma_receipts_in_reach(all, capacity, next);
        assert(all.skip(next) =~= pieces.skip(pieces.len() - capacity));
    }
}

/// What a receiver gets of `pieces` that were sent while it received nothing: all of them,
/// in order and each once; where they are more than `capacity`, first how many it missed,
/// and then the latest.
pub open spec fn received_of(pieces: Seq<u32>, capacity: nat) -> Seq<Received> {
    if pieces.len() <= capacity {
        as_values(pieces)
    } else {
        seq![Received::Lagged((pieces.len() - capacity) as u64)] + as_values(
            pieces.skip(pieces.len() - capacity),
        )
    }
}

/// Each of `states` but the first comes from the one before it by one change.
pub open spec fn is_run(states: Seq<TorrentStreamsView>) -> bool {
    &&& states.len() > 0
    &&& forall|i: int| 0 <= i < states.len() - 1 ==> #[trigger] states[i].step_to(states[i + 1])
}

/// Whatever a reader does to its stream, and setting an anchor, is one change.
pub proof fn law_readers_and_users_make_steps(
    s: TorrentStreamsView,
    after: TorrentStreamsView,
    id: usize,
    position: u64,
    current: u32,
    l: Lengths,
    waker: Waker,
    file_id: usize,
    file_len: u64,
    file_abs_offset: u64,
    session: Seq<char>,
)
    ensures
        s.reader_moved(id, position, current, l, after) ==> s.step_to(after),
        s.waker_left(id, waker, after) ==> s.step_to(after),
        s.stream_opened(file_id, file_len, file_abs_offset, after) ==> s.step_to(after),
        s.anchor_set(session, file_id, file_abs_offset, position, file_len, after) ==> s.step_to(
            after,
        ),
{
}

/// In every state that a torrent's streams get into, the channel holds as many completed
/// pieces as it was made for. The channel and the clock stay the same, and what was made
/// known stays made known.
pub proof fn law_every_state_is_set_up(states: Seq<TorrentStreamsView>, n: int)
    requires
        is_run(states),
        states[0].is_set_up(),
        0 <= n < states.len(),
    ensures
        states[n].is_set_up(),
        states[n].channel == states[0].channel,
        states[n].clock == states[0].clock,
        states[0].completed.is_prefix_of(states[n].completed),
    decreases n,
{
    if n > 0 {
        law_every_state_is_set_up(states, n - 1);
        assert(states[n - 1].step_to(states[n - 1 + 1]));
    }
}

/// A subscriber gets the pieces that are completed after it subscribed, in order and each
/// once, and none that was completed before, whatever else happens meanwhile. Where they
/// are more than 256, it is first told how many it missed, and gets the latest 256.
pub proof fn law_subscriber_gets_completed_pieces(states: Seq<TorrentStreamsView>)
    requires
        is_run(states),
        states[0].is_set_up(),
    ensures
        ({
            let before = states[0].completed;
            let now = states.last();
            &&& now.channel == states[0].channel
            &&& now.completed == before + now.completed.skip(before.len() as int)
            &&& receipts(now.completed, now.notify_capacity, before) == received_of(
                now.completed.skip(before.len() as int),
                256,
            )
        }),
{
    let before = states[0].completed;
    let now = states.last();
    law_every_state_is_set_up(states, states.len() - 1);
    let since = now.completed.skip(before.len() as int);
    assert(now.completed =~= before + since);
    lemma_receipts_since(before, since, 256);
}

/// The state after `pieces` were completed, one after the other.
pub open spec fn after_completions(
    s: TorrentStreamsView,
    pieces: Seq<u32>,
    l: Lengths,
) -> TorrentStreamsView
    decreases pieces.len(),
{
    if pieces.len() == 0 {
        s
    } else {
        after_completions(s, pieces.drop_last(), l).piece_completed(pieces.last(), l)
    }
}

/// A subscriber that receives nothing while pieces are completed gets just them after it.
pub proof fn law_completed_pieces_reach_subscriber(
    s: TorrentStreamsView,
    pieces: Seq<u32>,
    l: Lengths,
)
    requires
        s.is_set_up(),
    ensures
        ({
            let now = after_completions(s, pieces, l);
            &&& now.is_set_up()
            &&& now.channel == s.channel
            &&& now.completed == s.completed + pieces
            &&& receipts(now.completed, now.notify_capacity, s.completed) == received_of(
                pieces,
                256,
            )
        }),
    decreases pieces.len(),
{
    let now = after_completions(s, pieces, l);
    if pieces.len() > 0 {
        law_completed_pieces_reach_subscriber(s, pieces.drop_last(), l);
        assert(now.completed =~= s.completed + pieces);
    } else {
        assert(now.completed =~= s.completed + pieces);
    }
    lemma_receipts_since(s.completed, pieces, 256);
}

/// A stream whose reader moved or waited at the time `last` is active for two seconds.
pub proof fn law_reading_keeps_active(
    s: StreamView,
    position: u64,
    current: u32,
    l: Lengths,
    waker: Waker,
    last: u128,
    now: u128,
)
    requires
        last <= now,
        now - last < 2_000_000_000,
    ensures
        idle_secs(now, s.moved(position, current, l, last).last_activity) < ACTIVE_SECS,
        idle_secs(now, s.waiting(waker, last).last_activity) < ACTIVE_SECS,
        idle_secs(now, StreamView::opened(s.file_id, s.file_len, s.file_abs_offset, last).last_activity)
            < ACTIVE_SECS,
{
}

/// Registering an anchor for a session and removing it again leaves the anchors of all
/// other sessions as they were, and none for this one.
pub proof fn law_register_then_unregister(
    s: TorrentStreamsView,
    session: Seq<char>,
    file_id: usize,
    file_abs_offset: u64,
    position: u64,
    file_len: u64,
    after: TorrentStreamsView,
)
    requires
        s.anchor_set(session, file_id, file_abs_offset, position, file_len, after),
    ensures
        after.anchors.remove(session) == s.anchors.remove(session),
        !s.anchors.contains_key(session) ==> after.anchors.remove(session) == s.anchors,
{
    assert(after.anchors.remove(session) =~= s.anchors.remove(session));
    if !s.anchors.contains_key(session) {
        assert(s.anchors.remove(session) =~= s.anchors);
    }
}

/// A session has one anchor, the one that was registered last, and the anchors of other
/// sessions do not change with it.
pub proof fn law_sessions_are_apart(
    s: TorrentStreamsView,
    session: Seq<char>,
    other: Seq<char>,
    file_id: usize,
    file_abs_offset: u64,
    position: u64,
    file_len: u64,
    after: TorrentStreamsView,
)
    requires
        s.anchor_set(session, file_id, file_abs_offset, position, file_len, after),
        other != session,
    ensures
        after.anchors.contains_key(session),
        after.anchors[session].file_id == file_id,
        after.anchors[session].position == position,
        after.anchors[session].file_abs_offset == file_abs_offset,
        after.anchors[session].file_len == file_len,
        after.anchors.contains_key(other) <==> s.anchors.contains_key(other),
        s.anchors.contains_key(other) ==> after.anchors[other] == s.anchors[other],
        after.streams == s.streams,
{
}

/// A torrent with an anchor has a place to download around, though no stream is open.
pub proof fn law_anchor_keeps_context(
    s: TorrentStreamsView,
    session: Seq<char>,
    file_id: usize,
    file_abs_offset: u64,
    position: u64,
    file_len: u64,
    after: TorrentStreamsView,
)
    requires
        s.anchor_set(session, file_id, file_abs_offset, position, file_len, after),
    ensures
        after.anchors.dom() != Set::<Seq<char>>::empty(),
{
    assert(after.anchors.dom().contains(session));
}

proof fn lemma_filter_origin<A>(s: Seq<A>, keep: spec_fn(A) -> bool, x: A)
    ensures
        s.filter(keep).contains(x) <==> s.contains(x) && keep(x),
    decreases s.len(),
{
    reveal(Seq::filter);
    if s.len() > 0 {
        let part = s.drop_last();
        lemma_filter_origin(part, keep, x);
        assert(s =~= part.push(s.last()));
        vstd::seq_lib::lemma_seq_contains_after_push(part, s.last(), x);
        vstd::seq_lib::lemma_seq_contains_after_push(part.filter(keep), s.last(), x);
    }
}

/// The priority pieces that come first are those that some stream asks for with priority,
/// each once.
pub proof fn law_priority_pieces_of_all_streams(
    w: Seq<(usize, StreamView)>,
    m: Map<usize, StreamView>,
    x: u32,
)
    requires
        is_walk(w, m),
    ensures
        priority_pieces(w).no_duplicates(),
        priority_pieces(w).contains(x) <==> exists|id: usize| #[trigger]
            m.contains_key(id) && m[id].priority().contains(x),
{
    let queues = priority_queues(w);
    let keep = |e: (usize, StreamView)| e.1.priority_pieces is Some;
    law_priority_pieces_come_once(queues);
    if priority_pieces(w).contains(x) {
        let k = choose|k: int| 0 <= k < queues.len() && #[trigger] queues[k].contains(x);
        let e = w.filter(keep)[k];
        lemma_filter_origin(w, keep, e);
        assert(w.filter(keep).contains(e));
        let i = choose|i: int| 0 <= i < w.len() && w[i] == e;
        assert(m.contains_key(w[i].0) && m[w[i].0].priority().contains(x));
    }
    if exists|id: usize| #[trigger] m.contains_key(id) && m[id].priority().contains(x) {
        let id = choose|id: usize| #[trigger] m.contains_key(id) && m[id].priority().contains(x);
        let i = choose|i: int| 0 <= i < w.len() && (#[trigger] w[i]).0 == id;
        assert(w.contains(w[i]));
        lemma_filter_origin(w, keep, w[i]);
        let k = choose|k: int| 0 <= k < w.filter(keep).len() && w.filter(keep)[k] == w[i];
        assert(queues[k].contains(x));
    }
}

proof fn lemma_filter_distinct(
    w: Seq<(usize, StreamView)>,
    keep: spec_fn((usize, StreamView)) -> bool,
)
    requires
        forall|i: int, j: int|
            0 <= i < j < w.len() ==> (#[trigger] w[i]).0 != (#[trigger] w[j]).0,
    ensures
        forall|i: int, j: int|
            0 <= i < j < w.filter(keep).len() ==> (#[trigger] w.filter(keep)[i]).0 != (
            #[trigger] w.filter(keep)[j]).0,
    decreases w.len(),
{
    reveal(Seq::filter);
    if w.len() > 0 {
        let part = w.drop_last();
        lemma_filter_distinct(part, keep);
        let kept = part.filter(keep);
        assert forall|i: int| 0 <= i < kept.len() implies (#[trigger] kept[i]).0 != w.last().0 by {
            lemma_filter_origin(part, keep, kept[i]);
            assert(kept.contains(kept[i]));
            let n = choose|n: int| 0 <= n < part.len() && part[n] == kept[i];
            assert(w[n].0 != w[w.len() - 1].0);
        }
    }
}

/// The numbers of the streams of `w` that are active at the time `now`.
pub open spec fn active_ids(w: Seq<(usize, StreamView)>, now: u128) -> Seq<usize> {
    active(w, now).map_values(|e: (usize, StreamView)| e.0)
}

/// Where some stream is active, the queues that are taken from in turn are those of the
/// active streams, one for each, and of no other stream and no anchor.
pub proof fn law_active_streams_only(
    w: Seq<(usize, StreamView)>,
    m: Map<usize, StreamView>,
    a: Seq<(Seq<char>, StreamingAnchor)>,
    now: u128,
    l: Lengths,
)
    requires
        is_walk(w, m),
        exists|id: usize| #[trigger]
            m.contains_key(id) && idle_secs(now, m[id].last_activity) < ACTIVE_SECS,
    ensures
        active_ids(w, now).no_duplicates(),
        forall|id: usize| #[trigger]
            active_ids(w, now).contains(id) <==> m.contains_key(id) && idle_secs(
                now,
                m[id].last_activity,
            ) < ACTIVE_SECS,
        normal_queues(w, a, now, l) == active_ids(w, now).map_values(
            |id: usize| m[id].queue(l),
        ),
{
    let keep = |e: (usize, StreamView)| idle_secs(now, e.1.last_activity) < ACTIVE_SECS;
    let on = active(w, now);
    let ids = active_ids(w, now);
    lemma_filter_distinct(w, keep);
    assert forall|id: usize| #[trigger] ids.contains(id) <==> m.contains_key(id) && idle_secs(
        now,
        m[id].last_activity,
    ) < ACTIVE_SECS by {
        if ids.contains(id) {
            let k = choose|k: int| 0 <= k < ids.len() && ids[k] == id;
            lemma_filter_origin(w, keep, on[k]);
            assert(on.contains(on[k]));
            let i = choose|i: int| 0 <= i < w.len() && w[i] == on[k];
            assert(m.contains_key(w[i].0));
        }
        if m.contains_key(id) && idle_secs(now, m[id].last_activity) < ACTIVE_SECS {
            let i = choose|i: int| 0 <= i < w.len() && (#[trigger] w[i]).0 == id;
            assert(w.contains(w[i]));
            lemma_filter_origin(w, keep, w[i]);
            let k = choose|k: int| 0 <= k < on.len() && on[k] == w[i];
            assert(ids[k] == id);
        }
    }
    let some = choose|id: usize| #[trigger]
        m.contains_key(id) && idle_secs(now, m[id].last_activity) < ACTIVE_SECS;
    assert(ids.contains(some));
    assert(on.len() > 0);
    let by_id = ids.map_values(|id: usize| m[id].queue(l));
    assert forall|k: int| 0 <= k < on.len() implies stream_queues(on, l)[k] == by_id[k] by {
        lemma_filter_origin(w, keep, on[k]);
        assert(on.contains(on[k]));
        let i = choose|i: int| 0 <= i < w.len() && w[i] == on[k];
        assert(m.contains_key(w[i].0));
    }
    assert(normal_queues(w, a, now, l) =~= by_id);
}

proof fn lemma_least_idle(w: Seq<(usize, StreamView)>, now: u128)
    requires
        w.len() > 0,
    ensures
        w.contains(least_idle(w, now)),
        forall|i: int|
            0 <= i < w.len() ==> idle_secs(now, least_idle(w, now).1.last_activity) <= idle_secs(
                now,
                (#[trigger] w[i]).1.last_activity,
            ),
    decreases w.len(),
{
    if w.len() == 1 {
        assert(w[0] == least_idle(w, now));
    } else {
        let rest = w.drop_last();
        lemma_least_idle(rest, now);
        let i = choose|i: int| 0 <= i < rest.len() && rest[i] == least_idle(rest, now);
        assert(w[i] == least_idle(rest, now));
        assert(w[w.len() - 1] == w.last());
        assert forall|i: int| 0 <= i < w.len() implies idle_secs(
            now,
            least_idle(w, now).1.last_activity,
        ) <= idle_secs(now, (#[trigger] w[i]).1.last_activity) by {
            if i < rest.len() {
                assert(rest[i] == w[i]);
            }
        }
    }
}

/// Where no stream is active but some were lately, one queue is taken from: that of a
/// stream that was idle no longer than any other.
pub proof fn law_last_active_stream_only(
    w: Seq<(usize, StreamView)>,
    m: Map<usize, StreamView>,
    a: Seq<(Seq<char>, StreamingAnchor)>,
    now: u128,
    l: Lengths,
)
    requires
        is_walk(w, m),
        forall|id: usize| #[trigger]
            m.contains_key(id) ==> idle_secs(now, m[id].last_activity) >= ACTIVE_SECS,
        exists|id: usize| #[trigger]
            m.contains_key(id) && idle_secs(now, m[id].last_activity) < RECENT_SECS,
    ensures
        exists|id: usize| #[trigger]
            m.contains_key(id) && normal_queues(w, a, now, l) == seq![m[id].queue(l)]
                && idle_secs(now, m[id].last_activity) < RECENT_SECS && forall|other: usize|
                #[trigger]
                m.contains_key(other) ==> idle_secs(now, m[id].last_activity) <= idle_secs(
                    now,
                    m[other].last_activity,
                ),
{
    let on_keep = |e: (usize, StreamView)| idle_secs(now, e.1.last_activity) < ACTIVE_SECS;
    let keep = |e: (usize, StreamView)| idle_secs(now, e.1.last_activity) < RECENT_SECS;
    let on = active(w, now);
    if on.len() > 0 {
        lemma_filter_origin(w, on_keep, on[0]);
        assert(on.contains(on[0]));
        let i = choose|i: int| 0 <= i < w.len() && w[i] == on[0];
        assert(m.contains_key(w[i].0));
    }
    let late = recent(w, now);
    let some = choose|id: usize| #[trigger]
        m.contains_key(id) && idle_secs(now, m[id].last_activity) < RECENT_SECS;
    let n = choose|i: int| 0 <= i < w.len() && (#[trigger] w[i]).0 == some;
    assert(w.contains(w[n]));
    lemma_filter_origin(w, keep, w[n]);
    assert(late.contains(w[n]));
    lemma_least_idle(late, now);
    let e = least_idle(late, now);
    lemma_filter_origin(w, keep, e);
    let i = choose|i: int| 0 <= i < w.len() && w[i] == e;
    let id = w[i].0;
    assert(m.contains_key(id));
    assert(m[id].queue(l) == e.1.queue(l));
    assert forall|other: usize| #[trigger] m.contains_key(other) implies idle_secs(
        now,
        m[id].last_activity,
    ) <= idle_secs(now, m[other].last_activity) by {
        let j = choose|j: int| 0 <= j < w.len() && (#[trigger] w[j]).0 == other;
        if idle_secs(now, m[other].last_activity) < RECENT_SECS {
            assert(w.contains(w[j]));
            lemma_filter_origin(w, keep, w[j]);
            let k = choose|k: int| 0 <= k < late.len() && late[k] == w[j];
            assert(idle_secs(now, e.1.last_activity) <= idle_secs(now, late[k].1.last_activity));
        }
    }
}

/// The sessions whose anchors `a` lists.
pub open spec fn sessions(a: Seq<(Seq<char>, StreamingAnchor)>) -> Seq<Seq<char>> {
    a.map_values(|e: (Seq<char>, StreamingAnchor)| e.0)
}

/// Where no stream was active lately, the anchors stand in: the queues that are taken from
/// in turn are theirs, one for each session, and no other.
pub proof fn law_anchors_stand_in(
    w: Seq<(usize, StreamView)>,
    m: Map<usize, StreamView>,
    a: Seq<(Seq<char>, StreamingAnchor)>,
    anchors: Map<Seq<char>, StreamingAnchor>,
    now: u128,
    l: Lengths,
)
    requires
        is_walk(w, m),
        is_anchor_walk(a, anchors),
        forall|id: usize| #[trigger]
            m.contains_key(id) ==> idle_secs(now, m[id].last_activity) >= RECENT_SECS,
    ensures
        sessions(a).no_duplicates(),
        forall|name: Seq<char>| #[trigger]
            sessions(a).contains(name) <==> anchors.contains_key(name),
        normal_queues(w, a, now, l) == sessions(a).map_values(
            |name: Seq<char>| anchors[name].queue(l),
        ),
{
    let on_keep = |e: (usize, StreamView)| idle_secs(now, e.1.last_activity) < ACTIVE_SECS;
    let keep = |e: (usize, StreamView)| idle_secs(now, e.1.last_activity) < RECENT_SECS;
    let on = active(w, now);
    if on.len() > 0 {
        lemma_filter_origin(w, on_keep, on[0]);
        assert(on.contains(on[0]));
        let i = choose|i: int| 0 <= i < w.len() && w[i] == on[0];
        assert(m.contains_key(w[i].0));
    }
    let late = recent(w, now);
    if late.len() > 0 {
        lemma_filter_origin(w, keep, late[0]);
        assert(late.contains(late[0]));
        let i = choose|i: int| 0 <= i < w.len() && w[i] == late[0];
        assert(m.contains_key(w[i].0));
    }
    let names = sessions(a);
    assert forall|name: Seq<char>| #[trigger] names.contains(name) <==> anchors.contains_key(
        name,
    ) by {
        if names.contains(name) {
            let k = choose|k: int| 0 <= k < names.len() && names[k] == name;
            assert(anchors.contains_key(a[k].0));
        }
        if anchors.contains_key(name) {
            let k = choose|k: int| 0 <= k < a.len() && (#[trigger] a[k]).0 == name;
            assert(names[k] == name);
        }
    }
    assert forall|i: int, j: int| 0 <= i < names.len() && 0 <= j < names.len() && i
        != j implies names[i] != names[j] by {
        if i < j {
            assert(a[i].0 != a[j].0);
        } else {
            assert(a[j].0 != a[i].0);
        }
    }
    assert(anchor_queues(a, l) =~= names.map_values(|name: Seq<char>| anchors[name].queue(l)));
}

/// A torrent without streams and anchors asks for nothing here.
pub proof fn law_no_context_no_pieces(
    s: TorrentStreamsView,
    w: Seq<(usize, StreamView)>,
    a: Seq<(Seq<char>, StreamingAnchor)>,
    now: u128,
    order: Seq<Seq<u32>>,
    l: Lengths,
)
    requires
        s.streams.dom() == Set::<usize>::empty(),
        s.anchors.dom() == Set::<Seq<char>>::empty(),
        is_walk(w, s.streams),
        is_anchor_walk(a, s.anchors),
        is_shuffle(order, normal_queues(w, a, now, l)),
    ensures
        priority_pieces(w) + round_robin(order) == Seq::<u32>::empty(),
{
    if w.len() > 0 {
        assert(s.streams.contains_key(w[0].0));
    }
    if a.len() > 0 {
        assert(s.anchors.contains_key(a[0].0));
    }
    reveal(Seq::filter);
    assert(priority_queues(w) =~= Seq::<Seq<u32>>::empty());
    assert(order =~= Seq::<Seq<u32>>::empty());
    assert(round_robin(Seq::<Seq<u32>>::empty()) =~= Seq::<u32>::empty());
    assert(first_occurrences(Seq::<u32>::empty()) =~= Seq::<u32>::empty());
    assert(priority_pieces(w) + round_robin(order) =~= Seq::<u32>::empty());
}

proof fn lemma_items_without(queues: Seq<Seq<u32>>, k: int)
    requires
        0 <= k < queues.len(),
    ensures
        all_items(queues) == all_items(queues.remove(k)).add(queues[k].to_multiset()),
    decreases queues.len(),
{
    let part = queues.drop_last();
    if k == queues.len() - 1 {
        assert(queues.remove(k) =~= part);
    } else {
        lemma_items_without(part, k);
        assert(queues.remove(k).drop_last() =~= part.remove(k));
        assert(all_items(queues) =~= all_items(queues.remove(k)).add(queues[k].to_multiset()));
    }
}

proof fn lemma_items_permuted(order: Seq<Seq<u32>>, queues: Seq<Seq<u32>>, p: Seq<int>)
    requires
        is_permutation(p, queues.len()),
        order.len() == queues.len(),
        forall|i: int| 0 <= i < order.len() ==> #[trigger] order[i] == queues[p[i]],
    ensures
        all_items(order) == all_items(queues),
    decreases queues.len(),
{
    if queues.len() > 0 {
        let k = p.last();
        let fewer = queues.remove(k);
        let q = Seq::new(
            (p.len() - 1) as nat,
            |i: int|
                if p[i] < k {
                    p[i]
                } else {
                    p[i] - 1
                },
        );
        assert(0 <= p[p.len() - 1] < queues.len());
        assert(is_permutation(q, fewer.len())) by {
            assert forall|i: int| 0 <= i < fewer.len() implies 0 <= #[trigger] q[i]
                < fewer.len() by {
                assert(0 <= p[i] < queues.len() && p[i] != p[p.len() - 1]);
            }
            assert forall|i: int, j: int|
                0 <= i < q.len() && 0 <= j < q.len() && i != j implies q[i] != q[j] by {
                assert(p[i] != p[j] && p[i] != p[p.len() - 1] && p[j] != p[p.len() - 1]);
            }
        }
        let rest = order.drop_last();
        assert forall|i: int| 0 <= i < rest.len() implies #[trigger] rest[i] == fewer[q[i]] by {
            assert(order[i] == queues[p[i]]);
            assert(p[i] != p[p.len() - 1]);
        }
        lemma_items_permuted(rest, fewer, q);
        lemma_items_without(queues, k);
        assert(order.last() == queues[p[order.len() - 1]]);
    }
}

/// Whatever order the queues are brought into, the same pieces come out of them, each as
/// often.
pub proof fn law_order_does_not_matter(order: Seq<Seq<u32>>, queues: Seq<Seq<u32>>)
    requires
        is_shuffle(order, queues),
    ensures
        round_robin(order).to_multiset() == round_robin(queues).to_multiset(),
{
    law_round_robin_keeps_items(order);
    law_round_robin_keeps_items(queues);
    let p = choose|p: Seq<int>| #[trigger]
        is_permutation(p, queues.len()) && order.len() == queues.len() && forall|i: int|
            0 <= i < order.len() ==> #[trigger] order[i] == queues[p[i]];
    lemma_items_permuted(order, queues, p);
}

proof fn lemma_permutation_hits(p: Seq<int>, n: nat, k: int)
    requires
        is_permutation(p, n),
        0 <= k < n,
    ensures
        exists|i: int| 0 <= i < n && p[i] == k,
{
    let all = vstd::set_lib::set_int_range(0, n as int);
    vstd::set_lib::lemma_int_range(0, n as int);
    p.unique_seq_to_set();
    assert(p.to_set().subset_of(all));
    vstd::set_lib::lemma_subset_equality(p.to_set(), all);
    assert(p.to_set().contains(k));
    assert(p.contains(k));
}

/// A reader inside its file looks ahead to the piece that it is in first, and from there
/// on without a gap. Only pieces that exist are asked for.
pub proof fn law_lookahead_starts_at_reader(
    file_abs_offset: int,
    position: int,
    file_len: int,
    l: Lengths,
    k: int,
)
    requires
        l.wf(),
        0 <= file_abs_offset,
        0 <= position < file_len,
        file_abs_offset + file_len <= l.total(),
    ensures
        ({
            let q = lookahead(file_abs_offset, position, file_len, l);
            &&& q.len() > 0
            &&& l.piece_at(position, file_abs_offset) matches Some((id, _)) && q[0] == id
            &&& 0 <= k < q.len() ==> q[k] == q[0] + k && q[k] < l.count()
        }),
{
    let start = file_abs_offset + position;
    let end = least(start + PER_STREAM_BUF_DEFAULT, file_abs_offset + file_len);
    let p = l.piece();
    lemma_byte_has_piece(l, start);
    assert(start + 1 <= end);
    lemma_div_is_ordered(start + p, end + p - 1, p);
    assert((start + p) / p == start / p + 1) by (nonlinear_arith)
        requires
            p > 0,
    ;
    assert(div_up(end, p) > start / p);
}

/// Behind the priority pieces only pieces that exist are asked for.
pub proof fn law_only_existing_pieces(
    w: Seq<(usize, StreamView)>,
    a: Seq<(Seq<char>, StreamingAnchor)>,
    now: u128,
    order: Seq<Seq<u32>>,
    l: Lengths,
    x: u32,
)
    requires
        l.wf(),
        is_shuffle(order, normal_queues(w, a, now, l)),
        round_robin(order).contains(x),
    ensures
        x < l.count(),
{
    let queues = normal_queues(w, a, now, l);
    law_order_does_not_matter(order, queues);
    to_multiset_contains(round_robin(order), x);
    to_multiset_contains(round_robin(queues), x);
    law_round_robin_keeps_items(queues);
    let k = choose|k: int| 0 <= k < queues.len() && #[trigger] queues[k].contains(x);
    if active(w, now).len() > 0 {
        let s = active(w, now)[k].1;
        lemma_lookahead_exists(s.file_abs_offset, s.position, s.file_len, l, x);
    } else if recent(w, now).len() > 0 {
        let s = least_idle(recent(w, now), now).1;
        lemma_lookahead_exists(s.file_abs_offset, s.position, s.file_len, l, x);
    } else {
        let s = a[k].1;
        lemma_lookahead_exists(s.file_abs_offset, s.position, s.file_len, l, x);
    }
}

proof fn lemma_lookahead_exists(
    file_abs_offset: u64,
    position: u64,
    file_len: u64,
    l: Lengths,
    x: u32,
)
    requires
        l.wf(),
        lookahead(file_abs_offset as int, position as int, file_len as int, l).contains(x),
    ensures
        x < l.count(),
{
    let start = file_abs_offset + position;
    let p = l.piece();
    assert(start / p >= 0) by (nonlinear_arith)
        requires
            start >= 0,
            p > 0,
    ;
}

/// The piece that an active reader needs is asked for at once: behind the priority pieces
/// it comes among the first pieces, of which there are at most as many as queues.
pub proof fn law_needed_piece_comes_first(
    f: FileStreamView,
    s: TorrentStreamsView,
    piece: int,
    w: Seq<(usize, StreamView)>,
    a: Seq<(Seq<char>, StreamingAnchor)>,
    now: u128,
    order: Seq<Seq<u32>>,
)
    requires
        f.wf(),
        in_step(f, s),
        f.current_piece() == Some(piece),
        idle_secs(now, s.streams[f.stream_id].last_activity) < ACTIVE_SECS,
        is_walk(w, s.streams),
        is_shuffle(order, normal_queues(w, a, now, f.lengths)),
    ensures
        exists|p: int|
            0 <= p < order.len() && p < round_robin(order).len() && #[trigger] round_robin(
                order,
            )[p] == piece,
{
    let l = f.lengths;
    let queues = normal_queues(w, a, now, l);
    let q = s.streams[f.stream_id].queue(l);
    assert(s.streams.contains_key(f.stream_id));
    law_active_streams_only(w, s.streams, a, now, l);
    let ids = active_ids(w, now);
    assert(ids.contains(f.stream_id));
    law_lookahead_starts_at_reader(
        f.file_torrent_abs_offset as int,
        f.position as int,
        f.file_len as int,
        l,
        0,
    );
    let k = choose|k: int| 0 <= k < ids.len() && ids[k] == f.stream_id;
    assert(queues[k] == q);
    let order_of = choose|p: Seq<int>| #[trigger]
        is_permutation(p, queues.len()) && order.len() == queues.len() && forall|i: int|
            0 <= i < order.len() ==> #[trigger] order[i] == queues[p[i]];
    lemma_permutation_hits(order_of, queues.len(), k);
    let i = choose|i: int| 0 <= i < queues.len() && order_of[i] == k;
    assert(order[i] == q);
    law_first_pieces_come_first(order, i);
}

/// The idle time is counted in whole seconds, and never falls as time goes on.
pub proof fn law_idle_time_is_the_seconds_passed(now: u128, last: u128, later: u128)
    ensures
        last <= now ==> idle_secs(now, last) * 1_000_000_000 <= now - last < (idle_secs(now, last)
            + 1) * 1_000_000_000,
        last > now ==> idle_secs(now, last) == 0,
        now <= later ==> idle_secs(now, last) <= idle_secs(later, last),
{
}

/// Where a stream was read from or waited on in the last two seconds, the queues are those
/// of just these streams, one for each. A time in the future counts as now.
pub proof fn law_two_seconds_make_active(
    w: Seq<(usize, StreamView)>,
    m: Map<usize, StreamView>,
    a: Seq<(Seq<char>, StreamingAnchor)>,
    now: u128,
    l: Lengths,
)
    requires
        is_walk(w, m),
        exists|id: usize| #[trigger]
            m.contains_key(id) && now - m[id].last_activity < 2_000_000_000,
    ensures
        exists|ids: Seq<usize>| #[trigger]
            ids.no_duplicates() && normal_queues(w, a, now, l).len() == ids.len() && (forall|
                id: usize,
            |
                ids.contains(id) <==> #[trigger] m.contains_key(id) && now - m[id].last_activity
                    < 2_000_000_000) && forall|k: int|
                0 <= k < ids.len() ==> #[trigger] normal_queues(w, a, now, l)[k]
                    == m[ids[k]].queue(l),
{
    let some = choose|id: usize| #[trigger]
        m.contains_key(id) && now - m[id].last_activity < 2_000_000_000;
    assert(m.contains_key(some) && idle_secs(now, m[some].last_activity) < ACTIVE_SECS);
    law_active_streams_only(w, m, a, now, l);
    let ids = active_ids(w, now);
    assert forall|id: usize| ids.contains(id) <==> #[trigger] m.contains_key(id) && now
        - m[id].last_activity < 2_000_000_000 by {
        assert(ids.contains(id) <==> m.contains_key(id) && idle_secs(now, m[id].last_activity)
            < ACTIVE_SECS);
    }
    assert(ids.no_duplicates());
}

/// A stream that was idle for 30 seconds or more counts for nothing: the queues are the
/// same without it.
pub proof fn law_abandoned_stream_counts_for_nothing(
    before: Seq<(usize, StreamView)>,
    e: (usize, StreamView),
    after: Seq<(usize, StreamView)>,
    a: Seq<(Seq<char>, StreamingAnchor)>,
    now: u128,
    l: Lengths,
)
    requires
        now - e.1.last_activity >= 30_000_000_000,
    ensures
        normal_queues(before + seq![e] + after, a, now, l) == normal_queues(
            before + after,
            a,
            now,
            l,
        ),
{
    lemma_filter_without(
        before,
        e,
        after,
        |e: (usize, StreamView)| idle_secs(now, e.1.last_activity) < ACTIVE_SECS,
    );
    lemma_filter_without(
        before,
        e,
        after,
        |e: (usize, StreamView)| idle_secs(now, e.1.last_activity) < RECENT_SECS,
    );
}

/// Beside an active stream, one that was idle for two seconds or more counts for nothing.
pub proof fn law_idle_stream_yields_to_active(
    before: Seq<(usize, StreamView)>,
    e: (usize, StreamView),
    after: Seq<(usize, StreamView)>,
    a: Seq<(Seq<char>, StreamingAnchor)>,
    now: u128,
    l: Lengths,
    k: int,
)
    requires
        now - e.1.last_activity >= 2_000_000_000,
        0 <= k < (before + after).len(),
        now - (before + after)[k].1.last_activity < 2_000_000_000,
    ensures
        normal_queues(before + seq![e] + after, a, now, l) == normal_queues(
            before + after,
            a,
            now,
            l,
        ),
{
    let keep = |e: (usize, StreamView)| idle_secs(now, e.1.last_activity) < ACTIVE_SECS;
    lemma_filter_without(before, e, after, keep);
    let w = before + after;
    lemma_filter_origin(w, keep, w[k]);
    assert(w.contains(w[k]));
    assert(active(w, now).contains(w[k]));
}

proof fn lemma_filter_without<A>(before: Seq<A>, e: A, after: Seq<A>, keep: spec_fn(A) -> bool)
    requires
        !keep(e),
    ensures
        (before + seq![e] + after).filter(keep) == (before + after).filter(keep),
    decreases after.len(),
{
    reveal(Seq::filter);
    let with = before + seq![e] + after;
    let without = before + after;
    if after.len() == 0 {
        assert(with.drop_last() =~= before);
        assert(without =~= before);
    } else {
        lemma_filter_without(before, e, after.drop_last(), keep);
        assert(with.drop_last() =~= before + seq![e] + after.drop_last());
        assert(without.drop_last() =~= before + after.drop_last());
        assert(with.last() == without.last());
    }
}

proof fn lemma_filter_all<A>(s: Seq<A>, keep: spec_fn(A) -> bool)
    requires
        forall|i: int| 0 <= i < s.len() ==> keep(#[trigger] s[i]),
    ensures
        s.filter(keep) == s,
    decreases s.len(),
{
    reveal(Seq::filter);
    if s.len() > 0 {
        lemma_filter_all(s.drop_last(), keep);
        assert(keep(s[s.len() - 1]));
        assert(s =~= s.drop_last().push(s.last()));
    }
}

proof fn lemma_least_idle_is_first(w: Seq<(usize, StreamView)>, now: u128) -> (i: int)
    requires
        w.len() > 0,
    ensures
        0 <= i < w.len(),
        least_idle(w, now) == w[i],
        forall|j: int|
            0 <= j < i ==> idle_secs(now, (#[trigger] w[j]).1.last_activity) > idle_secs(
                now,
                w[i].1.last_activity,
            ),
        forall|j: int|
            i < j < w.len() ==> idle_secs(now, (#[trigger] w[j]).1.last_activity) >= idle_secs(
                now,
                w[i].1.last_activity,
            ),
    decreases w.len(),
{
    if w.len() == 1 {
        0
    } else {
        let part = w.drop_last();
        let i = lemma_least_idle_is_first(part, now);
        assert forall|j: int| 0 <= j < part.len() implies w[j] == #[trigger] part[j] by {}
        assert(w[i] == part[i]);
        if idle_secs(now, w.last().1.last_activity) < idle_secs(now, part[i].1.last_activity) {
            assert forall|j: int| 0 <= j < w.len() - 1 implies idle_secs(
                now,
                (#[trigger] w[j]).1.last_activity,
            ) > idle_secs(now, w.last().1.last_activity) by {
                assert(w[j] == part[j]);
            }
            w.len() - 1
        } else {
            assert forall|j: int| 0 <= j < i implies idle_secs(
                now,
                (#[trigger] w[j]).1.last_activity,
            ) > idle_secs(now, w[i].1.last_activity) by {
                assert(w[j] == part[j]);
            }
            assert forall|j: int| i < j < w.len() implies idle_secs(
                now,
                (#[trigger] w[j]).1.last_activity,
            ) >= idle_secs(now, w[i].1.last_activity) by {
                if j < part.len() {
                    assert(w[j] == part[j]);
                }
            }
            i
        }
    }
}

/// Where all streams are idle for two seconds or more, but less than 30, the queue of one
/// is taken: the first of those that were idle for the fewest whole seconds.
pub proof fn law_freshest_stream_stands_in(
    w: Seq<(usize, StreamView)>,
    a: Seq<(Seq<char>, StreamingAnchor)>,
    now: u128,
    l: Lengths,
)
    requires
        w.len() > 0,
        forall|k: int|
            0 <= k < w.len() ==> 2_000_000_000 <= now - (#[trigger] w[k]).1.last_activity
                < 30_000_000_000,
    ensures
        exists|i: int|
            0 <= i < w.len() && normal_queues(w, a, now, l) == seq![(#[trigger] w[i]).1.queue(l)]
                && (forall|j: int|
                0 <= j < i ==> (now - (#[trigger] w[j]).1.last_activity) / 1_000_000_000 > (now
                    - w[i].1.last_activity) / 1_000_000_000) && forall|j: int|
                i < j < w.len() ==> (now - (#[trigger] w[j]).1.last_activity) / 1_000_000_000
                    >= (now - w[i].1.last_activity) / 1_000_000_000,
{
    let on = |e: (usize, StreamView)| idle_secs(now, e.1.last_activity) < ACTIVE_SECS;
    let late = |e: (usize, StreamView)| idle_secs(now, e.1.last_activity) < RECENT_SECS;
    if active(w, now).len() > 0 {
        let e = active(w, now)[0];
        lemma_filter_origin(w, on, e);
        assert(active(w, now).contains(e));
        let i = choose|i: int| 0 <= i < w.len() && w[i] == e;
        assert(now - w[i].1.last_activity >= 2_000_000_000);
    }
    assert forall|i: int| 0 <= i < w.len() implies late(#[trigger] w[i]) by {
        assert(now - w[i].1.last_activity < 30_000_000_000);
    }
    lemma_filter_all(w, late);
    let i = lemma_least_idle_is_first(w, now);
    assert(normal_queues(w, a, now, l) == seq![w[i].1.queue(l)]);
    assert(now - w[i].1.last_activity >= 2_000_000_000);
    assert forall|j: int| 0 <= j < w.len() implies idle_secs(now, (#[trigger] w[j]).1.last_activity)
        == (now - w[j].1.last_activity) / 1_000_000_000 by {
        assert(now - w[j].1.last_activity >= 2_000_000_000);
    }
}

/// Where every stream is idle for 30 seconds or more, the queues are those of the anchors,
/// one for each session.
pub proof fn law_anchors_after_thirty_seconds(
    w: Seq<(usize, StreamView)>,
    m: Map<usize, StreamView>,
    a: Seq<(Seq<char>, StreamingAnchor)>,
    anchors: Map<Seq<char>, StreamingAnchor>,
    now: u128,
    l: Lengths,
)
    requires
        is_walk(w, m),
        is_anchor_walk(a, anchors),
        forall|id: usize| #[trigger]
            m.contains_key(id) ==> now - m[id].last_activity >= 30_000_000_000,
    ensures
        exists|names: Seq<Seq<char>>| #[trigger]
            names.no_duplicates() && normal_queues(w, a, now, l).len() == names.len() && (forall|
                name: Seq<char>,
            |
                names.contains(name) <==> #[trigger] anchors.contains_key(name)) && forall|k: int|
                0 <= k < names.len() ==> #[trigger] normal_queues(w, a, now, l)[k]
                    == anchors[names[k]].queue(l),
{
    assert forall|id: usize| #[trigger] m.contains_key(id) implies idle_secs(
        now,
        m[id].last_activity,
    ) >= RECENT_SECS by {
        assert(now - m[id].last_activity >= 30_000_000_000);
    }
    law_anchors_stand_in(w, m, a, anchors, now, l);
    let names = sessions(a);
    assert forall|name: Seq<char>| names.contains(name) <==> #[trigger] anchors.contains_key(
        name,
    ) by {
        assert(sessions(a).contains(name) <==> anchors.contains_key(name));
    }
    assert(names.no_duplicates());
}

/// An anchor looks ahead from its position in its file, as a stream does.
pub proof fn law_anchor_looks_ahead(anchor: StreamingAnchor, l: Lengths, x: u32, k: int)
    requires
        l.wf(),
    ensures
        anchor.queue(l).contains(x) <==> {
            &&& (x + 1) * l.piece() > anchor.file_abs_offset + anchor.position
            &&& x * l.piece() < anchor.file_abs_offset + anchor.position + 536_870_912
            &&& x * l.piece() < anchor.file_abs_offset + anchor.file_len
            &&& x * l.piece() < l.total()
        },
        0 <= k < anchor.queue(l).len() - 1 ==> anchor.queue(l)[k + 1] == anchor.queue(l)[k] + 1,
{
    law_lookahead_is_the_next_bytes(
        anchor.file_abs_offset as int,
        anchor.position as int,
        anchor.file_len as int,
        l,
        x,
        k,
    );
}

/// The priority lists are those of the streams that have one, in the order of the walk.
/// The priority pieces are taken from these lists in turn, each once; and, in a plain
/// list, one stream's after the other's.
pub proof fn law_priority_comes_from_each_stream(
    w: Seq<(usize, StreamView)>,
    e: (usize, StreamView),
)
    ensures
        priority_queues(Seq::<(usize, StreamView)>::empty()) == Seq::<Seq<u32>>::empty(),
        priority_queues(w.push(e)) == (match e.1.priority_pieces {
            Some(p) => priority_queues(w).push(p),
            None => priority_queues(w),
        }),
        priority_pieces(w) == first_occurrences(round_robin(priority_queues(w))),
        all_priority(Seq::<(usize, StreamView)>::empty()) == Seq::<u32>::empty(),
        all_priority(w.push(e)) == (match e.1.priority_pieces {
            Some(p) => all_priority(w) + p,
            None => all_priority(w),
        }),
{
    reveal(Seq::filter);
    assert(w.push(e).drop_last() =~= w);
    assert(priority_queues(Seq::<(usize, StreamView)>::empty()) =~= Seq::<Seq<u32>>::empty());
    assert(priority_queues(w.push(e)) =~= (match e.1.priority_pieces {
        Some(p) => priority_queues(w).push(p),
        None => priority_queues(w),
    }));
    assert(all_priority(w.push(e)) =~= (match e.1.priority_pieces {
        Some(p) => all_priority(w) + p,
        None => all_priority(w),
    }));
}

/// A walk lists every stream once and no other, with all that it says but the waker; a walk
/// of anchors lists every anchor once and no other. Lists are read one by one.
pub proof fn law_walk_lists_all(
    w: Seq<(usize, StreamView)>,
    m: Map<usize, StreamView>,
    a: Seq<(Seq<char>, StreamingAnchor)>,
    anchors: Map<Seq<char>, StreamingAnchor>,
    i: int,
    j: int,
    id: usize,
    name: Seq<char>,
)
    requires
        is_walk(w, m),
        is_anchor_walk(a, anchors),
    ensures
        0 <= i < j < w.len() ==> w[i].0 != w[j].0,
        0 <= i < w.len() ==> {
            let s = m[w[i].0];
            let t = w[i].1;
            &&& m.contains_key(w[i].0)
            &&& t.file_id == s.file_id
            &&& t.file_len == s.file_len
            &&& t.file_abs_offset == s.file_abs_offset
            &&& t.position == s.position
            &&& t.priority_pieces == s.priority_pieces
            &&& t.last_activity == s.last_activity
        },
        m.contains_key(id) ==> exists|n: int| 0 <= n < w.len() && (#[trigger] w[n]).0 == id,
        0 <= i < j < a.len() ==> a[i].0 != a[j].0,
        0 <= i < a.len() ==> anchors.contains_key(a[i].0) && a[i].1 == anchors[a[i].0],
        anchors.contains_key(name) ==> exists|n: int|
            0 <= n < a.len() && (#[trigger] a[n]).0 == name,
{
}

/// Lists of streams and anchors are read one by one.
pub proof fn law_lists_are_read_one_by_one(
    streams: Seq<(usize, StreamState)>,
    anchors: Seq<(String, StreamingAnchor)>,
    k: int,
)
    ensures
        stream_walk(streams).len() == streams.len(),
        0 <= k < streams.len() ==> stream_walk(streams)[k] == (streams[k].0, streams[k].1@),
        anchor_walk(anchors).len() == anchors.len(),
        0 <= k < anchors.len() ==> anchor_walk(anchors)[k] == (anchors[k].0@, anchors[k].1),
{
}

/// What is done to one stream leaves the number of streams, every other stream, the
/// anchors, what was made known, the channel and the clock.
pub proof fn law_change_stays_with_its_stream(
    s: TorrentStreamsView,
    id: usize,
    state: StreamView,
    other: usize,
)
    ensures
        ({
            let t = s.with_stream(id, state);
            &&& t.streams.contains_key(other) <==> s.streams.contains_key(other)
            &&& s.streams.contains_key(id) ==> t.streams[id] == state
            &&& s.streams.contains_key(other) && other != id ==> t.streams[other]
                == s.streams[other]
            &&& t.next_stream_id == s.next_stream_id
            &&& t.anchors == s.anchors
            &&& t.completed == s.completed
            &&& t.channel == s.channel
            &&& t.notify_capacity == s.notify_capacity
            &&& t.clock == s.clock
        }),
{
}

/// A new stream is there under the next number, which is given out by it, and nothing else
/// changes. Numbers start anew after the largest.
pub proof fn law_new_stream_is_added(
    s: TorrentStreamsView,
    state: StreamView,
    other: usize,
)
    ensures
        ({
            let t = s.with_new_stream(state);
            &&& t.streams.contains_key(s.next_stream_id)
            &&& t.streams[s.next_stream_id] == state
            &&& other != s.next_stream_id ==> (t.streams.contains_key(other)
                <==> s.streams.contains_key(other))
            &&& other != s.next_stream_id && s.streams.contains_key(other)
                ==> t.streams[other] == s.streams[other]
            &&& t.next_stream_id == s.id_given().next_stream_id
            &&& s.next_stream_id < usize::MAX ==> t.next_stream_id == s.next_stream_id + 1
            &&& s.next_stream_id == usize::MAX ==> t.next_stream_id == 0
            &&& s.id_given().streams == s.streams
            &&& s.id_given().anchors == s.anchors
            &&& t.anchors == s.anchors
            &&& t.completed == s.completed
            &&& t.channel == s.channel
            &&& t.notify_capacity == s.notify_capacity
            &&& t.clock == s.clock
        }),
{
}

/// Removing a stream, or an anchor, takes just it away.
pub proof fn law_removal_takes_one_away(
    s: TorrentStreamsView,
    id: usize,
    session: Seq<char>,
    other: usize,
    other_session: Seq<char>,
)
    ensures
        ({
            let t = s.without_stream(id);
            &&& !t.streams.contains_key(id)
            &&& other != id ==> (t.streams.contains_key(other) <==> s.streams.contains_key(other))
            &&& other != id && s.streams.contains_key(other) ==> t.streams[other]
                == s.streams[other]
            &&& t.anchors == s.anchors
            &&& t.next_stream_id == s.next_stream_id
            &&& t.completed == s.completed
        }),
        ({
            let t = s.without_anchor(session);
            &&& !t.anchors.contains_key(session)
            &&& other_session != session ==> (t.anchors.contains_key(other_session)
                <==> s.anchors.contains_key(other_session))
            &&& other_session != session && s.anchors.contains_key(other_session)
                ==> t.anchors[other_session] == s.anchors[other_session]
            &&& t.streams == s.streams
            &&& t.next_stream_id == s.next_stream_id
            &&& t.completed == s.completed
        }),
{
}

/// An anchor is kept under its session as it was made, and nothing else changes.
pub proof fn law_anchor_is_kept_under_its_session(
    s: TorrentStreamsView,
    session: Seq<char>,
    other: Seq<char>,
    file_id: usize,
    file_abs_offset: u64,
    position: u64,
    file_len: u64,
    now: Instant,
)
    ensures
        ({
            let anchor = new_anchor(file_id, file_abs_offset, position, file_len, now);
            let t = s.with_anchor(session, anchor);
            &&& anchor.file_id == file_id
            &&& anchor.file_abs_offset == file_abs_offset
            &&& anchor.position == position
            &&& anchor.file_len == file_len
            &&& anchor.last_updated == now
            &&& t.anchors.contains_key(session)
            &&& t.anchors[session] == anchor
            &&& other != session ==> (t.anchors.contains_key(other) <==> s.anchors.contains_key(
                other,
            ))
            &&& other != session && s.anchors.contains_key(other) ==> t.anchors[other]
                == s.anchors[other]
            &&& t.streams == s.streams
            &&& t.next_stream_id == s.next_stream_id
            &&& t.completed == s.completed
        }),
{
}

/// A completed piece is made known. Those are woken that wait at a stream whose position
/// the piece spans, each by the waker that was left there, once, and nobody else. No stream
/// comes or goes.
pub proof fn law_completion_wakes_who_waits_there(
    s: TorrentStreamsView,
    piece: u32,
    l: Lengths,
    ids: Seq<usize>,
    id: usize,
    k: int,
)
    requires
        l.wf(),
        is_waiting_list(ids, s, piece as int, l),
    ensures
        ({
            let state = s.streams[id];
            let abs = state.file_abs_offset + state.position;
            let here = piece * l.piece() <= abs < (piece + 1) * l.piece() && piece * l.piece()
                < l.total() && abs <= l.total();
            let t = s.piece_completed(piece, l);
            &&& ids.no_duplicates()
            &&& ids.contains(id) <==> s.streams.contains_key(id) && state.waker is Some && here
            &&& wakers_of(ids, s).len() == ids.len()
            &&& 0 <= k < ids.len() ==> s.streams[ids[k]].waker == Some(wakers_of(ids, s)[k])
            &&& t.completed == s.completed.push(piece)
            &&& t.streams.contains_key(id) <==> s.streams.contains_key(id)
            &&& s.streams.contains_key(id) && here ==> t.streams[id].waker is None
            &&& s.streams.contains_key(id) && !here ==> t.streams[id] == state
            &&& s.streams.contains_key(id) ==> t.streams[id].position == state.position
                && t.streams[id].last_activity == state.last_activity
                && t.streams[id].priority_pieces == state.priority_pieces
            &&& t.anchors == s.anchors
            &&& t.next_stream_id == s.next_stream_id
        }),
{
    let state = s.streams[id];
    law_current_piece_spans_position(state, l, piece as int);
    assert(ids.contains(id) <==> s.waits_for(id, piece as int, l));
    if 0 <= k < ids.len() {
        assert(ids.contains(ids[k]));
        assert(s.waits_for(ids[k], piece as int, l));
    }
}

/// A list in another order has the same items, each as often.
pub proof fn law_shuffle_keeps_items<A>(a: Seq<A>, b: Seq<A>)
    requires
        is_shuffle(a, b),
    ensures
        a.to_multiset() == b.to_multiset(),
{
    let p = choose|p: Seq<int>| #[trigger]
        is_permutation(p, b.len()) && a.len() == b.len() && forall|i: int|
            0 <= i < a.len() ==> #[trigger] a[i] == b[p[i]];
    lemma_permuted_multiset(a, b, p);
}

proof fn lemma_permuted_multiset<A>(a: Seq<A>, b: Seq<A>, p: Seq<int>)
    requires
        is_permutation(p, b.len()),
        a.len() == b.len(),
        forall|i: int| 0 <= i < a.len() ==> #[trigger] a[i] == b[p[i]],
    ensures
        a.to_multiset() == b.to_multiset(),
    decreases b.len(),
{
    broadcast use vstd::seq_lib::group_to_multiset_ensures;

    if b.len() == 0 {
        assert(a =~= b);
    } else {
        let k = p.last();
        let fewer = b.remove(k);
        let rest = a.drop_last();
        let q = Seq::new(
            (p.len() - 1) as nat,
            |i: int|
                if p[i] < k {
                    p[i]
                } else {
                    p[i] - 1
                },
        );
        assert(0 <= p[p.len() - 1] < b.len());
        assert(is_permutation(q, fewer.len())) by {
            assert forall|i: int| 0 <= i < fewer.len() implies 0 <= #[trigger] q[i]
                < fewer.len() by {
                assert(0 <= p[i] < b.len() && p[i] != p[p.len() - 1]);
            }
            assert forall|i: int, j: int|
                0 <= i < q.len() && 0 <= j < q.len() && i != j implies q[i] != q[j] by {
                assert(p[i] != p[j] && p[i] != p[p.len() - 1] && p[j] != p[p.len() - 1]);
            }
        }
        assert forall|i: int| 0 <= i < rest.len() implies #[trigger] rest[i] == fewer[q[i]] by {
            assert(a[i] == b[p[i]]);
            assert(p[i] != p[p.len() - 1]);
        }
        lemma_permuted_multiset(rest, fewer, q);
        assert(a[a.len() - 1] == b[p[a.len() - 1]]);
        assert(a =~= rest.push(b[k]));
        assert(b =~= fewer.insert(k, b[k]));
    }
}

/// A reader that moves is at the new position, active at the time that the clock shows, and
/// its window has moved with it. No other stream changes.
pub proof fn law_moved_reader_is_there(
    s: TorrentStreamsView,
    id: usize,
    position: u64,
    current: u32,
    l: Lengths,
    after: TorrentStreamsView,
    other: usize,
)
    requires
        s.reader_moved(id, position, current, l, after),
    ensures
        after.streams.contains_key(other) <==> s.streams.contains_key(other),
        s.streams.contains_key(other) && other != id ==> after.streams[other] == s.streams[other],
        s.streams.contains_key(id) ==> {
            let t = after.streams[id];
            &&& t.position == position
            &&& clock_shows(s.clock, t.last_activity)
            &&& t == s.streams[id].moved(position, current, l, t.last_activity)
        },
        after.anchors == s.anchors,
        after.completed == s.completed,
        after.next_stream_id == s.next_stream_id,
{
}

/// A waker that is left is at its stream, which is active at the time that the clock shows.
/// No other stream changes.
pub proof fn law_waker_is_at_its_stream(
    s: TorrentStreamsView,
    id: usize,
    waker: Waker,
    after: TorrentStreamsView,
    other: usize,
)
    requires
        s.waker_left(id, waker, after),
    ensures
        after.streams.contains_key(other) <==> s.streams.contains_key(other),
        s.streams.contains_key(other) && other != id ==> after.streams[other] == s.streams[other],
        s.streams.contains_key(id) ==> {
            let t = after.streams[id];
            &&& t.waker == Some(waker)
            &&& clock_shows(s.clock, t.last_activity)
            &&& t.position == s.streams[id].position
            &&& t.priority_pieces == s.streams[id].priority_pieces
        },
        after.anchors == s.anchors,
        after.completed == s.completed,
        after.next_stream_id == s.next_stream_id,
{
}

/// A stream that is opened is there under the next number, at the start of its file, active
/// at the time that the clock shows. No other stream changes.
pub proof fn law_opened_stream_is_there(
    s: TorrentStreamsView,
    file_id: usize,
    file_len: u64,
    file_abs_offset: u64,
    after: TorrentStreamsView,
    other: usize,
)
    requires
        s.stream_opened(file_id, file_len, file_abs_offset, after),
    ensures
        after.streams.contains_key(s.next_stream_id),
        other != s.next_stream_id ==> (after.streams.contains_key(other)
            <==> s.streams.contains_key(other)),
        other != s.next_stream_id && s.streams.contains_key(other) ==> after.streams[other]
            == s.streams[other],
        ({
            let t = after.streams[s.next_stream_id];
            &&& t.file_id == file_id
            &&& t.file_len == file_len
            &&& t.file_abs_offset == file_abs_offset
            &&& t.position == 0
            &&& t.waker is None
            &&& t.priority_pieces is None
            &&& t.priority_window_start is None
            &&& clock_shows(s.clock, t.last_activity)
        }),
        after.anchors == s.anchors,
        after.completed == s.completed,
{
}

/// An anchor that is set is there under its session, with the time that was read for it. No
/// other anchor and no stream changes.
pub proof fn law_anchor_is_where_it_was_set(
    s: TorrentStreamsView,
    session: Seq<char>,
    file_id: usize,
    file_abs_offset: u64,
    position: u64,
    file_len: u64,
    after: TorrentStreamsView,
)
    requires
        s.anchor_set(session, file_id, file_abs_offset, position, file_len, after),
    ensures
        after.anchors.contains_key(session),
        after.anchors[session].file_id == file_id,
        after.anchors[session].file_abs_offset == file_abs_offset,
        after.anchors[session].position == position,
        after.anchors[session].file_len == file_len,
        is_reading(after.anchors[session].last_updated),
        forall|other: Seq<char>|
            other != session ==> (#[trigger] after.anchors.contains_key(other)
                <==> s.anchors.contains_key(other)),
        forall|other: Seq<char>|
            other != session && #[trigger] s.anchors.contains_key(other)
                ==> after.anchors[other] == s.anchors[other],
        after.streams == s.streams,
        after.completed == s.completed,
        after.next_stream_id == s.next_stream_id,
{
}

/// The queue of one more active stream comes behind those of the active streams before it,
/// and stands alone where none of these is active.
pub proof fn law_active_queue_is_added(
    w: Seq<(usize, StreamView)>,
    e: (usize, StreamView),
    a: Seq<(Seq<char>, StreamingAnchor)>,
    now: u128,
    l: Lengths,
    k: int,
)
    requires
        now - e.1.last_activity < 2_000_000_000,
    ensures
        0 <= k < w.len() && now - w[k].1.last_activity < 2_000_000_000 ==> normal_queues(
            w.push(e),
            a,
            now,
            l,
        ) == normal_queues(w, a, now, l).push(e.1.queue(l)),
        (forall|i: int|
            0 <= i < w.len() ==> now - (#[trigger] w[i]).1.last_activity >= 2_000_000_000)
            ==> normal_queues(w.push(e), a, now, l) == seq![e.1.queue(l)],
{
    let keep = |e: (usize, StreamView)| idle_secs(now, e.1.last_activity) < ACTIVE_SECS;
    reveal(Seq::filter);
    assert(w.push(e).drop_last() =~= w);
    assert(keep(e));
    assert(active(w.push(e), now) == active(w, now).push(e));
    assert(stream_queues(active(w.push(e), now), l) =~= stream_queues(active(w, now), l).push(
        e.1.queue(l),
    ));
    if 0 <= k < w.len() && now - w[k].1.last_activity < 2_000_000_000 {
        lemma_filter_origin(w, keep, w[k]);
        assert(w.contains(w[k]));
        assert(active(w, now).contains(w[k]));
    }
    if forall|i: int| 0 <= i < w.len() ==> now - (#[trigger] w[i]).1.last_activity
        >= 2_000_000_000 {
        if active(w, now).len() > 0 {
            let on = active(w, now)[0];
            lemma_filter_origin(w, keep, on);
            assert(active(w, now).contains(on));
            let i = choose|i: int| 0 <= i < w.len() && w[i] == on;
            assert(now - w[i].1.last_activity >= 2_000_000_000);
        }
        assert(active(w, now) =~= Seq::<(usize, StreamView)>::empty());
        assert(stream_queues(active(w.push(e), now), l) =~= seq![e.1.queue(l)]);
    }
}

/// Where every stream is idle for 30 seconds or more, one more anchor adds its queue behind
/// those of the anchors before it, and without anchors there is none.
pub proof fn law_anchor_queue_is_added(
    w: Seq<(usize, StreamView)>,
    a: Seq<(Seq<char>, StreamingAnchor)>,
    e: (Seq<char>, StreamingAnchor),
    now: u128,
    l: Lengths,
)
    requires
        forall|i: int|
            0 <= i < w.len() ==> now - (#[trigger] w[i]).1.last_activity >= 30_000_000_000,
    ensures
        normal_queues(w, Seq::empty(), now, l) == Seq::<Seq<u32>>::empty(),
        normal_queues(w, a.push(e), now, l) == normal_queues(w, a, now, l).push(e.1.queue(l)),
{
    let on_keep = |e: (usize, StreamView)| idle_secs(now, e.1.last_activity) < ACTIVE_SECS;
    let keep = |e: (usize, StreamView)| idle_secs(now, e.1.last_activity) < RECENT_SECS;
    if active(w, now).len() > 0 {
        let on = active(w, now)[0];
        lemma_filter_origin(w, on_keep, on);
        assert(active(w, now).contains(on));
        let i = choose|i: int| 0 <= i < w.len() && w[i] == on;
        assert(now - w[i].1.last_activity >= 30_000_000_000);
    }
    if recent(w, now).len() > 0 {
        let late = recent(w, now)[0];
        lemma_filter_origin(w, keep, late);
        assert(recent(w, now).contains(late));
        let i = choose|i: int| 0 <= i < w.len() && w[i] == late;
        assert(now - w[i].1.last_activity >= 30_000_000_000);
    }
    assert(anchor_queues(a.push(e), l) =~= anchor_queues(a, l).push(e.1.queue(l)));
    assert(anchor_queues(Seq::empty(), l) =~= Seq::<Seq<u32>>::empty());
}

} // verus!
