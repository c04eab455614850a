//! What the library takes from other crates and from the standard library, with the
//! contracts that the proofs rest on.
use crate::lengths::ValidPieceIndex;
use crate::stream_state::{StreamState, StreamView};
use crate::streams::{
    anchor_walk, is_anchor_walk, is_shuffle, is_size, is_walk, next_received, stream_walk,
    Received, StreamingAnchor,
};
use dashmap::DashMap;
use rand::seq::SliceRandom;
use std::time::{Duration, Instant};
use tokio::sync::broadcast::error::TryRecvError;
use tokio::sync::broadcast::{Receiver, Sender};
use vstd::arithmetic::power2::is_pow2;
use vstd::prelude::*;

verus! {

/// `std::task::Waker`, the handle of a task that waits. It is only carried.
#[verifier::external_type_specification]
#[verifier::external_body]
pub struct ExWaker(std::task::Waker);

/// `std::time::Instant`, a reading of the monotonic clock. It is only carried.
#[verifier::external_type_specification]
#[verifier::external_body]
pub struct ExInstant(std::time::Instant);

/// `dashmap::DashMap`, a hash map. A value of the library owns its maps and changes them
/// only through `&mut`, so a map that is borrowed by `&` does not change.
#[verifier::external_type_specification]
#[verifier::external_body]
#[verifier::reject_recursive_types(K)]
#[verifier::reject_recursive_types(V)]
#[verifier::reject_recursive_types(S)]
pub struct ExDashMap<K, V, S>(dashmap::DashMap<K, V, S>);

/// `tokio::sync::broadcast::Sender`, the sending half of a broadcast channel.
#[verifier::external_type_specification]
#[verifier::external_body]
#[verifier::reject_recursive_types(T)]
pub struct ExSender<T>(tokio::sync::broadcast::Sender<T>);

/// `tokio::sync::broadcast::Receiver`, a receiving half of a broadcast channel.
#[verifier::external_type_specification]
#[verifier::external_body]
#[verifier::reject_recursive_types(T)]
pub struct ExReceiver<T>(tokio::sync::broadcast::Receiver<T>);

/// `librqbit_dualstack_sockets::BindDevice`, a network interface. It is only carried.
#[verifier::external_type_specification]
#[verifier::external_body]
pub struct ExBindDevice(librqbit_dualstack_sockets::BindDevice);

/// `BindDevice::clone` copies the index and the name of the interface.
pub assume_specification[ <librqbit_dualstack_sockets::BindDevice as Clone>::clone ](
    d: &librqbit_dualstack_sockets::BindDevice,
) -> (r: librqbit_dualstack_sockets::BindDevice)
    ensures
        r == *d,
;

/// `Instant::now` reads the monotonic clock. Nothing is claimed of the reading.
pub assume_specification[ std::time::Instant::now ]() -> Instant;

/// `Instant::elapsed` tells how long ago the instant was. Nothing is claimed of it, since
/// it depends on when it is asked.
pub assume_specification[ std::time::Instant::elapsed ](i: &Instant) -> Duration;

/// `Duration::as_nanos` gives a duration in whole nanoseconds. Nothing is claimed of the
/// number, since every duration here comes from the clock.
pub assume_specification[ std::time::Duration::as_nanos ](d: &Duration) -> u128;

/// What a map of streams holds: the state of each stream under its number.
pub uninterp spec fn stream_entries(m: DashMap<usize, StreamState>) -> Map<usize, StreamView>;

/// What a map of anchors holds: the anchor of each session under the session's name.
pub uninterp spec fn anchor_entries(m: DashMap<String, StreamingAnchor>) -> Map<
    Seq<char>,
    StreamingAnchor,
>;

/// `DashMap::new` makes an empty map.
#[verifier::external_body]
pub(crate) fn new_streams() -> (m: DashMap<usize, StreamState>)
    ensures
        stream_entries(m).dom() == Set::<usize>::empty(),
{
    DashMap::new()
}

/// `DashMap::len` counts the entries, of which there are finitely many.
#[verifier::external_body]
pub(crate) fn count_streams(m: &DashMap<usize, StreamState>) -> (n: usize)
    ensures
        is_size(stream_entries(*m).dom(), n),
{
    m.len()
}

/// `DashMap::insert` puts a value under a key, in place of the one that was there.
#[verifier::external_body]
pub(crate) fn insert_stream(m: &mut DashMap<usize, StreamState>, id: usize, state: StreamState)
    ensures
        stream_entries(*final(m)) == stream_entries(*old(m)).insert(id, state@),
{
    m.insert(id, state);
}

/// `DashMap::remove` takes the value under a key out, if there is one.
#[verifier::external_body]
pub(crate) fn remove_stream(m: &mut DashMap<usize, StreamState>, id: usize) -> (r: Option<
    StreamState,
>)
    ensures
        r is Some <==> stream_entries(*old(m)).contains_key(id),
        r matches Some(state) ==> state@ == stream_entries(*old(m))[id],
        stream_entries(*final(m)) == stream_entries(*old(m)).remove(id),
{
    m.remove(&id).map(|entry| entry.1)
}

/// `DashMap::iter` hands out every entry once. Nothing is claimed of the order. Of each
/// state a copy without the waker is made.
#[verifier::external_body]
pub(crate) fn walk_streams(m: &DashMap<usize, StreamState>) -> (r: Vec<(usize, StreamState)>)
    ensures
        is_walk(stream_walk(r@), stream_entries(*m)),
{
    m.iter().map(|entry| (*entry.key(), entry.value().copy_asleep())).collect()
}

/// `DashMap::new` makes an empty map.
#[verifier::external_body]
pub(crate) fn new_anchors() -> (m: DashMap<String, StreamingAnchor>)
    ensures
        anchor_entries(m).dom() == Set::<Seq<char>>::empty(),
{
    DashMap::new()
}

/// `DashMap::len` counts the entries, of which there are finitely many.
#[verifier::external_body]
pub(crate) fn count_anchors(m: &DashMap<String, StreamingAnchor>) -> (n: usize)
    ensures
        is_size(anchor_entries(*m).dom(), n),
{
    m.len()
}

/// `DashMap::is_empty` tells whether there is no entry.
#[verifier::external_body]
pub(crate) fn no_anchors(m: &DashMap<String, StreamingAnchor>) -> (r: bool)
    ensures
        r <==> anchor_entries(*m).dom() == Set::<Seq<char>>::empty(),
{
    m.is_empty()
}

/// `DashMap::insert` puts a value under a key, in place of the one that was there. Two
/// strings are the same key if they hold the same characters.
#[verifier::external_body]
pub(crate) fn insert_anchor(
    m: &mut DashMap<String, StreamingAnchor>,
    session: String,
    anchor: StreamingAnchor,
)
    ensures
        anchor_entries(*final(m)) == anchor_entries(*old(m)).insert(session@, anchor),
{
    m.insert(session, anchor);
}

/// `DashMap::remove` takes the value under a key out, if there is one.
#[verifier::external_body]
pub(crate) fn remove_anchor(m: &mut DashMap<String, StreamingAnchor>, session: &str) -> (r: Option<
    StreamingAnchor,
>)
    ensures
        r is Some <==> anchor_entries(*old(m)).contains_key(session@),
        r matches Some(anchor) ==> anchor == anchor_entries(*old(m))[session@],
        anchor_entries(*final(m)) == anchor_entries(*old(m)).remove(session@),
{
    m.remove(session).map(|entry| entry.1)
}

/// `DashMap::iter` hands out every entry once. Nothing is claimed of the order.
#[verifier::external_body]
pub(crate) fn walk_anchors(m: &DashMap<String, StreamingAnchor>) -> (r: Vec<
    (String, StreamingAnchor),
>)
    ensures
        is_anchor_walk(anchor_walk(r@), anchor_entries(*m)),
{
    m.iter().map(|entry| (entry.key().clone(), entry.value().clone())).collect()
}

/// The values that were handed to a sender to be sent, in order.
pub uninterp spec fn sent(tx: Sender<u32>) -> Seq<u32>;

/// How many values the channel of a sender holds for a receiver that lags.
pub uninterp spec fn channel_capacity(tx: Sender<u32>) -> nat;

/// Which channel a sender sends on.
pub uninterp spec fn channel_of(tx: Sender<u32>) -> nat;

/// Which channel a receiver receives from.
pub uninterp spec fn source_of(rx: Receiver<u32>) -> nat;

/// The values that were handed to the sender before the one that a receiver gets next.
pub uninterp spec fn passed(rx: Receiver<u32>) -> Seq<u32>;

/// `broadcast::channel` makes a channel to which nothing was sent. It panics on a
/// capacity of zero or above half of `usize::MAX`, and it rounds the capacity up to a
/// power of two, which is why the contract asks for one. The receiver that comes with it
/// is dropped.
#[verifier::external_body]
pub(crate) fn new_channel(capacity: usize) -> (tx: Sender<u32>)
    requires
        0 < capacity <= usize::MAX / 2,
        is_pow2(capacity as int),
    ensures
        sent(tx) == Seq::<u32>::empty(),
        channel_capacity(tx) == capacity,
{
    tokio::sync::broadcast::channel(capacity).0
}

/// `Sender::send` sends a value to the receivers that there are. How many there are, and
/// with it whether the value is kept, is not said: receivers come and go elsewhere.
#[verifier::external_body]
pub(crate) fn send(tx: &mut Sender<u32>, value: u32)
    ensures
        sent(*final(tx)) == sent(*old(tx)).push(value),
        channel_capacity(*final(tx)) == channel_capacity(*old(tx)),
        channel_of(*final(tx)) == channel_of(*old(tx)),
{
    let _ = tx.send(value);
}

/// `Sender::subscribe` makes a receiver on the sender's channel that gets what is sent
/// after it was made.
#[verifier::external_body]
pub(crate) fn subscribe(tx: &Sender<u32>) -> (rx: Receiver<u32>)
    ensures
        source_of(rx) == channel_of(*tx),
        passed(rx) == sent(*tx),
{
    tx.subscribe()
}

/// `Receiver::try_recv` gives the next value, if there is one. A receiver that is behind
/// by more than the channel holds is told how many values it missed, and goes on with the
/// oldest that is held. Nothing is claimed for a receiver on another channel than the
/// sender's. The sender is there to say what was sent; while it is there, the channel is
/// not closed.
#[verifier::external_body]
pub(crate) fn receive(tx: &Sender<u32>, rx: &mut Receiver<u32>) -> (r: Received)
    ensures
        source_of(*final(rx)) == source_of(*old(rx)),
        source_of(*old(rx)) == channel_of(*tx) ==> (r, passed(*final(rx))) == next_received(
            sent(*tx),
            channel_capacity(*tx),
            passed(*old(rx)),
        ),
{
    match rx.try_recv() {
        Ok(value) => Received::Value(value),
        Err(TryRecvError::Empty) => Received::Nothing,
        Err(TryRecvError::Lagged(missed)) => Received::Lagged(missed),
        Err(TryRecvError::Closed) => Received::Closed,
    }
}

/// `SliceRandom::shuffle` with the thread's generator brings a list into some order.
/// Which one is not said: it depends on chance.
#[verifier::external_body]
pub(crate) fn shuffle(queues: Vec<Vec<ValidPieceIndex>>) -> (r: Vec<Vec<ValidPieceIndex>>)
    ensures
        is_shuffle(r@, queues@),
{
    let mut queues = queues;
    queues.shuffle(&mut rand::rng());
    queues
}

/// `rand::random` picks a number by chance. Nothing is claimed of it.
#[verifier::external_body]
pub(crate) fn random_u16() -> u16 {
    rand::random()
}

} // verus!
