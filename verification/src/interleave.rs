//! Taking pieces from several queues in turn.
use crate::lengths::{piece_numbers, ValidPieceIndex};
use std::collections::{HashSet, VecDeque};
use vstd::multiset::Multiset;
use vstd::prelude::*;

verus! {

broadcast use vstd::std_specs::hash::group_hash_axioms;

/// The `i`-th item of each queue that has one, in the order of the queues.
pub open spec fn column(queues: Seq<Seq<u32>>, i: int) -> Seq<u32>
    decreases queues.len(),
{
    if queues.len() == 0 {
        Seq::empty()
    } else {
        let rest = column(queues.drop_last(), i);
        if i < queues.last().len() {
            rest.push(queues.last()[i])
        } else {
            rest
        }
    }
}

/// The first `n` columns, one after the other.
pub open spec fn columns(queues: Seq<Seq<u32>>, n: nat) -> Seq<u32>
    decreases n,
{
    if n == 0 {
        Seq::empty()
    } else {
        columns(queues, (n - 1) as nat) + column(queues, n - 1)
    }
}

/// The length of the longest queue.
pub open spec fn longest(queues: Seq<Seq<u32>>) -> nat
    decreases queues.len(),
{
    if queues.len() == 0 {
        0
    } else if queues.last().len() > longest(queues.drop_last()) {
        queues.last().len()
    } else {
        longest(queues.drop_last())
    }
}

/// The items of all queues taken in turn: the first of each queue, then the second of
/// each, and so on. A queue that is used up is passed over.
pub open spec fn round_robin(queues: Seq<Seq<u32>>) -> Seq<u32> {
    columns(queues, longest(queues))
}

/// The items of a list without those that came before.
pub open spec fn first_occurrences(s: Seq<u32>) -> Seq<u32>
    decreases s.len(),
{
    if s.len() == 0 {
        Seq::empty()
    } else {
        let rest = first_occurrences(s.drop_last());
        if s.drop_last().contains(s.last()) {
            rest
        } else {
            rest.push(s.last())
        }
    }
}

/// A queue of pieces, and how many of them were taken.
pub struct PieceQueue {
    pieces: Vec<ValidPieceIndex>,
    taken: usize,
}

impl View for PieceQueue {
    type V = Seq<u32>;

    /// The pieces that are left.
    closed spec fn view(&self) -> Seq<u32> {
        piece_numbers(self.pieces@).skip(self.taken as int)
    }
}

impl PieceQueue {
    #[verifier::type_invariant]
    spec fn inv(self) -> bool {
        self.taken <= self.pieces@.len()
    }

    /// A queue of all of `pieces`.
    pub fn new(pieces: Vec<ValidPieceIndex>) -> (q: Self)
        ensures
            q@ == piece_numbers(pieces@),
    {
        let q = PieceQueue { pieces, taken: 0 };
        assert(q@ =~= piece_numbers(pieces@));
        q
    }

    /// Takes the next piece.
    pub fn next(&mut self) -> (r: Option<ValidPieceIndex>)
        ensures
            r is Some <==> old(self)@.len() > 0,
            r matches Some(p) ==> p@ == old(self)@[0] && final(self)@ == old(self)@.drop_first(),
            r is None ==> final(self)@ == old(self)@,
    {
        proof {
            use_type_invariant(&*self);
        }
        if self.taken < self.pieces.len() {
            let p = self.pieces[self.taken];
            self.taken = self.taken + 1;
            assert(self@ =~= old(self)@.drop_first());
            Some(p)
        } else {
            None
        }
    }
}

/// The pieces left in each of a list of queues.
pub open spec fn queue_views(queues: Seq<PieceQueue>) -> Seq<Seq<u32>> {
    queues.map_values(|q: PieceQueue| q@)
}

/// How much is left to do when queues are drained in turn.
pub open spec fn work(queues: Seq<Seq<u32>>) -> nat
    decreases queues.len(),
{
    if queues.len() == 0 {
        0
    } else {
        work(queues.drop_first()) + queues[0].len() + 1
    }
}

proof fn lemma_work_push(queues: Seq<Seq<u32>>, q: Seq<u32>)
    ensures
        work(queues.push(q)) == work(queues) + q.len() + 1,
    decreases queues.len(),
{
    reveal_with_fuel(work, 2);
    if queues.len() == 0 {
        assert(queues.push(q).drop_first() =~= Seq::<Seq<u32>>::empty());
    } else {
        lemma_work_push(queues.drop_first(), q);
        assert(queues.push(q).drop_first() =~= queues.drop_first().push(q));
    }
}

/// What comes out when the front queue gives one item and goes to the back, over and
/// over, and is dropped once it is empty.
pub open spec fn drained(queues: Seq<Seq<u32>>) -> Seq<u32>
    decreases work(queues),
    via drained_ends
{
    if queues.len() == 0 {
        Seq::empty()
    } else if queues[0].len() == 0 {
        drained(queues.drop_first())
    } else {
        seq![queues[0][0]] + drained(queues.drop_first().push(queues[0].drop_first()))
    }
}

#[via_fn]
proof fn drained_ends(queues: Seq<Seq<u32>>) {
    if queues.len() > 0 && queues[0].len() > 0 {
        lemma_work_push(queues.drop_first(), queues[0].drop_first());
    }
}

/// The queues without their first items; those that were empty are gone.
spec fn tails(queues: Seq<Seq<u32>>) -> Seq<Seq<u32>>
    decreases queues.len(),
{
    if queues.len() == 0 {
        Seq::empty()
    } else {
        let rest = tails(queues.drop_last());
        if queues.last().len() > 0 {
            rest.push(queues.last().drop_first())
        } else {
            rest
        }
    }
}

proof fn lemma_column_split(q: Seq<u32>, rest: Seq<Seq<u32>>, i: int)
    ensures
        column(seq![q] + rest, i) == (if i < q.len() {
            seq![q[i]]
        } else {
            Seq::empty()
        }) + column(rest, i),
    decreases rest.len(),
{
    reveal_with_fuel(column, 2);
    let all = seq![q] + rest;
    if rest.len() == 0 {
        assert(all.drop_last() =~= Seq::<Seq<u32>>::empty());
    } else {
        lemma_column_split(q, rest.drop_last(), i);
        assert(all.drop_last() =~= seq![q] + rest.drop_last());
    }
    assert(column(all, i) =~= (if i < q.len() {
        seq![q[i]]
    } else {
        Seq::empty()
    }) + column(rest, i));
}

proof fn lemma_tails_split(q: Seq<u32>, rest: Seq<Seq<u32>>)
    ensures
        tails(seq![q] + rest) == (if q.len() > 0 {
            seq![q.drop_first()]
        } else {
            Seq::empty()
        }) + tails(rest),
    decreases rest.len(),
{
    reveal_with_fuel(tails, 2);
    let all = seq![q] + rest;
    if rest.len() == 0 {
        assert(all.drop_last() =~= Seq::<Seq<u32>>::empty());
    } else {
        lemma_tails_split(q, rest.drop_last());
        assert(all.drop_last() =~= seq![q] + rest.drop_last());
    }
    assert(tails(all) =~= (if q.len() > 0 {
        seq![q.drop_first()]
    } else {
        Seq::empty()
    }) + tails(rest));
}

/// One turn through the queues of `a`, which stand before those of `b`.
proof fn lemma_one_turn(a: Seq<Seq<u32>>, b: Seq<Seq<u32>>)
    ensures
        drained(a + b) == column(a, 0) + drained(b + tails(a)),
    decreases a.len(),
{
    if a.len() == 0 {
        assert(a + b =~= b);
        assert(b + tails(a) =~= b);
        assert(drained(a + b) =~= column(a, 0) + drained(b + tails(a)));
    } else {
        let q = a[0];
        let rest = a.drop_first();
        assert(a =~= seq![q] + rest);
        lemma_column_split(q, rest, 0);
        lemma_tails_split(q, rest);
        assert((a + b).drop_first() =~= rest + b);
        if q.len() == 0 {
            lemma_one_turn(rest, b);
            assert(tails(a) =~= tails(rest));
            assert(column(a, 0) =~= column(rest, 0));
        } else {
            let b2 = b.push(q.drop_first());
            lemma_one_turn(rest, b2);
            assert((rest + b).push(q.drop_first()) =~= rest + b2);
            assert(b2 + tails(rest) =~= b + tails(a));
            assert(drained(a + b) =~= column(a, 0) + drained(b + tails(a)));
        }
    }
}

proof fn lemma_column_of_tails(queues: Seq<Seq<u32>>, i: int)
    requires
        i >= 0,
    ensures
        column(tails(queues), i) == column(queues, i + 1),
    decreases queues.len(),
{
    if queues.len() > 0 {
        let rest = queues.drop_last();
        lemma_column_of_tails(rest, i);
        if queues.last().len() > 0 {
            assert(tails(queues).drop_last() =~= tails(rest));
        }
    }
}

proof fn lemma_longest_of_tails(queues: Seq<Seq<u32>>)
    ensures
        longest(tails(queues)) == if longest(queues) > 0 {
            (longest(queues) - 1) as nat
        } else {
            0
        },
    decreases queues.len(),
{
    if queues.len() > 0 {
        let rest = queues.drop_last();
        lemma_longest_of_tails(rest);
        if queues.last().len() > 0 {
            assert(tails(queues).drop_last() =~= tails(rest));
        }
    }
}

proof fn lemma_columns_of_tails(queues: Seq<Seq<u32>>, n: nat)
    ensures
        columns(queues, n + 1) == column(queues, 0) + columns(tails(queues), n),
    decreases n,
{
    if n == 0 {
        reveal_with_fuel(columns, 2);
        assert(columns(queues, 1) =~= column(queues, 0) + columns(tails(queues), 0));
    } else {
        lemma_columns_of_tails(queues, (n - 1) as nat);
        lemma_column_of_tails(queues, n - 1);
        assert(columns(queues, n + 1) =~= column(queues, 0) + columns(tails(queues), n));
    }
}

proof fn lemma_all_empty(queues: Seq<Seq<u32>>)
    requires
        longest(queues) == 0,
    ensures
        column(queues, 0) == Seq::<u32>::empty(),
        tails(queues) == Seq::<Seq<u32>>::empty(),
    decreases queues.len(),
{
    if queues.len() > 0 {
        lemma_all_empty(queues.drop_last());
    }
}

/// Draining queues by sending each to the back after one item gives the items in turns:
/// the first of each queue, then the second of each, and so on.
pub proof fn law_drained_is_round_robin(queues: Seq<Seq<u32>>)
    ensures
        drained(queues) == round_robin(queues),
    decreases longest(queues),
{
    let none = Seq::<Seq<u32>>::empty();
    lemma_one_turn(queues, none);
    assert(queues + none =~= queues);
    assert(none + tails(queues) =~= tails(queues));
    if longest(queues) == 0 {
        lemma_all_empty(queues);
        assert(drained(queues) =~= round_robin(queues));
    } else {
        lemma_longest_of_tails(queues);
        law_drained_is_round_robin(tails(queues));
        lemma_columns_of_tails(queues, (longest(queues) - 1) as nat);
    }
}

/// The numbers in each of a list of lists of pieces.
pub open spec fn number_lists(queues: Seq<Vec<ValidPieceIndex>>) -> Seq<Seq<u32>> {
    queues.map_values(|q: Vec<ValidPieceIndex>| piece_numbers(q@))
}

/// Queues that give one piece each in turn.
pub struct Interleave {
    all: VecDeque<PieceQueue>,
}

impl View for Interleave {
    type V = Seq<u32>;

    /// The pieces that are left, in the order in which they come.
    closed spec fn view(&self) -> Seq<u32> {
        drained(queue_views(self.all@))
    }
}

impl Interleave {
    /// Takes from `queues` in turn, the first queue first.
    pub fn new(queues: Vec<Vec<ValidPieceIndex>>) -> (r: Self)
        ensures
            r@ == round_robin(number_lists(queues@)),
    {
        let ghost given = queues@;
        let mut rest = queues;
        let mut all: VecDeque<PieceQueue> = VecDeque::new();
        assert(given.take(given.len() as int) =~= given);
        loop
            invariant
                rest@.len() <= given.len(),
                rest@ == given.take(rest@.len() as int),
                all@.len() == given.len() - rest@.len(),
                forall|k: int|
                    0 <= k < all@.len() ==> (#[trigger] all@[k])@ == piece_numbers(
                        given[rest@.len() + k]@,
                    ),
            ensures
                rest@.len() == 0,
            decreases rest@.len(),
        {
            match rest.pop() {
                Some(q) => {
                    all.push_front(PieceQueue::new(q));
                    assert(rest@ =~= given.take(rest@.len() as int));
                },
                None => {
                    break;
                },
            }
        }
        let r = Interleave { all };
        proof {
            assert(queue_views(all@) =~= number_lists(given));
            law_drained_is_round_robin(number_lists(given));
        }
        r
    }

    /// Takes the next piece: the front queue gives it and goes to the back.
    pub fn next(&mut self) -> (r: Option<ValidPieceIndex>)
        ensures
            r is Some <==> old(self)@.len() > 0,
            r matches Some(p) ==> p@ == old(self)@[0] && final(self)@ == old(self)@.drop_first(),
            r is None ==> final(self)@ == old(self)@,
    {
        loop
            invariant
                self@ == old(self)@,
            decreases self.all@.len(),
        {
            let ghost before = self.all@;
            match self.all.pop_front() {
                Some(mut it) => {
                    let ghost front = it@;
                    assert(queue_views(before)[0] == front);
                    assert(queue_views(self.all@) =~= queue_views(before).drop_first());
                    if let Some(piece) = it.next() {
                        let ghost rest = self.all@;
                        self.all.push_back(it);
                        assert(queue_views(self.all@) =~= queue_views(before).drop_first().push(
                            front.drop_first(),
                        ));
                        assert(self@ =~= old(self)@.drop_first());
                        return Some(piece);
                    }
                },
                None => {
                    assert(queue_views(before) =~= Seq::<Seq<u32>>::empty());
                    assert(self.all@ == before);
                    return None;
                },
            }
        }
    }
}

/// The pieces to ask for next: first the priority pieces, then those of the queues in
/// turn.
pub struct NextPieces {
    priority: PieceQueue,
    normal: Interleave,
}

impl View for NextPieces {
    type V = Seq<u32>;

    /// The pieces that are left, in the order in which they come.
    closed spec fn view(&self) -> Seq<u32> {
        self.priority@ + self.normal@
    }
}

impl NextPieces {
    /// All of `priority`, then `normal` in turn.
    pub fn new(priority: Vec<ValidPieceIndex>, normal: Vec<Vec<ValidPieceIndex>>) -> (r: Self)
        ensures
            r@ == piece_numbers(priority@) + round_robin(number_lists(normal@)),
    {
        NextPieces { priority: PieceQueue::new(priority), normal: Interleave::new(normal) }
    }

    /// Takes the next piece.
    pub fn next(&mut self) -> (r: Option<ValidPieceIndex>)
        ensures
            r is Some <==> old(self)@.len() > 0,
            r matches Some(p) ==> p@ == old(self)@[0] && final(self)@ == old(self)@.drop_first(),
            r is None ==> final(self)@ == old(self)@,
    {
        match self.priority.next() {
            Some(piece) => {
                assert(self@ =~= old(self)@.drop_first());
                Some(piece)
            },
            None => {
                let r = self.normal.next();
                assert(r is Some ==> self@ =~= old(self)@.drop_first());
                r
            },
        }
    }

    /// Takes all pieces.
    pub fn collect(self) -> (pieces: Vec<ValidPieceIndex>)
        ensures
            piece_numbers(pieces@) == self@,
    {
        let mut rest = self;
        let mut pieces: Vec<ValidPieceIndex> = Vec::new();
        assert(piece_numbers(pieces@) + rest@ =~= self@);
        loop
            invariant
                piece_numbers(pieces@) + rest@ == self@,
            ensures
                rest@.len() == 0,
                piece_numbers(pieces@) + rest@ == self@,
            decreases rest@.len(),
        {
            let ghost before = rest@;
            let ghost had = piece_numbers(pieces@);
            match rest.next() {
                Some(piece) => {
                    pieces.push(piece);
                    assert(piece_numbers(pieces@) =~= had.push(piece@));
                    assert(piece_numbers(pieces@) + rest@ =~= had + before);
                },
                None => {
                    break;
                },
            }
        }
        assert(piece_numbers(pieces@) =~= self@);
        pieces
    }
}

proof fn lemma_longest_bounds(queues: Seq<Seq<u32>>, k: int)
    requires
        0 <= k < queues.len(),
    ensures
        queues[k].len() <= longest(queues),
    decreases queues.len(),
{
    if k < queues.len() - 1 {
        lemma_longest_bounds(queues.drop_last(), k);
    }
}

proof fn lemma_first_occurrences(s: Seq<u32>)
    ensures
        first_occurrences(s).no_duplicates(),
        forall|x: u32| first_occurrences(s).contains(x) <==> s.contains(x),
    decreases s.len(),
{
    if s.len() > 0 {
        let rest = s.drop_last();
        let x = s.last();
        lemma_first_occurrences(rest);
        assert(s =~= rest.push(x));
        assert forall|y: u32| first_occurrences(s).contains(y) <==> s.contains(y) by {
            assert(rest.push(x).contains(y) <==> rest.contains(y) || y == x) by {
                vstd::seq_lib::lemma_seq_contains_after_push(rest, x, y);
            }
            vstd::seq_lib::lemma_seq_contains_after_push(first_occurrences(rest), x, y);
        }
    }
}

/// Takes one piece of each queue in turn and drops those that came before.
pub fn interleave_priority(queues: &Vec<Vec<ValidPieceIndex>>) -> (pieces: Vec<ValidPieceIndex>)
    ensures
        piece_numbers(pieces@) == first_occurrences(round_robin(number_lists(queues@))),
{
    let ghost qs = number_lists(queues@);
    let mut max_len: usize = 0;
    let mut k: usize = 0;
    while k < queues.len()
        invariant
            k <= queues.len(),
            qs == number_lists(queues@),
            max_len == longest(qs.take(k as int)),
        decreases queues.len() - k,
    {
        if queues[k].len() > max_len {
            max_len = queues[k].len();
        }
        k = k + 1;
        assert(qs.take(k as int).drop_last() =~= qs.take(k - 1));
    }
    assert(qs.take(k as int) =~= qs);
    let mut seen: HashSet<u32> = HashSet::new();
    let mut pieces: Vec<ValidPieceIndex> = Vec::new();
    let mut i: usize = 0;
    assert(piece_numbers(pieces@) =~= first_occurrences(columns(qs, 0)));
    while i < max_len
        invariant
            i <= max_len,
            qs == number_lists(queues@),
            max_len == longest(qs),
            piece_numbers(pieces@) == first_occurrences(columns(qs, i as nat)),
            forall|x: u32| seen@.contains(x) <==> columns(qs, i as nat).contains(x),
        decreases max_len - i,
    {
        let mut j: usize = 0;
        let ghost before = columns(qs, i as nat);
        assert(before + column(qs.take(0), i as int) =~= before);
        while j < queues.len()
            invariant
                i < max_len,
                j <= queues.len(),
                qs == number_lists(queues@),
                before == columns(qs, i as nat),
                piece_numbers(pieces@) == first_occurrences(
                    before + column(qs.take(j as int), i as int),
                ),
                forall|x: u32|
                    seen@.contains(x) <==> (before + column(
                        qs.take(j as int),
                        i as int,
                    )).contains(x),
            decreases queues.len() - j,
        {
            let queue = &queues[j];
            let ghost so_far = before + column(qs.take(j as int), i as int);
            let ghost had = piece_numbers(pieces@);
            assert(qs.take(j + 1).drop_last() =~= qs.take(j as int));
            assert(qs.take(j + 1).last() == piece_numbers(queue@));
            if i < queue.len() {
                let piece = queue[i];
                let fresh: bool = seen.insert(piece.get());
                let ghost next = before + column(qs.take(j + 1), i as int);
                assert(next =~= so_far.push(piece@));
                assert(next.drop_last() =~= so_far);
                assert forall|x: u32| seen@.contains(x) <==> next.contains(x) by {
                    vstd::seq_lib::lemma_seq_contains_after_push(so_far, piece@, x);
                }
                if fresh {
                    pieces.push(piece);
                    assert(piece_numbers(pieces@) =~= had.push(piece@));
                }
            }
            j = j + 1;
        }
        assert(qs.take(j as int) =~= qs);
        i = i + 1;
    }
    pieces
}

/// The number of items in all queues together.
pub open spec fn total_len(queues: Seq<Seq<u32>>) -> nat
    decreases queues.len(),
{
    if queues.len() == 0 {
        0
    } else {
        total_len(queues.drop_last()) + queues.last().len()
    }
}

proof fn lemma_total_of_tails(queues: Seq<Seq<u32>>)
    ensures
        total_len(queues) == column(queues, 0).len() + total_len(tails(queues)),
    decreases queues.len(),
{
    if queues.len() > 0 {
        lemma_total_of_tails(queues.drop_last());
        if queues.last().len() > 0 {
            assert(tails(queues).drop_last() =~= tails(queues.drop_last()));
        }
    }
}

/// The items of all queues together, without their order.
pub open spec fn all_items(queues: Seq<Seq<u32>>) -> Multiset<u32>
    decreases queues.len(),
{
    if queues.len() == 0 {
        Multiset::empty()
    } else {
        all_items(queues.drop_last()).add(queues.last().to_multiset())
    }
}

proof fn lemma_first_item_apart(q: Seq<u32>)
    requires
        q.len() > 0,
    ensures
        q.to_multiset() == q.drop_first().to_multiset().insert(q[0]),
{
    broadcast use vstd::seq_lib::group_to_multiset_ensures;

    assert(q =~= seq![q[0]] + q.drop_first());
    vstd::seq_lib::lemma_multiset_commutative(seq![q[0]], q.drop_first());
    assert(seq![q[0]] =~= Seq::<u32>::empty().push(q[0]));
    assert(q.to_multiset() =~= q.drop_first().to_multiset().insert(q[0]));
}

proof fn lemma_items_of_tails(queues: Seq<Seq<u32>>)
    ensures
        all_items(queues) == column(queues, 0).to_multiset().add(all_items(tails(queues))),
    decreases queues.len(),
{
    broadcast use vstd::seq_lib::group_to_multiset_ensures;

    if queues.len() > 0 {
        let rest = queues.drop_last();
        lemma_items_of_tails(rest);
        if queues.last().len() > 0 {
            lemma_first_item_apart(queues.last());
            assert(tails(queues).drop_last() =~= tails(rest));
            assert(all_items(tails(queues)) == all_items(tails(rest)).add(
                queues.last().drop_first().to_multiset(),
            ));
        } else {
            assert(queues.last().to_multiset() =~= Multiset::<u32>::empty());
        }
        assert(all_items(queues) =~= column(queues, 0).to_multiset().add(
            all_items(tails(queues)),
        ));
    } else {
        assert(all_items(queues) =~= column(queues, 0).to_multiset().add(
            all_items(tails(queues)),
        ));
    }
}

proof fn lemma_round_robin_items(queues: Seq<Seq<u32>>)
    ensures
        round_robin(queues).to_multiset() == all_items(queues),
    decreases longest(queues),
{
    broadcast use vstd::seq_lib::group_to_multiset_ensures;

    lemma_items_of_tails(queues);
    lemma_longest_of_tails(queues);
    if longest(queues) == 0 {
        lemma_all_empty(queues);
        assert(round_robin(queues).to_multiset() =~= all_items(queues));
    } else {
        lemma_columns_of_tails(queues, (longest(queues) - 1) as nat);
        lemma_round_robin_items(tails(queues));
        vstd::seq_lib::lemma_multiset_commutative(
            column(queues, 0),
            round_robin(tails(queues)),
        );
    }
}

proof fn lemma_column_contains(queues: Seq<Seq<u32>>, i: int, k: int)
    requires
        0 <= k < queues.len(),
        0 <= i < queues[k].len(),
    ensures
        column(queues, i).contains(queues[k][i]),
    decreases queues.len(),
{
    let rest = column(queues.drop_last(), i);
    if k < queues.len() - 1 {
        lemma_column_contains(queues.drop_last(), i, k);
    }
    if i < queues.last().len() {
        vstd::seq_lib::lemma_seq_contains_after_push(rest, queues.last()[i], queues[k][i]);
    }
}

proof fn lemma_column_origin(queues: Seq<Seq<u32>>, i: int, n: int)
    requires
        0 <= i,
        0 <= n < column(queues, i).len(),
    ensures
        exists|k: int|
            0 <= k < queues.len() && #[trigger] queues[k].len() > i && queues[k][i] == column(
                queues,
                i,
            )[n],
    decreases queues.len(),
{
    let rest = column(queues.drop_last(), i);
    if n < rest.len() {
        lemma_column_origin(queues.drop_last(), i, n);
        let k = choose|k: int|
            0 <= k < queues.len() - 1 && #[trigger] queues.drop_last()[k].len() > i
                && queues.drop_last()[k][i] == rest[n];
        assert(queues[k].len() > i);
    } else {
        assert(queues[queues.len() - 1].len() > i);
    }
}

proof fn lemma_columns_contain(queues: Seq<Seq<u32>>, n: nat, x: u32)
    ensures
        columns(queues, n).contains(x) <==> exists|k: int, i: int|
            0 <= k < queues.len() && 0 <= i < queues[k].len() && i < n && #[trigger] queues[k][i]
                == x,
    decreases n,
{
    if n > 0 {
        let m = (n - 1) as nat;
        lemma_columns_contain(queues, m, x);
        let a = columns(queues, m);
        let b = column(queues, n - 1);
        if columns(queues, n).contains(x) {
            let p = choose|p: int| 0 <= p < (a + b).len() && (a + b)[p] == x;
            if p < a.len() {
                assert(a[p] == x);
                assert(a.contains(x));
            } else {
                lemma_column_origin(queues, n - 1, p - a.len());
                let k = choose|k: int|
                    0 <= k < queues.len() && #[trigger] queues[k].len() > n - 1
                        && queues[k][n - 1] == b[p - a.len()];
                assert(queues[k][n - 1] == x);
            }
        }
        if exists|k: int, i: int|
            0 <= k < queues.len() && 0 <= i < queues[k].len() && i < n && #[trigger] queues[k][i]
                == x {
            let (k, i) = choose|k: int, i: int|
                0 <= k < queues.len() && 0 <= i < queues[k].len() && i < n
                    && #[trigger] queues[k][i] == x;
            if i < m {
                assert(a.contains(x));
                let p = choose|p: int| 0 <= p < a.len() && a[p] == x;
                assert((a + b)[p] == x);
            } else {
                lemma_column_contains(queues, i, k);
                let p = choose|p: int| 0 <= p < b.len() && b[p] == x;
                assert((a + b)[a.len() + p] == x);
            }
        }
    }
}

/// Taking from queues in turn gives every item of every queue as often as the queues hold
/// it, and nothing else: as many items come out as went in, and an item comes out if and
/// only if a queue holds it.
pub proof fn law_round_robin_keeps_items(queues: Seq<Seq<u32>>)
    ensures
        round_robin(queues).to_multiset() == all_items(queues),
        round_robin(queues).len() == total_len(queues),
        forall|x: u32|
            round_robin(queues).contains(x) <==> exists|k: int|
                0 <= k < queues.len() && #[trigger] queues[k].contains(x),
{
    lemma_round_robin_items(queues);
    lemma_round_robin_len(queues);
    assert forall|x: u32|
        round_robin(queues).contains(x) <==> exists|k: int|
            0 <= k < queues.len() && #[trigger] queues[k].contains(x) by {
        lemma_columns_contain(queues, longest(queues), x);
        if exists|k: int| 0 <= k < queues.len() && #[trigger] queues[k].contains(x) {
            let k = choose|k: int| 0 <= k < queues.len() && #[trigger] queues[k].contains(x);
            let i = choose|i: int| 0 <= i < queues[k].len() && queues[k][i] == x;
            lemma_longest_bounds(queues, k);
            assert(queues[k][i] == x);
        }
        if round_robin(queues).contains(x) {
            let (k, i) = choose|k: int, i: int|
                0 <= k < queues.len() && 0 <= i < queues[k].len() && i < longest(queues)
                    && #[trigger] queues[k][i] == x;
            assert(queues[k].contains(x));
        }
    }
}

proof fn lemma_round_robin_len(queues: Seq<Seq<u32>>)
    ensures
        round_robin(queues).len() == total_len(queues),
    decreases longest(queues),
{
    lemma_total_of_tails(queues);
    lemma_longest_of_tails(queues);
    if longest(queues) == 0 {
        lemma_all_empty(queues);
    } else {
        lemma_columns_of_tails(queues, (longest(queues) - 1) as nat);
        lemma_round_robin_len(tails(queues));
    }
}

proof fn lemma_column_len(queues: Seq<Seq<u32>>, i: int)
    ensures
        column(queues, i).len() <= queues.len(),
    decreases queues.len(),
{
    if queues.len() > 0 {
        lemma_column_len(queues.drop_last(), i);
    }
}

proof fn lemma_columns_start(queues: Seq<Seq<u32>>, n: nat, p: int)
    requires
        n > 0,
        0 <= p < column(queues, 0).len(),
    ensures
        p < columns(queues, n).len(),
        columns(queues, n)[p] == column(queues, 0)[p],
    decreases n,
{
    if n > 1 {
        lemma_columns_start(queues, (n - 1) as nat, p);
    } else {
        assert(columns(queues, 0) + column(queues, 0) =~= column(queues, 0));
    }
}

/// Nobody waits for a second turn of another: the first piece of each queue comes among
/// the first pieces, of which there are at most as many as queues.
pub proof fn law_first_pieces_come_first(queues: Seq<Seq<u32>>, k: int)
    requires
        0 <= k < queues.len(),
        queues[k].len() > 0,
    ensures
        exists|p: int|
            0 <= p < queues.len() && p < round_robin(queues).len() && #[trigger] round_robin(
                queues,
            )[p] == queues[k][0],
{
    lemma_longest_bounds(queues, k);
    lemma_column_contains(queues, 0, k);
    lemma_column_len(queues, 0);
    let first = column(queues, 0);
    let p = choose|p: int| 0 <= p < first.len() && first[p] == queues[k][0];
    lemma_columns_start(queues, longest(queues), p);
    assert(round_robin(queues)[p] == queues[k][0]);
}

/// Priority pieces of several streams, taken in turn: each comes once, and a piece comes
/// if and only if a stream asked for it.
pub proof fn law_priority_pieces_come_once(queues: Seq<Seq<u32>>)
    ensures
        first_occurrences(round_robin(queues)).no_duplicates(),
        forall|x: u32|
            first_occurrences(round_robin(queues)).contains(x) <==> exists|k: int|
                0 <= k < queues.len() && #[trigger] queues[k].contains(x),
{
    let all = round_robin(queues);
    lemma_first_occurrences(all);
    law_round_robin_keeps_items(queues);
    assert forall|x: u32|
        first_occurrences(all).contains(x) <==> exists|k: int|
            0 <= k < queues.len() && #[trigger] queues[k].contains(x) by {
        assert(first_occurrences(all).contains(x) <==> all.contains(x));
    }
}

proof fn lemma_full_turn(queues: Seq<Seq<u32>>)
    requires
        forall|k: int| 0 <= k < queues.len() ==> (#[trigger] queues[k]).len() > 0,
    ensures
        column(queues, 0) == Seq::new(queues.len(), |k: int| queues[k][0]),
        tails(queues) == Seq::new(queues.len(), |k: int| queues[k].drop_first()),
    decreases queues.len(),
{
    if queues.len() > 0 {
        let rest = queues.drop_last();
        assert forall|k: int| 0 <= k < rest.len() implies (#[trigger] rest[k]).len() > 0 by {
            assert(queues[k].len() > 0);
        }
        lemma_full_turn(rest);
        assert(queues[queues.len() - 1].len() > 0);
    }
    assert(column(queues, 0) =~= Seq::new(queues.len(), |k: int| queues[k][0]));
    assert(tails(queues) =~= Seq::new(queues.len(), |k: int| queues[k].drop_first()));
}

/// Where every queue has a piece left, a turn gives the first piece of each, in the order
/// of the queues, and goes on with what is left of them.
pub proof fn law_a_turn_takes_one_of_each(queues: Seq<Seq<u32>>)
    requires
        forall|k: int| 0 <= k < queues.len() ==> (#[trigger] queues[k]).len() > 0,
    ensures
        round_robin(queues) == Seq::new(queues.len(), |k: int| queues[k][0]) + round_robin(
            Seq::new(queues.len(), |k: int| queues[k].drop_first()),
        ),
{
    lemma_full_turn(queues);
    lemma_longest_of_tails(queues);
    if longest(queues) == 0 {
        if queues.len() > 0 {
            lemma_longest_bounds(queues, 0);
            assert(queues[0].len() > 0);
        }
        assert(round_robin(queues) =~= column(queues, 0) + round_robin(tails(queues)));
    } else {
        lemma_columns_of_tails(queues, (longest(queues) - 1) as nat);
    }
}

proof fn lemma_column_without_empty(a: Seq<Seq<u32>>, b: Seq<Seq<u32>>, i: int)
    requires
        i >= 0,
    ensures
        column(a + seq![Seq::<u32>::empty()] + b, i) == column(a + b, i),
        longest(a + seq![Seq::<u32>::empty()] + b) == longest(a + b),
    decreases b.len(),
{
    let with = a + seq![Seq::<u32>::empty()] + b;
    let without = a + b;
    if b.len() == 0 {
        assert(with.drop_last() =~= a);
        assert(without =~= a);
        assert(with.last() == Seq::<u32>::empty());
    } else {
        lemma_column_without_empty(a, b.drop_last(), i);
        assert(with.drop_last() =~= a + seq![Seq::<u32>::empty()] + b.drop_last());
        assert(without.drop_last() =~= a + b.drop_last());
        assert(with.last() == without.last());
    }
}

proof fn lemma_columns_without_empty(a: Seq<Seq<u32>>, b: Seq<Seq<u32>>, n: nat)
    ensures
        columns(a + seq![Seq::<u32>::empty()] + b, n) == columns(a + b, n),
    decreases n,
{
    if n > 0 {
        lemma_columns_without_empty(a, b, (n - 1) as nat);
        lemma_column_without_empty(a, b, n - 1);
    }
}

/// A queue that is used up is passed over, and without queues there is nothing.
pub proof fn law_used_up_queue_is_passed_over(a: Seq<Seq<u32>>, b: Seq<Seq<u32>>)
    ensures
        round_robin(a + seq![Seq::<u32>::empty()] + b) == round_robin(a + b),
        round_robin(Seq::<Seq<u32>>::empty()) == Seq::<u32>::empty(),
{
    lemma_column_without_empty(a, b, 0);
    lemma_columns_without_empty(a, b, longest(a + b));
}

/// A piece that came before is dropped, a new one is kept behind those that came before.
pub proof fn law_repeats_are_dropped(s: Seq<u32>, x: u32)
    ensures
        first_occurrences(Seq::<u32>::empty()) == Seq::<u32>::empty(),
        s.contains(x) ==> first_occurrences(s.push(x)) == first_occurrences(s),
        !s.contains(x) ==> first_occurrences(s.push(x)) == first_occurrences(s).push(x),
{
    assert(s.push(x).drop_last() =~= s);
}

/// The numbers in lists of pieces are theirs, one by one.
pub proof fn law_number_lists_one_by_one(queues: Seq<Vec<ValidPieceIndex>>, k: int, i: int)
    ensures
        number_lists(queues).len() == queues.len(),
        0 <= k < queues.len() ==> number_lists(queues)[k].len() == queues[k]@.len(),
        0 <= k < queues.len() && 0 <= i < queues[k]@.len() ==> number_lists(queues)[k][i]
            == queues[k]@[i]@,
{
}

} // verus!
