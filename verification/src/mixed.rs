//! What a receiver makes of sets that mix messages with and without a promise of
//! delivery, where they arrive in any order and more than once.
//!
//! Messages are numbered from 0, as they were sent; `starts[i]` is the number of the
//! first message of the set that message `i` belongs to.

use crate::history::{
    arrivals, can_happen, happens, history, lemma_event_wf, lemma_sizes_stay, opened, possible,
    Event,
};
use crate::jumbled::{
    arrives_at, has_arrived, in_order, in_sets, in_window, is_between, is_one_of, is_over, is_part,
    is_pending, lag, lemma_apart, lemma_lent_out, lemma_offsets, lemma_picks_one_more,
    lemma_pushed, lemma_start, lemma_still_over, lemma_still_pending,
    lemma_taken_out, only_brings, picks, sealed,
};
use crate::laws::{law_datagram_round_trip, law_steps_add_up};
use crate::mod_ord::{ModOrd, HALF};
use crate::once::{waiting, waits};
use crate::receiving::is_due;
use crate::state::{is_ready, Letter, State};
use vstd::prelude::*;

verus! {

/// How many of the first `len` numbers `f` holds of.
pub open spec fn count(len: int, f: spec_fn(int) -> bool) -> int
    decreases len,
{
    if len <= 0 {
        0
    } else {
        count(len - 1, f) + if f(len - 1) {
            1int
        } else {
            0int
        }
    }
}

/// How many deliveries the set that starts with message `q` promises.
pub open spec fn promised(starts: Seq<int>, msgs: Seq<Letter>, q: int) -> int {
    count(msgs.len() as int, promises(starts, msgs, q))
}

/// Whether a message belongs to the set that starts with message `q` and promises
/// delivery.
pub open spec fn promises(starts: Seq<int>, msgs: Seq<Letter>, q: int) -> spec_fn(int) -> bool {
    |i: int| starts[i] == q && msgs[i].h.del
}

/// Whether a set starts with message `q` and promises a delivery.
pub open spec fn is_promising(starts: Seq<int>, msgs: Seq<Letter>, q: int) -> bool {
    0 <= q < msgs.len() && starts[q] == q && promised(starts, msgs, q) > 0
}

/// Whether a message of a set that starts with message `start` waits for the number
/// `wait`: for exactly the deliveries of the last set before that promises any, or for
/// `first` if there is none.
pub open spec fn is_awaited(
    starts: Seq<int>,
    msgs: Seq<Letter>,
    first: int,
    start: int,
    wait: int,
) -> bool {
    &&& forall|q: int| #[trigger]
        is_promising(starts, msgs, q) && q < start ==> q + promised(starts, msgs, q) <= wait
    &&& wait == first || exists|q: int| #[trigger]
        is_promising(starts, msgs, q) && q < start && wait == q + promised(starts, msgs, q)
}

/// The messages are numbered from `base` on, and each set waits for the deliveries that
/// were promised before it. All numbers are counted from `base`; `awaited[i]` is what
/// message `i` waits for.
pub open spec fn is_mixed(
    base: ModOrd,
    starts: Seq<int>,
    first: int,
    awaited: Seq<int>,
    msgs: Seq<Letter>,
) -> bool {
    &&& base.ordinary()
    &&& starts.len() == msgs.len()
    &&& awaited.len() == msgs.len()
    &&& in_sets(starts)
    &&& forall|i: int|
        0 <= i < msgs.len() ==> {
            &&& (#[trigger] msgs[i]).h.id == base.plus(i)
            &&& msgs[i].h.set_id == base.plus(starts[i])
            &&& msgs[i].h.wait_until == base.plus(awaited[i])
            &&& is_awaited(starts, msgs, first, starts[i], awaited[i])
        }
}

/// A receiver that expects the number `base` next, has counted as far as `first` at
/// least, and holds nothing: no message waits, and what is remembered or still lent out
/// has an older number.
pub open spec fn is_ready_for(s: State, base: ModOrd, first: int) -> bool {
    &&& s.wf()
    &&& base.ordinary()
    &&& s.n.steps_to(base) <= -first <= HALF
    &&& s.largest_set_id_yielded.up_to(base)
    &&& forall|id: u32| !#[trigger] waits(s, id)
    &&& forall|id: u32| #[trigger]
        s.seen_before.contains(id) ==> s.largest_set_id_yielded.up_to(ModOrd { value: id }) && (
        ModOrd { value: id }).before(base)
    &&& s.inbox2_to_remove matches Some(id) ==> (ModOrd { value: id }).before(base)
}

/// Every message comes after all messages of earlier sets that promise delivery.
pub open spec fn after_the_deliveries(
    order: Seq<int>,
    starts: Seq<int>,
    msgs: Seq<Letter>,
) -> bool {
    forall|k: int, i: int|
        0 <= k < order.len() && 0 <= i < msgs.len() && msgs[i].h.del && starts[i]
            < starts[#[trigger] order[k]] ==> comes_before(order, k, #[trigger] msgs[i], i)
}

/// Message `i` comes before the one at `k`.
pub open spec fn comes_before(order: Seq<int>, k: int, letter: Letter, i: int) -> bool {
    exists|j: int| 0 <= j < k && #[trigger] order[j] == i
}

/// The messages arrive in any order, and any number of times, and what is sent in
/// between does not matter. Those that are handed out are ones that were sent, none is
/// handed out twice, and none before all messages of earlier sets that promise delivery.
/// Once all that promise delivery have arrived in the window and nothing that waits is
/// due, all of them were handed out, and no message waits any more. The messages are
/// handed out as `order` says.
pub proof fn law_mixed_sets_are_delivered(
    base: ModOrd,
    starts: Seq<int>,
    first: int,
    awaited: Seq<int>,
    msgs: Seq<Letter>,
    s: State,
    events: Seq<Event>,
) -> (order: Seq<int>)
    requires
        is_mixed(base, starts, first, awaited, msgs),
        is_ready_for(s, base, first),
        lag(s, base) - first + msgs.len() < HALF,
        possible(s, events),
        only_brings(msgs, arrivals(events)),
    ensures
        ({
            let (t, out) = history(s, events);
            &&& picks(order, msgs.len() as int)
            &&& in_order(order, msgs, out)
            &&& after_the_deliveries(order, starts, msgs)
            &&& deliveries_arrived(s, msgs, events) && (forall|id: u32| !#[trigger] is_due(t, id))
                ==> {
                &&& forall|i: int|
                    0 <= i < msgs.len() && (#[trigger] msgs[i]).h.del ==> out.contains(msgs[i])
                &&& forall|id: u32| !#[trigger] waits(t, id)
                &&& forall|last: int|
                    #[trigger] is_awaited(starts, msgs, first, msgs.len() as int, last)
                        && t.inbox2_to_remove is None ==> is_ready_for(
                        t,
                        base.plus(msgs.len() as int),
                        last - msgs.len(),
                    )
            }
        }),
{
    let m = Model { base, starts, first, awaited, msgs, behind: lag(s, base), x: -s.n.steps_to(base) };
    let (order, c) = lemma_history(m, s, events);
    let (t, out) = history(s, events);
    if deliveries_arrived(s, msgs, events) && (forall|id: u32| !#[trigger] is_due(t, id)) {
        lemma_all_delivered(m, s, events, order, c);
        assert forall|i: int| 0 <= i < msgs.len() && (#[trigger] msgs[i]).h.del implies out.contains(
            msgs[i],
        ) by {
            assert(order.contains(i));
            let k = choose|k: int| 0 <= k < order.len() && order[k] == i;
            assert(out[k] == msgs[i]);
        }
        lemma_nothing_waits(m, t, order, c);
        assert forall|last: int|
            #[trigger] is_awaited(starts, msgs, first, msgs.len() as int, last)
                && t.inbox2_to_remove is None implies is_ready_for(
            t,
            base.plus(msgs.len() as int),
            last - msgs.len(),
        ) by {
            lemma_ready_for_next(m, t, order, c, last);
        }
    }
    order
}

/// Whether every message that promises delivery has arrived when its set was in the
/// window.
pub open spec fn deliveries_arrived(s: State, msgs: Seq<Letter>, events: Seq<Event>) -> bool {
    forall|i: int|
        0 <= i < msgs.len() && (#[trigger] msgs[i]).h.del ==> has_arrived(s, msgs, events, i)
}

/// The messages, and where the receiver stood at the beginning: `behind` steps before
/// them with its last set, and counted up to `x`.
ghost struct Model {
    base: ModOrd,
    starts: Seq<int>,
    first: int,
    awaited: Seq<int>,
    msgs: Seq<Letter>,
    behind: int,
    x: int,
}

impl Model {
    spec fn ok(self) -> bool {
        &&& is_mixed(self.base, self.starts, self.first, self.awaited, self.msgs)
        &&& self.first <= self.x <= 0
        &&& 0 <= self.behind
        &&& self.behind - self.first + self.msgs.len() < HALF
    }

    spec fn len(self) -> int {
        self.msgs.len() as int
    }

    /// How many deliveries of a set were handed out.
    spec fn handed(self, order: Seq<int>, q: int) -> int {
        count(self.len(), self.is_handed(order, q))
    }

    spec fn is_handed(self, order: Seq<int>, q: int) -> spec_fn(int) -> bool {
        |i: int| self.starts[i] == q && self.msgs[i].h.del && order.contains(i)
    }

    /// How far the receiver has counted.
    spec fn counted(self, order: Seq<int>, c: int) -> int {
        if order.len() == 0 {
            self.x
        } else {
            c + self.handed(order, c)
        }
    }

    /// What holds of a receiver that has handed out the messages `order`, where the last
    /// set starts with message `c`.
    spec fn tracks(self, s: State, order: Seq<int>, c: int) -> bool {
        &&& s.wf()
        &&& picks(order, self.len())
        &&& self.is_place(order, c)
        &&& s.largest_set_id_yielded == self.base.plus(c)
        &&& s.n == self.base.plus(self.counted(order, c))
        &&& self.is_sorted(order, c)
        &&& self.remembers(s, order, c)
        &&& self.holds(s, order)
    }

    spec fn is_place(self, order: Seq<int>, c: int) -> bool {
        if order.len() == 0 {
            c == -self.behind
        } else {
            0 <= c < self.len() && self.starts[c] == c
        }
    }

    spec fn is_sorted(self, order: Seq<int>, c: int) -> bool {
        &&& forall|i: int|
            0 <= i < c && i < self.len() && (#[trigger] self.msgs[i]).h.del ==> order.contains(i)
        &&& forall|k: int| 0 <= k < order.len() ==> self.starts[#[trigger] order[k]] <= c
        &&& after_the_deliveries(order, self.starts, self.msgs)
    }

    spec fn remembers(self, s: State, order: Seq<int>, c: int) -> bool {
        &&& forall|i: int|
            0 <= i < self.len() ==> (s.seen_before.contains((#[trigger] self.base.plus(i)).value)
                <==> (order.contains(i) && self.starts[i] == c))
        &&& forall|id: u32| #[trigger]
            s.seen_before.contains(id) ==> is_between(self.base, c, self.len(), id)
    }

    spec fn holds(self, s: State, order: Seq<int>) -> bool {
        &&& forall|id: u32| #[trigger]
            s.inbox.contains_key(id) ==> is_pending(self.base, self.msgs, order, id, s.inbox[id])
        &&& forall|id: u32| #[trigger]
            s.inbox2.contains_key(id) && s.inbox2_to_remove != Some(id) ==> is_pending(
                self.base,
                self.msgs,
                order,
                id,
                s.inbox2[id],
            )
        &&& s.inbox2_to_remove matches Some(id) ==> is_over(self.base, self.len(), order, id)
    }
}

/// Where `f` holds, `g` does; so `g` holds at least as often, and if it does not hold
/// more often, the two are the same.
pub proof fn lemma_count_within(len: int, f: spec_fn(int) -> bool, g: spec_fn(int) -> bool)
    requires
        forall|i: int| 0 <= i < len && #[trigger] f(i) ==> g(i),
    ensures
        0 <= count(len, f) <= count(len, g),
        count(len, f) >= count(len, g) ==> forall|i: int| 0 <= i < len && #[trigger] g(i) ==> f(i),
    decreases len,
{
    if len > 0 {
        lemma_count_within(len - 1, f, g);
        assert(f(len - 1) ==> g(len - 1));
    }
}

/// What holds for one number more holds once more.
proof fn lemma_count_more(len: int, f: spec_fn(int) -> bool, g: spec_fn(int) -> bool, i: int)
    requires
        0 <= i < len,
        !f(i),
        g(i),
        forall|j: int| 0 <= j < len && j != i ==> (#[trigger] f(j) <==> g(j)),
    ensures
        count(len, g) == count(len, f) + 1,
    decreases len,
{
    if i == len - 1 {
        lemma_count_same(len - 1, f, g);
    } else {
        lemma_count_more(len - 1, f, g, i);
        assert(f(len - 1) <==> g(len - 1));
    }
}

pub proof fn lemma_count_same(len: int, f: spec_fn(int) -> bool, g: spec_fn(int) -> bool)
    requires
        forall|j: int| 0 <= j < len ==> (#[trigger] f(j) <==> g(j)),
    ensures
        count(len, g) == count(len, f),
    decreases len,
{
    if len > 0 {
        lemma_count_same(len - 1, f, g);
        assert(f(len - 1) <==> g(len - 1));
    }
}

/// What holds only from `a` up to `b` holds at most that often.
pub proof fn lemma_count_range(len: int, f: spec_fn(int) -> bool, a: int, b: int)
    requires
        0 <= a <= b,
        forall|i: int| 0 <= i < len && #[trigger] f(i) ==> a <= i < b,
    ensures
        0 <= count(len, f) <= b - a,
        len <= a ==> count(len, f) == 0,
    decreases len,
{
    if len > 0 {
        if f(len - 1) {
            lemma_count_range(len - 1, f, a, len - 1);
        } else {
            lemma_count_range(len - 1, f, a, b);
        }
    }
}

/// What holds of some number holds at least once.
pub proof fn lemma_count_some(len: int, f: spec_fn(int) -> bool, i: int)
    requires
        0 <= i < len,
        f(i),
    ensures
        count(len, f) > 0,
    decreases len,
{
    lemma_count_range(len - 1, f, 0, len - 1);
    if i < len - 1 {
        lemma_count_some(len - 1, f, i);
    }
}

/// The deliveries of a set lie before the next set. Of those, no more were handed out
/// than there are, and if as many were, all were.
proof fn lemma_promises(m: Model, order: Seq<int>, q: int, next: int)
    requires
        m.ok(),
        0 <= q < next <= m.len(),
        m.starts[q] == q,
        next < m.len() ==> m.starts[next] == next,
    ensures
        0 <= m.handed(order, q) <= promised(m.starts, m.msgs, q) <= next - q,
        m.handed(order, q) == promised(m.starts, m.msgs, q) ==> forall|i: int|
            0 <= i < m.len() && m.starts[i] == q && (#[trigger] m.msgs[i]).h.del ==> order.contains(
                i,
            ),
{
    let f = m.is_handed(order, q);
    let g = promises(m.starts, m.msgs, q);
    lemma_count_within(m.len(), f, g);
    assert forall|i: int| 0 <= i < m.len() && #[trigger] g(i) implies q <= i < next by {
        lemma_start(m.starts, i);
        if i >= next && next < m.len() {
            assert(m.starts[next] <= m.starts[i]);
        }
    }
    lemma_count_range(m.len(), g, q, next);
    if m.handed(order, q) == promised(m.starts, m.msgs, q) {
        assert forall|i: int|
            0 <= i < m.len() && m.starts[i] == q && (#[trigger] m.msgs[i]).h.del implies order.contains(
            i,
        ) by {
            assert(g(i));
            assert(f(i));
        }
    }
}

/// A message of a set that promises a delivery makes the set promising.
proof fn lemma_promising(m: Model, i: int)
    requires
        m.ok(),
        0 <= i < m.len(),
        m.msgs[i].h.del,
    ensures
        is_promising(m.starts, m.msgs, m.starts[i]),
{
    lemma_start(m.starts, i);
    let q = m.starts[i];
    lemma_count_some(m.len(), promises(m.starts, m.msgs, q), i);
}

/// What a message waits for lies near the messages.
proof fn lemma_wait_bound(m: Model, start: int, wait: int)
    requires
        m.ok(),
        is_awaited(m.starts, m.msgs, m.first, start, wait),
    ensures
        m.first <= wait <= m.len(),
{
    if wait != m.first {
        let q = choose|q: int| #[trigger]
            is_promising(m.starts, m.msgs, q) && q < start && wait == q + promised(
                m.starts,
                m.msgs,
                q,
            );
        lemma_promises(m, seq![], q, m.len());
    }
}

/// How far is counted lies near the messages, and not before the last set.
proof fn lemma_counted_bound(m: Model, order: Seq<int>, c: int)
    requires
        m.ok(),
        m.is_place(order, c),
    ensures
        m.first <= m.counted(order, c) <= m.len(),
        order.len() > 0 ==> c <= m.counted(order, c),
        order.len() == 0 ==> m.counted(order, c) <= 0,
{
    if order.len() > 0 {
        lemma_promises(m, order, c, m.len());
    }
}

/// A message whose turn has come, comes after all deliveries of earlier sets.
proof fn lemma_turn_has_come(m: Model, order: Seq<int>, c: int, start: int, wait: int, j: int)
    requires
        m.ok(),
        m.is_place(order, c),
        m.is_sorted(order, c),
        is_awaited(m.starts, m.msgs, m.first, start, wait),
        wait <= m.counted(order, c),
        0 <= j < m.len(),
        m.msgs[j].h.del,
        m.starts[j] < start,
    ensures
        order.contains(j),
{
    let q = m.starts[j];
    lemma_start(m.starts, j);
    lemma_promising(m, j);
    lemma_promises(m, order, q, m.len());
    assert(q + promised(m.starts, m.msgs, q) <= wait);
    if order.len() == 0 {
        assert(false);
    } else if q > c {
        lemma_promises(m, order, c, q);
        assert(false);
    } else if q < c {
        if j >= c {
            assert(m.starts[c] <= m.starts[j]);
        }
        assert(m.msgs[j].h.del);
    } else {
        assert(m.handed(order, c) == promised(m.starts, m.msgs, c));
    }
}

/// What one more message makes of how many deliveries of a set were handed out.
proof fn lemma_handed_more(m: Model, order: Seq<int>, q: int, i: int)
    requires
        0 <= i < m.len(),
        !order.contains(i),
    ensures
        m.handed(order.push(i), q) == m.handed(order, q) + if m.starts[i] == q && m.msgs[i].h.del {
            1int
        } else {
            0int
        },
{
    lemma_pushed(order, i);
    let longer = order.push(i);
    let f = m.is_handed(order, q);
    let g = m.is_handed(longer, q);
    if m.starts[i] == q && m.msgs[i].h.del {
        lemma_count_more(m.len(), f, g, i);
    } else {
        lemma_count_same(m.len(), f, g);
    }
}

/// Nothing of a set behind the last one was handed out.
proof fn lemma_handed_none(m: Model, order: Seq<int>, c: int, q: int)
    requires
        picks(order, m.len()),
        forall|k: int| 0 <= k < order.len() ==> m.starts[#[trigger] order[k]] <= c,
        c < q,
    ensures
        m.handed(order, q) == 0,
{
    let f = m.is_handed(order, q);
    assert forall|i: int| 0 <= i < m.len() && #[trigger] f(i) implies 0 <= i < 0 by {
        let k = choose|k: int| 0 <= k < order.len() && order[k] == i;
        assert(m.starts[order[k]] <= c);
    }
    lemma_count_range(m.len(), f, 0, 0);
}

/// Where the last set starts when message `i` is handed out too.
spec fn place_after(m: Model, c: int, i: int) -> int {
    if m.starts[i] < c {
        c
    } else {
        m.starts[i]
    }
}

/// How handing out message `i` is counted.
proof fn lemma_yield_counts(m: Model, s: State, order: Seq<int>, c: int, i: int)
    requires
        m.ok(),
        m.tracks(s, order, c),
        0 <= i < m.len(),
        !order.contains(i),
        m.awaited[i] <= m.counted(order, c),
    ensures
        ({
            let h = m.msgs[i].h;
            let t = s.yielding(h.set_id, h.id, h.del);
            let d = place_after(m, c, i);
            &&& m.is_place(order.push(i), d)
            &&& t.largest_set_id_yielded == m.base.plus(d)
            &&& t.n == m.base.plus(m.counted(order.push(i), d))
            &&& m.starts[i] < c ==> !h.del
        }),
{
    let h = m.msgs[i].h;
    let q = m.starts[i];
    let before = m.counted(order, c);
    lemma_start(m.starts, i);
    lemma_counted_bound(m, order, c);
    lemma_offsets(m.base, c, q);
    lemma_offsets(m.base, before, q);
    if q < c {
        if i >= c {
            assert(m.starts[c] <= m.starts[i]);
        }
        assert(!h.del) by {
            if h.del {
                assert(m.msgs[i].h.del);
            }
        }
        lemma_handed_more(m, order, c, i);
    } else {
        lemma_handed_more(m, order, q, i);
        if q > c {
            lemma_handed_none(m, order, c, q);
            if order.len() > 0 {
                lemma_promises(m, order, c, q);
            }
        } else if order.len() == 0 {
            lemma_handed_none(m, order, c - 1, q);
        }
        let n = if before < q {
            q
        } else {
            before
        };
        assert(n == q + m.handed(order, q));
        law_steps_add_up(m.base, n, 1);
    }
}

/// Handing out message `i`, whose turn has come, is kept track of.
#[verifier::rlimit(40)]
#[verifier::spinoff_prover]
proof fn lemma_yield(m: Model, s: State, order: Seq<int>, c: int, i: int)
    requires
        m.ok(),
        m.tracks(s, order, c),
        0 <= i < m.len(),
        !order.contains(i),
        m.awaited[i] <= m.counted(order, c),
        !s.inbox.contains_key(m.base.plus(i).value),
        !s.inbox2.contains_key(m.base.plus(i).value),
    ensures
        m.tracks(
            s.yielding(m.msgs[i].h.set_id, m.msgs[i].h.id, m.msgs[i].h.del),
            order.push(i),
            place_after(m, c, i),
        ),
{
    let h = m.msgs[i].h;
    let t = s.yielding(h.set_id, h.id, h.del);
    let d = place_after(m, c, i);
    lemma_yield_counts(m, s, order, c, i);
    lemma_offsets(m.base, i, i);
    s.lemma_yielding_wf(h.set_id, h.id, h.del);
    lemma_picks_one_more(order, m.len(), i);
    lemma_yield_sorted(m, s, order, c, i);
    lemma_yield_remembered(m, s, order, c, i);
    lemma_yield_held(m, s, order, c, i);
}

proof fn lemma_yield_sorted(m: Model, s: State, order: Seq<int>, c: int, i: int)
    requires
        m.ok(),
        m.tracks(s, order, c),
        0 <= i < m.len(),
        !order.contains(i),
        m.awaited[i] <= m.counted(order, c),
    ensures
        m.is_sorted(order.push(i), place_after(m, c, i)),
{
    let longer = order.push(i);
    let d = place_after(m, c, i);
    lemma_pushed(order, i);
    lemma_start(m.starts, i);
    assert(is_awaited(m.starts, m.msgs, m.first, m.starts[i], m.awaited[i])) by {
        assert(m.msgs[i].h.id == m.base.plus(i));
    }
    assert forall|j: int|
        0 <= j < m.len() && (#[trigger] m.msgs[j]).h.del && m.starts[j] < m.starts[i] implies order.contains(
        j,
    ) by {
        lemma_turn_has_come(m, order, c, m.starts[i], m.awaited[i], j);
    }
    assert forall|j: int| 0 <= j < d && j < m.len() && (#[trigger] m.msgs[j]).h.del implies longer.contains(
        j,
    ) by {
        lemma_start(m.starts, j);
        if j >= c {
            if m.starts[j] >= m.starts[i] {
                assert(m.starts[j] <= m.starts[d]);
            }
        }
    }
    assert forall|k: int| 0 <= k < longer.len() implies m.starts[#[trigger] longer[k]] <= d by {
        if k < order.len() {
            assert(longer[k] == order[k]);
        }
    }
    assert forall|k: int, j: int|
        0 <= k < longer.len() && 0 <= j < m.len() && m.msgs[j].h.del && m.starts[j]
            < m.starts[#[trigger] longer[k]] implies comes_before(
        longer,
        k,
        #[trigger] m.msgs[j],
        j,
    ) by {
        if k < order.len() {
            assert(longer[k] == order[k]);
            assert(comes_before(order, k, m.msgs[j], j));
            let x = choose|x: int| 0 <= x < k && #[trigger] order[x] == j;
            assert(longer[x] == j);
        } else {
            assert(order.contains(j));
            let x = choose|x: int| 0 <= x < order.len() && order[x] == j;
            assert(longer[x] == j);
        }
    }
}

proof fn lemma_yield_remembered(m: Model, s: State, order: Seq<int>, c: int, i: int)
    requires
        m.ok(),
        m.tracks(s, order, c),
        0 <= i < m.len(),
        !order.contains(i),
    ensures
        m.remembers(
            s.yielding(m.msgs[i].h.set_id, m.msgs[i].h.id, m.msgs[i].h.del),
            order.push(i),
            place_after(m, c, i),
        ),
{
    let h = m.msgs[i].h;
    let t = s.yielding(h.set_id, h.id, h.del);
    let longer = order.push(i);
    let d = place_after(m, c, i);
    lemma_pushed(order, i);
    lemma_start(m.starts, i);
    lemma_offsets(m.base, c, m.starts[i]);
    assert forall|j: int| 0 <= j < m.len() implies (t.seen_before.contains(
        (#[trigger] m.base.plus(j)).value,
    ) <==> (longer.contains(j) && m.starts[j] == d)) by {
        lemma_offsets(m.base, i, j);
        if longer.contains(j) && j != i {
            let k = choose|k: int| 0 <= k < order.len() && order[k] == j;
            assert(m.starts[order[k]] <= c);
        }
    }
    assert forall|id: u32| #[trigger] t.seen_before.contains(id) implies is_between(
        m.base,
        d,
        m.len(),
        id,
    ) by {
        if m.starts[i] >= c && id == h.id.value {
            assert(d <= i < m.len() && id == m.base.plus(i).value);
        } else {
            assert(s.seen_before.contains(id));
        }
    }
}

proof fn lemma_yield_held(m: Model, s: State, order: Seq<int>, c: int, i: int)
    requires
        m.ok(),
        m.tracks(s, order, c),
        0 <= i < m.len(),
        !s.inbox.contains_key(m.base.plus(i).value),
        !s.inbox2.contains_key(m.base.plus(i).value),
    ensures
        m.holds(s.yielding(m.msgs[i].h.set_id, m.msgs[i].h.id, m.msgs[i].h.del), order.push(i)),
{
    let longer = order.push(i);
    assert forall|id: u32| #[trigger] s.inbox.contains_key(id) implies is_pending(
        m.base,
        m.msgs,
        longer,
        id,
        s.inbox[id],
    ) by {
        lemma_still_pending(m.base, m.msgs, order, i, id, s.inbox[id]);
    }
    assert forall|id: u32| #[trigger]
        s.inbox2.contains_key(id) && s.inbox2_to_remove != Some(id) implies is_pending(
        m.base,
        m.msgs,
        longer,
        id,
        s.inbox2[id],
    ) by {
        lemma_still_pending(m.base, m.msgs, order, i, id, s.inbox2[id]);
    }
    if let Some(id) = s.inbox2_to_remove {
        lemma_still_over(m.base, m.len(), order, i, id);
    }
}

/// A receiver that counts the same and of which less waits keeps track too.
proof fn lemma_part(m: Model, t: State, s: State, order: Seq<int>, c: int)
    requires
        m.tracks(t, order, c),
        s.wf(),
        is_part(s, t),
    ensures
        m.tracks(s, order, c),
{
    assert forall|id: u32| #[trigger]
        s.inbox2.contains_key(id) && s.inbox2_to_remove != Some(id) implies is_pending(
        m.base,
        m.msgs,
        order,
        id,
        s.inbox2[id],
    ) by {
        assert(t.inbox.contains_key(id) || t.inbox2.contains_key(id));
    }
}

/// What an event makes of a receiver that keeps track.
spec fn follows(m: Model, t: State, order: Seq<int>, e: Event, r: (Seq<int>, int)) -> bool {
    let (u, handed_out) = happens(t, e);
    &&& m.tracks(u, r.0, r.1)
    &&& match handed_out {
        Some(letter) => r.0.len() == order.len() + 1 && r.0.drop_last() == order && letter
            == m.msgs[r.0.last()],
        None => r.0 == order,
    }
    &&& forall|i: int|
        #![trigger m.base.plus(i)]
        0 <= i < m.len() && (order.contains(i) || waits(t, m.base.plus(i).value) || m.msgs[i].h.del
            && e == Event::Arrives(sealed(m.msgs[i])) && in_window(t, m.msgs[i]))
            ==> r.0.contains(i) || waits(u, m.base.plus(i).value)
}

/// A message that waits is known, and its turn has come if it is ready.
proof fn lemma_pending(m: Model, t: State, order: Seq<int>, c: int, id: u32, letter: Letter) -> (i: int)
    requires
        m.ok(),
        m.tracks(t, order, c),
        is_pending(m.base, m.msgs, order, id, letter),
    ensures
        0 <= i < m.len(),
        id == m.base.plus(i).value,
        letter == m.msgs[i],
        !order.contains(i),
        letter.h.wait_until.up_to(t.n) <==> m.awaited[i] <= m.counted(order, c),
{
    let i = choose|i: int|
        {
            &&& 0 <= i < m.msgs.len()
            &&& id == m.base.plus(i).value
            &&& letter == #[trigger] m.msgs[i]
            &&& !order.contains(i)
        };
    lemma_wait_bound(m, m.starts[i], m.awaited[i]);
    lemma_counted_bound(m, order, c);
    lemma_offsets(m.base, m.awaited[i], m.counted(order, c));
    i
}

/// Handing out message `i`, which has waited, is followed.
proof fn lemma_handed_out(m: Model, t: State, order: Seq<int>, e: Event, i: int, d: int)
    requires
        m.ok(),
        !(e is Arrives),
        happens(t, e).1 == Some(m.msgs[i]),
        m.tracks(happens(t, e).0, order.push(i), d),
        forall|id: u32| #[trigger]
            waits(t, id) && id != m.base.plus(i).value ==> waits(happens(t, e).0, id),
        0 <= i < m.len(),
    ensures
        follows(m, t, order, e, (order.push(i), d)),
{
    lemma_pushed(order, i);
    assert forall|j: int|
        #![trigger m.base.plus(j)]
        0 <= j < m.len() && (order.contains(j) || waits(t, m.base.plus(j).value)) implies order.push(
        i,
    ).contains(j) || waits(happens(t, e).0, m.base.plus(j).value) by {
        lemma_offsets(m.base, i, j);
    }
}

proof fn lemma_inline(m: Model, t: State, order: Seq<int>, c: int, id: u32) -> (r: (Seq<int>, int))
    requires
        m.ok(),
        m.tracks(t, order, c),
        is_ready(t.inbox, id, t.n),
    ensures
        follows(m, t, order, Event::Inline(id), r),
{
    let i = lemma_pending(m, t, order, c, id, t.inbox[id]);
    let s = t.taken_out(id);
    t.lemma_taken_out_wf(id);
    lemma_taken_out(t, id);
    lemma_part(m, t, s, order, c);
    lemma_yield(m, s, order, c, i);
    let d = place_after(m, c, i);
    lemma_handed_out(m, t, order, Event::Inline(id), i, d);
    (order.push(i), d)
}

#[verifier::rlimit(40)]
#[verifier::spinoff_prover]
proof fn lemma_stored(m: Model, t: State, order: Seq<int>, c: int, id: u32) -> (r: (Seq<int>, int))
    requires
        m.ok(),
        m.tracks(t, order, c),
        t.inbox2_to_remove is None,
        is_ready(t.inbox2, id, t.n),
    ensures
        follows(m, t, order, Event::Stored(id), r),
{
    let i = lemma_pending(m, t, order, c, id, t.inbox2[id]);
    let s = State { inbox2: t.inbox2.remove(id), ..t };
    lemma_lent_out(t, id);
    lemma_part(m, t, s, order, c);
    lemma_yield(m, s, order, c, i);
    t.lemma_yields_stored_wf(id);
    lemma_pushed(order, i);
    let d = place_after(m, c, i);
    let h = m.msgs[i].h;
    let u = s.yielding(h.set_id, h.id, h.del);
    let w = t.yields_stored(id);
    assert(is_over(m.base, m.len(), order.push(i), id)) by {
        assert(id == m.base.plus(i).value);
    }
    lemma_lent(m, u, w, order.push(i), d, id);
    lemma_handed_out(m, t, order, Event::Stored(id), i, d);
    (order.push(i), d)
}

/// A message that is over and still lent out is not in the way.
proof fn lemma_lent(m: Model, u: State, w: State, order: Seq<int>, c: int, id: u32)
    requires
        m.tracks(u, order, c),
        is_over(m.base, m.len(), order, id),
        u.inbox2_to_remove is None,
        w.wf(),
        w == (State { inbox2: w.inbox2, inbox2_to_remove: Some(id), ..u }),
        forall|x: u32| #[trigger]
            w.inbox2.contains_key(x) && x != id ==> u.inbox2.contains_key(x) && u.inbox2[x]
                == w.inbox2[x],
    ensures
        m.tracks(w, order, c),
{
}

/// No two messages have the same datagram.
proof fn lemma_sealed(m: Model, i: int, j: int)
    requires
        m.ok(),
        0 <= i < m.len(),
        0 <= j < m.len(),
        sealed(m.msgs[i]) == sealed(m.msgs[j]),
    ensures
        i == j,
{
    law_datagram_round_trip(m.msgs[i].h, m.msgs[i].payload);
    law_datagram_round_trip(m.msgs[j].h, m.msgs[j].payload);
    lemma_offsets(m.base, i, j);
}

/// Putting a message aside is kept track of.
proof fn lemma_put_aside(m: Model, w: State, order: Seq<int>, c: int, i: int)
    requires
        m.tracks(w, order, c),
        0 <= i < m.len(),
        !order.contains(i),
        (State { inbox: w.inbox.insert(m.base.plus(i).value, m.msgs[i]), ..w }).wf(),
    ensures
        m.tracks(
            State { inbox: w.inbox.insert(m.base.plus(i).value, m.msgs[i]), ..w },
            order,
            c,
        ),
{
    let v = m.base.plus(i).value;
    let u = State { inbox: w.inbox.insert(v, m.msgs[i]), ..w };
    assert(is_pending(m.base, m.msgs, order, v, m.msgs[i]));
    assert forall|id: u32| #[trigger] u.inbox.contains_key(id) implies is_pending(
        m.base,
        m.msgs,
        order,
        id,
        u.inbox[id],
    ) by {
        if id != v {
            assert(w.inbox.contains_key(id));
        }
    }
}

/// A message that is on record was handed out or waits.
proof fn lemma_known(m: Model, s: State, order: Seq<int>, c: int, i: int)
    requires
        m.ok(),
        m.tracks(s, order, c),
        0 <= i < m.len(),
        s.knows(m.base.plus(i)),
    ensures
        order.contains(i) || waits(s, m.base.plus(i).value),
{
    let v = m.base.plus(i).value;
    if !order.contains(i) && !waits(s, v) {
        assert(s.inbox2_to_remove == Some(v));
        let j = choose|j: int|
            -HALF <= j < m.len() && v == (#[trigger] m.base.plus(j)).value && (0 <= j
                ==> order.contains(j));
        lemma_apart(m.base, i, j);
        assert(false);
    }
}

#[verifier::rlimit(40)]
#[verifier::spinoff_prover]
proof fn lemma_arrives(m: Model, t: State, order: Seq<int>, c: int, i: int) -> (r: (Seq<int>, int))
    requires
        m.ok(),
        m.tracks(t, order, c),
        0 <= i < m.len(),
        can_happen(t, Event::Arrives(sealed(m.msgs[i]))),
    ensures
        follows(m, t, order, Event::Arrives(sealed(m.msgs[i])), r),
{
    let h = m.msgs[i].h;
    let d = sealed(m.msgs[i]);
    let n = m.counted(order, c);
    law_datagram_round_trip(h, m.msgs[i].payload);
    assert(opened(d) == m.msgs[i]);
    assert forall|j: int| 0 <= j < m.msgs.len() && sealed(#[trigger] m.msgs[j]) == d implies j
        == i by {
        lemma_sealed(m, i, j);
    }
    t.lemma_takes_in_wf(d);
    lemma_start(m.starts, i);
    lemma_wait_bound(m, m.starts[i], m.awaited[i]);
    lemma_counted_bound(m, order, c);
    lemma_offsets(m.base, c, m.starts[i]);
    lemma_offsets(m.base, n, m.awaited[i]);
    lemma_offsets(m.base, i, i);
    let s = t.acknowledged(h.ack);
    lemma_part(m, t, s, order, c);
    if !in_window(t, m.msgs[i]) {
        (order, c)
    } else if s.knows(h.id) {
        lemma_known(m, s, order, c, i);
        (order, c)
    } else {
        let w = State { buf_free_start: s.buf_free_start + m.msgs[i].payload.len(), ..s };
        lemma_part(m, s, w, order, c);
        if order.contains(i) {
            let k = choose|k: int| 0 <= k < order.len() && order[k] == i;
            assert(m.starts[order[k]] <= c);
        }
        if m.starts[i] < c {
            if i >= c {
                assert(m.starts[c] <= m.starts[i]);
            }
            assert(h.del ==> order.contains(i)) by {
                if h.del {
                    assert(m.msgs[i].h.del);
                }
            }
            (order, c)
        } else if n < m.awaited[i] {
            lemma_put_aside(m, w, order, c, i);
            (order, c)
        } else {
            assert(!order.contains(i));
            lemma_yield(m, w, order, c, i);
            lemma_pushed(order, i);
            (order.push(i), place_after(m, c, i))
        }
    }
}

proof fn lemma_event(m: Model, t: State, order: Seq<int>, c: int, e: Event) -> (r: (Seq<int>, int))
    requires
        m.ok(),
        m.tracks(t, order, c),
        can_happen(t, e),
        e matches Event::Arrives(d) ==> is_one_of(m.msgs, d),
    ensures
        follows(m, t, order, e, r),
{
    match e {
        Event::Arrives(d) => {
            let i = choose|i: int| 0 <= i < m.msgs.len() && d == sealed(#[trigger] m.msgs[i]);
            lemma_arrives(m, t, order, c, i)
        },
        Event::Inline(id) => lemma_inline(m, t, order, c, id),
        Event::Stored(id) => lemma_stored(m, t, order, c, id),
        _ => {
            lemma_event_wf(t, e);
            lemma_part(m, t, happens(t, e).0, order, c);
            (order, c)
        },
    }
}

/// A receiver that is ready for the messages keeps track of them.
proof fn lemma_begins(m: Model, s: State)
    requires
        m.ok(),
        is_ready_for(s, m.base, m.first),
        m.behind == lag(s, m.base),
        m.x == -s.n.steps_to(m.base),
    ensures
        m.tracks(s, seq![], -m.behind),
{
    assert forall|id: u32| #[trigger] s.seen_before.contains(id) implies is_between(
        m.base,
        -m.behind,
        m.len(),
        id,
    ) && forall|i: int| 0 <= i < m.len() ==> (#[trigger] m.base.plus(i)).value != id by {
        let j = -(ModOrd { value: id }).steps_to(m.base);
        assert(id == m.base.plus(j).value);
        assert(-m.behind <= j < 0);
    }
    if let Some(id) = s.inbox2_to_remove {
        let j = -(ModOrd { value: id }).steps_to(m.base);
        assert(id == m.base.plus(j).value);
        assert(is_over(m.base, m.len(), seq![], id));
    }
    assert forall|id: u32| !s.inbox.contains_key(id) by {
        assert(!waits(s, id));
    }
    assert forall|id: u32| #[trigger] s.inbox2.contains_key(id) implies s.inbox2_to_remove == Some(
        id,
    ) by {
        assert(!waits(s, id));
    }
    assert(s.largest_set_id_yielded == m.base.plus(-m.behind));
    assert(s.n == m.base.plus(m.x));
}

/// Whatever happens, the receiver keeps track.
#[verifier::rlimit(40)]
#[verifier::spinoff_prover]
proof fn lemma_history(m: Model, s: State, events: Seq<Event>) -> (r: (Seq<int>, int))
    requires
        m.ok(),
        is_ready_for(s, m.base, m.first),
        m.behind == lag(s, m.base),
        m.x == -s.n.steps_to(m.base),
        possible(s, events),
        only_brings(m.msgs, arrivals(events)),
    ensures
        ({
            let (t, out) = history(s, events);
            &&& m.tracks(t, r.0, r.1)
            &&& in_order(r.0, m.msgs, out)
            &&& forall|i: int|
                0 <= i < m.len() && m.msgs[i].h.del && has_arrived(s, m.msgs, events, i)
                    ==> r.0.contains(i) || waits(t, (#[trigger] m.base.plus(i)).value)
        }),
    decreases events.len(),
{
    if events.len() == 0 {
        lemma_begins(m, s);
        (seq![], -m.behind)
    } else {
        let earlier = events.drop_last();
        assert forall|k: int| 0 <= k < arrivals(earlier).len() implies is_one_of(
            m.msgs,
            #[trigger] arrivals(earlier)[k],
        ) by {
            assert(arrivals(earlier)[k] == arrivals(events)[k]);
        }
        let (order, c) = lemma_history(m, s, earlier);
        let (t, out) = history(s, earlier);
        let e = events.last();
        if let Event::Arrives(d) = e {
            assert(arrivals(events)[arrivals(events).len() - 1] == d);
        }
        let r = lemma_event(m, t, order, c, e);
        let (u, handed_out) = happens(t, e);
        assert forall|i: int|
            0 <= i < m.len() && m.msgs[i].h.del && has_arrived(s, m.msgs, events, i) implies r.0.contains(
            i,
        ) || waits(u, (#[trigger] m.base.plus(i)).value) by {
            let k = choose|k: int| #[trigger] arrives_at(s, m.msgs, events, i, k);
            if k < earlier.len() {
                assert(earlier.take(k) =~= events.take(k));
                assert(arrives_at(s, m.msgs, earlier, i, k));
                assert(order.contains(i) || waits(t, m.base.plus(i).value));
            } else {
                assert(events.take(k) =~= earlier);
            }
        }
        r
    }
}

/// What is waited for was counted, once all deliveries before were handed out.
proof fn lemma_counted_enough(m: Model, order: Seq<int>, c: int, start: int, wait: int)
    requires
        m.ok(),
        m.is_place(order, c),
        is_awaited(m.starts, m.msgs, m.first, start, wait),
        forall|k: int| 0 <= k < order.len() ==> m.starts[#[trigger] order[k]] <= c,
        picks(order, m.len()),
        forall|i: int|
            0 <= i < m.len() && (#[trigger] m.msgs[i]).h.del && m.starts[i] < start ==> order.contains(
                i,
            ),
    ensures
        wait <= m.counted(order, c),
{
    lemma_counted_bound(m, order, c);
    if wait != m.first {
        let q = choose|q: int| #[trigger]
            is_promising(m.starts, m.msgs, q) && q < start && wait == q + promised(
                m.starts,
                m.msgs,
                q,
            );
        let g = promises(m.starts, m.msgs, q);
        let f = m.is_handed(order, q);
        assert forall|i: int| 0 <= i < m.len() && #[trigger] g(i) implies f(i) by {
            assert(m.msgs[i].h.del);
        }
        lemma_count_within(m.len(), g, f);
        lemma_promises(m, order, q, m.len());
        assert(m.handed(order, q) == promised(m.starts, m.msgs, q));
        if order.len() == 0 {
            lemma_handed_none(m, order, q - 1, q);
        } else if c < q {
            lemma_handed_none(m, order, c, q);
        } else if q < c {
            lemma_promises(m, order, q, c);
        }
    }
}

/// Once all that promise delivery have arrived and nothing is due, all were handed out.
proof fn lemma_all_delivered(m: Model, s: State, events: Seq<Event>, order: Seq<int>, c: int)
    requires
        m.ok(),
        m.tracks(history(s, events).0, order, c),
        deliveries_arrived(s, m.msgs, events),
        forall|id: u32| !#[trigger] is_due(history(s, events).0, id),
        forall|i: int|
            0 <= i < m.len() && m.msgs[i].h.del && has_arrived(s, m.msgs, events, i)
                ==> order.contains(i) || waits(
                history(s, events).0,
                (#[trigger] m.base.plus(i)).value,
            ),
    ensures
        forall|i: int| 0 <= i < m.len() && (#[trigger] m.msgs[i]).h.del ==> order.contains(i),
{
    let t = history(s, events).0;
    assert forall|i: int| 0 <= i < m.len() && (#[trigger] m.msgs[i]).h.del implies order.contains(
        i,
    ) by {
        lemma_delivered(m, t, order, c, i);
    }
}

/// A message that promises delivery and waits only if it was not handed out, was handed
/// out where nothing is due.
proof fn lemma_delivered(m: Model, t: State, order: Seq<int>, c: int, i: int)
    requires
        m.ok(),
        m.tracks(t, order, c),
        forall|id: u32| !#[trigger] is_due(t, id),
        forall|j: int|
            0 <= j < m.len() && m.msgs[j].h.del ==> order.contains(j) || waits(
                t,
                (#[trigger] m.base.plus(j)).value,
            ),
        0 <= i < m.len(),
        m.msgs[i].h.del,
    ensures
        order.contains(i),
    decreases i,
{
    lemma_start(m.starts, i);
    assert forall|j: int|
        0 <= j < m.len() && (#[trigger] m.msgs[j]).h.del && m.starts[j] < m.starts[i] implies order.contains(
        j,
    ) by {
        lemma_start(m.starts, j);
        if j >= i {
            assert(m.starts[i] <= m.starts[j]);
        }
        lemma_delivered(m, t, order, c, j);
    }
    if !order.contains(i) {
        let v = m.base.plus(i).value;
        assert(waits(t, v));
        lemma_counted_enough(m, order, c, m.starts[i], m.awaited[i]);
        let j = lemma_pending(m, t, order, c, v, waiting(t, v));
        lemma_offsets(m.base, i, j);
        assert(is_due(t, v));
        assert(false);
    }
}

/// Once all deliveries were handed out and nothing is due, nothing waits.
proof fn lemma_nothing_waits(m: Model, t: State, order: Seq<int>, c: int)
    requires
        m.ok(),
        m.tracks(t, order, c),
        forall|id: u32| !#[trigger] is_due(t, id),
        forall|i: int| 0 <= i < m.len() && (#[trigger] m.msgs[i]).h.del ==> order.contains(i),
    ensures
        forall|id: u32| !#[trigger] waits(t, id),
{
    assert forall|id: u32| !#[trigger] waits(t, id) by {
        if waits(t, id) {
            let i = lemma_pending(m, t, order, c, id, waiting(t, id));
            assert(m.msgs[i].h.id == m.base.plus(i));
            lemma_counted_enough(m, order, c, m.starts[i], m.awaited[i]);
            assert(is_due(t, id));
        }
    }
}

/// Then the receiver is ready for what follows.
proof fn lemma_ready_for_next(m: Model, t: State, order: Seq<int>, c: int, last: int)
    requires
        m.ok(),
        m.tracks(t, order, c),
        forall|id: u32| !#[trigger] waits(t, id),
        forall|i: int| 0 <= i < m.len() && (#[trigger] m.msgs[i]).h.del ==> order.contains(i),
        is_awaited(m.starts, m.msgs, m.first, m.len(), last),
        t.inbox2_to_remove is None,
    ensures
        is_ready_for(t, m.base.plus(m.len()), last - m.len()),
{
    let n = m.counted(order, c);
    let len = m.len();
    lemma_counted_enough(m, order, c, len, last);
    lemma_counted_bound(m, order, c);
    lemma_wait_bound(m, len, last);
    lemma_offsets(m.base, n, len);
    lemma_offsets(m.base, c, len);
    law_steps_add_up(m.base, n, len - n);
    assert(t.n.steps_to(m.base.plus(len)) == len - n);
    assert forall|id: u32| #[trigger] t.seen_before.contains(id) implies
        t.largest_set_id_yielded.up_to(ModOrd { value: id }) && (ModOrd { value: id }).before(
        m.base.plus(len),
    ) by {
        let i = choose|i: int| c <= i < len && id == (#[trigger] m.base.plus(i)).value;
        lemma_offsets(m.base, c, i);
        lemma_offsets(m.base, i, len);
        assert(ModOrd { value: id } == m.base.plus(i));
    }
}

/// A message that has arrived has arrived in the window, if it is large enough for all
/// messages.
pub proof fn lemma_mixed_in_window(
    base: ModOrd,
    starts: Seq<int>,
    first: int,
    awaited: Seq<int>,
    msgs: Seq<Letter>,
    s: State,
    events: Seq<Event>,
    i: int,
)
    requires
        is_mixed(base, starts, first, awaited, msgs),
        is_ready_for(s, base, first),
        lag(s, base) - first + msgs.len() < HALF,
        possible(s, events),
        only_brings(msgs, arrivals(events)),
        forall|j: int| 0 <= j < starts.len() ==> lag(s, base) + #[trigger] starts[j]
            <= s.window_size,
        0 <= i < msgs.len(),
        arrivals(events).contains(sealed(msgs[i])),
    ensures
        has_arrived(s, msgs, events, i),
    decreases events.len(),
{
    let d = sealed(msgs[i]);
    let earlier = events.drop_last();
    let before = arrivals(earlier);
    let all = arrivals(events);
    assert forall|k: int| 0 <= k < before.len() implies is_one_of(msgs, #[trigger] before[k]) by {
        assert(before[k] == all[k]);
    }
    if before.contains(d) {
        lemma_mixed_in_window(base, starts, first, awaited, msgs, s, earlier, i);
        let k = choose|k: int| #[trigger] arrives_at(s, msgs, earlier, i, k);
        assert(earlier.take(k) =~= events.take(k));
        assert(arrives_at(s, msgs, events, i, k));
    } else {
        let k = choose|k: int| 0 <= k < all.len() && all[k] == d;
        if k < before.len() {
            assert(before[k] == d);
        }
        assert(events.last() == Event::Arrives(d));
        let m = Model {
            base,
            starts,
            first,
            awaited,
            msgs,
            behind: lag(s, base),
            x: -s.n.steps_to(base),
        };
        let (order, c) = lemma_history(m, s, earlier);
        lemma_sizes_stay(s, earlier);
        lemma_start(starts, i);
        lemma_offsets(base, c, starts[i]);
        if c > 0 {
            assert(lag(s, base) + starts[c] <= s.window_size);
        }
        let last = events.len() - 1;
        assert(events.take(last) =~= earlier);
        assert(arrives_at(s, msgs, events, i, last));
    }
}

} // verus!
