//! What a receiver makes of messages that arrive in any order and more than once.
//!
//! All messages here promise delivery. They are numbered from 0, as they were
//! sent; `starts[i]` is the number of the first message of the set that message
//! `i` belongs to.

use crate::config::Guarantee;
use crate::error::Error;
use crate::history::{
    arrivals, can_happen, happens, history, lemma_event_wf, lemma_sizes_stay, opened,
    possible, Event,
};
use crate::laws::{law_datagram_round_trip, law_steps_add_up};
use crate::mod_ord::{ModOrd, HALF, MODULUS};
use crate::once::waits;
use crate::state::{
    datagram, hearing, hears_all, is_ready, set_header, some_ready, Letter, Reception, State,
};
use crate::udp::UdpLike;
use vstd::prelude::*;
use vstd::set_lib::{lemma_int_range, lemma_len_subset, lemma_subset_equality, set_int_range};

verus! {

/// Each message belongs to the set of the one before it, or starts a set.
pub open spec fn in_sets(starts: Seq<int>) -> bool {
    &&& starts.len() > 0 ==> starts[0] == 0
    &&& forall|i: int|
        0 < i < starts.len() ==> #[trigger] starts[i] == i || starts[i] == starts[i - 1]
}

/// The messages are numbered from `base` on, and each set waits for all messages
/// before it.
pub open spec fn orderly(base: ModOrd, starts: Seq<int>, msgs: Seq<Letter>) -> bool {
    &&& base.ordinary()
    &&& starts.len() == msgs.len()
    &&& in_sets(starts)
    &&& forall|i: int|
        0 <= i < msgs.len() ==> {
            &&& (#[trigger] msgs[i]).h.id == base.plus(i)
            &&& msgs[i].h.set_id == base.plus(starts[i])
            &&& msgs[i].h.wait_until == base.plus(starts[i])
            &&& msgs[i].h.del
        }
}

/// The messages of a set that `sender` sends next, each with a promise of
/// delivery.
pub open spec fn set_of(sender: State, payloads: Seq<Seq<u8>>) -> Seq<Letter> {
    Seq::new(
        payloads.len(),
        |j: int|
            Letter {
                h: set_header(
                    sender,
                    sender.next_id,
                    sender.wait_until,
                    j as u32,
                    Guarantee::Delivery,
                ),
                payload: payloads[j],
            },
    )
}

/// Sets of messages that promise delivery, sent one after the other, are orderly:
/// a set goes on where the one before it ended.
pub proof fn law_sent_sets_are_orderly(
    base: ModOrd,
    starts: Seq<int>,
    msgs: Seq<Letter>,
    sender: State,
    payloads: Seq<Seq<u8>>,
)
    requires
        orderly(base, starts, msgs),
        sender.next_id == base.plus(msgs.len() as int),
        sender.wait_until == base.plus(msgs.len() as int),
        0 < payloads.len() <= u32::MAX,
    ensures
        ({
            let longer = starts + Seq::new(payloads.len(), |j: int| msgs.len() as int);
            let all = msgs + set_of(sender, payloads);
            let after = sender.after_set(sender.next_id, payloads.len() as u32, 0);
            &&& orderly(base, longer, all)
            &&& after.next_id == base.plus(all.len() as int)
            &&& after.wait_until == base.plus(all.len() as int)
        }),
{
    let longer = starts + Seq::new(payloads.len(), |j: int| msgs.len() as int);
    let all = msgs + set_of(sender, payloads);
    assert forall|i: int| 0 < i < longer.len() implies #[trigger] longer[i] == i || longer[i]
        == longer[i - 1] by {
        if i < starts.len() {
            assert(longer[i] == starts[i] && longer[i - 1] == starts[i - 1]);
        }
    }
    assert forall|i: int| 0 <= i < all.len() implies {
        &&& (#[trigger] all[i]).h.id == base.plus(i)
        &&& all[i].h.set_id == base.plus(longer[i])
        &&& all[i].h.wait_until == base.plus(longer[i])
        &&& all[i].h.del
    } by {
        if i < msgs.len() {
            assert(all[i] == msgs[i]);
        } else {
            law_steps_add_up(base, msgs.len() as int, i - msgs.len());
        }
    }
    law_steps_add_up(base, msgs.len() as int, payloads.len() as int);
    law_steps_add_up(base.plus(all.len() as int), 0, 0);
}

/// The datagram of a message.
pub open spec fn sealed(letter: Letter) -> Seq<u8> {
    datagram(letter.h, letter.payload)
}

/// Whether a datagram is that of one of the messages.
pub open spec fn is_one_of(msgs: Seq<Letter>, d: Seq<u8>) -> bool {
    exists|i: int| 0 <= i < msgs.len() && d == sealed(#[trigger] msgs[i])
}

/// Nothing but the messages arrives.
pub open spec fn only_brings(msgs: Seq<Letter>, arrived: Seq<Seq<u8>>) -> bool {
    forall|k: int| 0 <= k < arrived.len() ==> is_one_of(msgs, #[trigger] arrived[k])
}

/// Whether message `i` has arrived at a time when its set was in the window.
pub open spec fn has_arrived(s: State, msgs: Seq<Letter>, events: Seq<Event>, i: int) -> bool {
    exists|k: int| #[trigger] arrives_at(s, msgs, events, i, k)
}

/// Whether event `k` is the arrival of message `i`, and the set of the message is
/// in the window then.
pub open spec fn arrives_at(
    s: State,
    msgs: Seq<Letter>,
    events: Seq<Event>,
    i: int,
    k: int,
) -> bool {
    &&& 0 <= k < events.len()
    &&& events[k] == Event::Arrives(sealed(msgs[i]))
    &&& in_window(history(s, events.take(k)).0, msgs[i])
}

/// Whether the set of a message is in the window.
pub open spec fn in_window(s: State, letter: Letter) -> bool {
    s.largest_set_id_yielded.distance(letter.h.set_id) <= s.window_size
}

/// A receiver that expects `base` next and holds nothing: no message waits, and
/// what is remembered or still lent out has an older number.
pub open spec fn expects(s: State, base: ModOrd) -> bool {
    &&& s.wf()
    &&& s.n == base
    &&& s.largest_set_id_yielded.up_to(base)
    &&& forall|id: u32| !#[trigger] waits(s, id)
    &&& forall|id: u32| #[trigger]
        s.seen_before.contains(id) ==> s.largest_set_id_yielded.up_to(ModOrd { value: id }) && (
        ModOrd { value: id }).before(base)
    &&& s.inbox2_to_remove matches Some(id) ==> (ModOrd { value: id }).before(base)
}

/// How far the set that the receiver is at lies behind `base`.
pub open spec fn lag(s: State, base: ModOrd) -> int {
    s.largest_set_id_yielded.steps_to(base)
}

/// The numbers of some messages, without repetition.
pub open spec fn picks(order: Seq<int>, len: int) -> bool {
    &&& order.no_duplicates()
    &&& forall|k: int| 0 <= k < order.len() ==> 0 <= #[trigger] order[k] < len
}

/// What is handed out is the messages `order`, in this order.
pub open spec fn in_order(order: Seq<int>, msgs: Seq<Letter>, out: Seq<Letter>) -> bool {
    &&& out.len() == order.len()
    &&& forall|k: int| 0 <= k < out.len() ==> #[trigger] out[k] == msgs[order[k]]
}

/// No message comes before one of an earlier set.
pub open spec fn sets_in_order(order: Seq<int>, starts: Seq<int>) -> bool {
    forall|k: int, l: int|
        0 <= k < l < order.len() ==> starts[#[trigger] order[k]] <= starts[#[trigger] order[l]]
}

/// Only messages that were sent are handed out, and as they were sent.
pub open spec fn genuine(out: Seq<Letter>, msgs: Seq<Letter>) -> bool {
    forall|k: int| 0 <= k < out.len() ==> msgs.contains(#[trigger] out[k])
}

/// No message is handed out twice.
pub open spec fn without_repetition(out: Seq<Letter>) -> bool {
    forall|k: int, l: int|
        0 <= k < l < out.len() ==> (#[trigger] out[k]).h.id != (#[trigger] out[l]).h.id
}

/// No message is handed out before one of an earlier set.
pub open spec fn set_by_set(out: Seq<Letter>) -> bool {
    forall|k: int, l: int|
        0 <= k < l < out.len() ==> (#[trigger] out[k]).h.set_id.up_to(
            (#[trigger] out[l]).h.set_id,
        )
}

/// Every message is handed out.
pub open spec fn complete(out: Seq<Letter>, msgs: Seq<Letter>) -> bool {
    forall|i: int| 0 <= i < msgs.len() ==> out.contains(#[trigger] msgs[i])
}

/// Whether every message has arrived in the window, and none of those put aside
/// is ready.
pub open spec fn has_settled(s: State, msgs: Seq<Letter>, events: Seq<Event>) -> bool {
    let t = history(s, events).0;
    &&& forall|i: int| 0 <= i < msgs.len() ==> #[trigger] has_arrived(s, msgs, events, i)
    &&& !some_ready(t.inbox, t.n)
    &&& !some_ready(t.returned().inbox2, t.n)
}

/// The messages arrive in any order, and any number of times. Then those that are
/// handed out are ones that were sent, none is handed out twice, and none before
/// one of an earlier set. Once every message has arrived in the window and none of
/// those put aside is ready, every message was handed out; and once nothing is lent
/// out either, the receiver expects what follows the messages. The messages are
/// handed out as `order` says.
pub proof fn law_jumbled_messages_are_sorted(
    base: ModOrd,
    starts: Seq<int>,
    msgs: Seq<Letter>,
    s: State,
    events: Seq<Event>,
) -> (order: Seq<int>)
    requires
        orderly(base, starts, msgs),
        expects(s, base),
        lag(s, base) + msgs.len() < HALF,
        possible(s, events),
        only_brings(msgs, arrivals(events)),
    ensures
        ({
            let (t, out) = history(s, events);
            &&& genuine(out, msgs)
            &&& without_repetition(out)
            &&& set_by_set(out)
            &&& picks(order, msgs.len() as int)
            &&& in_order(order, msgs, out)
            &&& sets_in_order(order, starts)
            &&& has_settled(s, msgs, events) ==> {
                &&& complete(out, msgs)
                &&& order.len() == msgs.len()
                &&& t.inbox2_to_remove is None ==> expects(t, base.plus(msgs.len() as int))
            }
        }),
{
    let (order, c) = lemma_history(base, starts, msgs, s, events);
    let (t, out) = history(s, events);
    let behind = lag(s, base);
    lemma_out_sorted(base, starts, msgs, behind, t, order, c, out);
    if has_settled(s, msgs, events) {
        lemma_all_out(base, starts, msgs, behind, s, events, order, c);
        assert forall|i: int| 0 <= i < msgs.len() implies out.contains(#[trigger] msgs[i]) by {
            assert(order.contains(i));
            let k = choose|k: int| 0 <= k < order.len() && order[k] == i;
            assert(out[k] == msgs[i]);
        }
        lemma_all_picked(order, msgs.len() as int);
        if t.inbox2_to_remove is None {
            lemma_expects_next(base, starts, msgs, behind, t, order, c);
        }
    }
    order
}

/// Of a receiver that has handed out all messages, nothing waits, and it expects
/// what follows.
proof fn lemma_expects_next(
    base: ModOrd,
    starts: Seq<int>,
    msgs: Seq<Letter>,
    behind: int,
    t: State,
    order: Seq<int>,
    c: int,
)
    requires
        base.ordinary(),
        behind + msgs.len() < HALF,
        keeps_track(base, starts, msgs, behind, t, order, c),
        order.len() == msgs.len(),
        t.inbox2_to_remove is None,
        forall|i: int| 0 <= i < msgs.len() ==> #[trigger] order.contains(i),
    ensures
        expects(t, base.plus(msgs.len() as int)),
{
    let m = msgs.len() as int;
    lemma_offsets(base, c, m);
    assert forall|id: u32| !#[trigger] waits(t, id) by {
        if t.inbox.contains_key(id) {
            assert(is_pending(base, msgs, order, id, t.inbox[id]));
        }
        if t.inbox2.contains_key(id) {
            assert(is_pending(base, msgs, order, id, t.inbox2[id]));
        }
    }
    assert forall|id: u32| #[trigger] t.seen_before.contains(id) implies
        t.largest_set_id_yielded.up_to(ModOrd { value: id }) && (ModOrd { value: id }).before(
        base.plus(m),
    ) by {
        let i = choose|i: int| c <= i < m && id == (#[trigger] base.plus(i)).value;
        lemma_offsets(base, c, i);
        lemma_offsets(base, i, m);
        assert(ModOrd { value: id } == base.plus(i));
    }
}

/// If all numbers are picked, as many are picked as there are.
proof fn lemma_all_picked(order: Seq<int>, len: int)
    requires
        picks(order, len),
        0 <= len,
        forall|i: int| 0 <= i < len ==> #[trigger] order.contains(i),
    ensures
        order.len() == len,
{
    if order.len() < len {
        lemma_some_missing(order);
    } else {
        lemma_none_missing(order, len);
    }
}

/// A message that has arrived has arrived in the window, if it is large enough for
/// all messages.
pub proof fn lemma_arrived_in_window(
    base: ModOrd,
    starts: Seq<int>,
    msgs: Seq<Letter>,
    s: State,
    events: Seq<Event>,
    i: int,
)
    requires
        orderly(base, starts, msgs),
        expects(s, base),
        lag(s, base) + msgs.len() < HALF,
        possible(s, events),
        only_brings(msgs, arrivals(events)),
        forall|j: int| 0 <= j < starts.len() ==> lag(s, base) + #[trigger] starts[j]
            <= s.window_size,
        0 <= i < msgs.len(),
        arrivals(events).contains(sealed(msgs[i])),
    ensures
        has_arrived(s, msgs, events, i),
    decreases events.len(),
{
    let d = sealed(msgs[i]);
    let earlier = events.drop_last();
    let before = arrivals(earlier);
    let all = arrivals(events);
    assert forall|k: int| 0 <= k < before.len() implies is_one_of(msgs, #[trigger] before[k]) by {
        assert(before[k] == all[k]);
    }
    if before.contains(d) {
        lemma_arrived_in_window(base, starts, msgs, s, earlier, i);
        let k = choose|k: int| #[trigger] arrives_at(s, msgs, earlier, i, k);
        assert(earlier.take(k) =~= events.take(k));
        assert(arrives_at(s, msgs, events, i, k));
    } else {
        let k = choose|k: int| 0 <= k < all.len() && all[k] == d;
        if k < before.len() {
            assert(before[k] == d);
        }
        assert(events.last() == Event::Arrives(d));
        let (order, c) = lemma_history(base, starts, msgs, s, earlier);
        lemma_sizes_stay(s, earlier);
        lemma_picks_few(order, msgs.len() as int);
        lemma_start(starts, i);
        lemma_offsets(base, c, starts[i]);
        if c > 0 {
            assert(lag(s, base) + starts[c] <= s.window_size);
        }
        let last = events.len() - 1;
        assert(events.take(last) =~= earlier);
        assert(arrives_at(s, msgs, events, i, last));
    }
}

proof fn lemma_out_sorted(
    base: ModOrd,
    starts: Seq<int>,
    msgs: Seq<Letter>,
    behind: int,
    t: State,
    order: Seq<int>,
    c: int,
    out: Seq<Letter>,
)
    requires
        orderly(base, starts, msgs),
        behind + msgs.len() < HALF,
        keeps_track(base, starts, msgs, behind, t, order, c),
        out.len() == order.len(),
        forall|k: int| 0 <= k < out.len() ==> #[trigger] out[k] == msgs[order[k]],
    ensures
        genuine(out, msgs),
        without_repetition(out),
        set_by_set(out),
{
    assert forall|k: int, l: int| 0 <= k < l < out.len() implies (#[trigger] out[k]).h.id != (
    #[trigger] out[l]).h.id && out[k].h.set_id.up_to(out[l].h.set_id) by {
        let i = order[k];
        let j = order[l];
        assert(i != j);
        lemma_start(starts, i);
        lemma_start(starts, j);
        lemma_offsets(base, i, j);
        lemma_offsets(base, starts[i], starts[j]);
        assert(out[k] == msgs[i] && out[l] == msgs[j]);
    }
    assert forall|k: int| 0 <= k < out.len() implies msgs.contains(#[trigger] out[k]) by {
        assert(out[k] == msgs[order[k]]);
    }
}

proof fn lemma_all_out(
    base: ModOrd,
    starts: Seq<int>,
    msgs: Seq<Letter>,
    behind: int,
    s: State,
    events: Seq<Event>,
    order: Seq<int>,
    c: int,
)
    requires
        orderly(base, starts, msgs),
        behind + msgs.len() < HALF,
        keeps_track(base, starts, msgs, behind, history(s, events).0, order, c),
        has_settled(s, msgs, events),
        forall|i: int|
            0 <= i < msgs.len() && has_arrived(s, msgs, events, i) ==> order.contains(i) || waits(
                history(s, events).0,
                (#[trigger] base.plus(i)).value,
            ),
    ensures
        forall|i: int| 0 <= i < msgs.len() ==> #[trigger] order.contains(i),
{
    let t = history(s, events).0;
    if order.len() < msgs.len() {
        lemma_some_missing(order);
        let i = choose|i: int| 0 <= i <= order.len() && !#[trigger] order.contains(i);
        let v = base.plus(i).value;
        assert(has_arrived(s, msgs, events, i));
        assert(waits(t, v));
        lemma_start(starts, i);
        lemma_offsets(base, starts[i], order.len() as int);
        lemma_waiting(base, msgs, t, order, i);
        assert(msgs[i].h.wait_until.up_to(t.n));
        if t.inbox.contains_key(v) {
            assert(is_ready(t.inbox, v, t.n));
        } else {
            assert(is_ready(t.returned().inbox2, v, t.n));
        }
        assert(false);
    } else {
        lemma_none_missing(order, msgs.len() as int);
    }
}

/// A call of `recv` that hands out nothing leaves no message that is ready, and
/// nothing lent out.
pub proof fn law_failed_recv_leaves_nothing_ready<U: UdpLike>(
    s: State,
    from: U,
    trace: Seq<Reception<U>>,
    t: State,
    to: U,
    r: Result<Seq<u8>, Error>,
)
    requires
        s.wf(),
        hearing(s, from, trace, t, to, r),
        r is Err,
    ensures
        !some_ready(t.inbox, t.n),
        !some_ready(t.inbox2, t.n),
        t.inbox2_to_remove is None,
{
    s.lemma_returned_wf();
    assert(!some_ready(s.inbox, s.n) && !some_ready(s.returned().inbox2, s.n));
    lemma_hears_nothing_ready(s.returned(), trace);
}

proof fn lemma_hears_nothing_ready<U>(s: State, trace: Seq<Reception<U>>)
    requires
        !some_ready(s.inbox, s.n),
        !some_ready(s.inbox2, s.n),
        s.inbox2_to_remove is None,
        !(hears_all(s, trace).1 is Yield),
    ensures
        ({
            let t = hears_all(s, trace).0;
            &&& !some_ready(t.inbox, t.n)
            &&& !some_ready(t.inbox2, t.n)
            &&& t.inbox2_to_remove is None
        }),
    decreases trace.len(),
{
    if trace.len() > 0 {
        lemma_hears_nothing_ready(s, trace.drop_last());
        let (before, verdict) = hears_all(s, trace.drop_last());
        let t = hears_all(s, trace).0;
        if verdict is Again {
            let r = before.with_room();
            assert forall|id: u32| !is_ready(r.inbox2, id, r.n) by {
                assert(!is_ready(before.inbox, id, before.n));
                assert(!is_ready(before.inbox2, id, before.n));
            }
            assert forall|id: u32| !is_ready(r.inbox, id, r.n) by {
                assert(!is_ready(before.inbox, id, before.n));
            }
            assert forall|id: u32| !is_ready(t.inbox, id, t.n) by {
                assert(!is_ready(r.inbox, id, r.n));
            }
            assert forall|id: u32| !is_ready(t.inbox2, id, t.n) by {
                assert(!is_ready(r.inbox2, id, r.n));
            }
        }
    }
}

/// Where `id` stands for a message, that message has not been handed out.
pub open spec fn is_pending(base: ModOrd, msgs: Seq<Letter>, order: Seq<int>, id: u32, letter: Letter) -> bool {
    exists|i: int|
        {
            &&& 0 <= i < msgs.len()
            &&& id == base.plus(i).value
            &&& letter == #[trigger] msgs[i]
            &&& !order.contains(i)
        }
}

/// Whether the last set yielded can start at `c` when `m` messages were handed out:
/// `behind` before the messages if none was, and with one of them otherwise.
spec fn is_place(starts: Seq<int>, behind: int, m: int, c: int) -> bool {
    &&& 0 <= behind
    &&& -behind <= c <= m
    &&& c < 0 ==> m == 0
    &&& c == -behind || 0 <= c < starts.len() && starts[c] == c
}

/// What holds of a receiver that has handed out the messages `order`, the last of
/// them of the set that starts with message `c`.
spec fn keeps_track(
    base: ModOrd,
    starts: Seq<int>,
    msgs: Seq<Letter>,
    behind: int,
    s: State,
    order: Seq<int>,
    c: int,
) -> bool {
    &&& s.wf()
    &&& picks(order, msgs.len() as int)
    &&& is_place(starts, behind, order.len() as int, c)
    &&& s.largest_set_id_yielded == base.plus(c)
    &&& s.n == base.plus(order.len() as int)
    // All sets before the last one are complete, ...
    &&& forall|i: int| 0 <= i < c ==> #[trigger] order.contains(i)
    // ... and nothing of a later one was handed out.
    &&& forall|k: int| 0 <= k < order.len() ==> starts[#[trigger] order[k]] <= c
    &&& forall|k: int, l: int|
        0 <= k < l < order.len() ==> starts[#[trigger] order[k]] <= starts[#[trigger] order[l]]
    &&& forall|i: int|
        0 <= i < msgs.len() ==> (s.seen_before.contains((#[trigger] base.plus(i)).value) <==> (
        order.contains(i) && starts[i] == c))
    &&& forall|id: u32| #[trigger]
        s.seen_before.contains(id) ==> is_between(base, c, msgs.len() as int, id)
    &&& forall|id: u32| #[trigger]
        s.inbox.contains_key(id) ==> is_pending(base, msgs, order, id, s.inbox[id])
    &&& forall|id: u32| #[trigger]
        s.inbox2.contains_key(id) && s.inbox2_to_remove != Some(id) ==> is_pending(
            base,
            msgs,
            order,
            id,
            s.inbox2[id],
        )
    &&& s.inbox2_to_remove matches Some(id) ==> is_over(base, msgs.len() as int, order, id)
}

/// Whether `id` is a number from `a` up to `b`, counted from `base`.
pub open spec fn is_between(base: ModOrd, a: int, b: int, id: u32) -> bool {
    exists|i: int| a <= i < b && id == (#[trigger] base.plus(i)).value
}

/// Whether `id` is the number of a message that was handed out, or of one from
/// before `base`.
pub open spec fn is_over(base: ModOrd, len: int, order: Seq<int>, id: u32) -> bool {
    exists|i: int|
        -HALF <= i < len && id == (#[trigger] base.plus(i)).value && (0 <= i ==> order.contains(i))
}

/// Numbers that are not too far apart are told apart and ordered like their
/// offsets.
pub proof fn lemma_offsets(base: ModOrd, a: int, b: int)
    requires
        base.ordinary(),
        -MODULUS < a < MODULUS,
        -MODULUS < b < MODULUS,
        -HALF <= a - b <= HALF,
    ensures
        base.plus(a).ordinary(),
        base.plus(b).ordinary(),
        base.plus(a) == base.plus(b) <==> a == b,
        base.plus(a).before(base.plus(b)) <==> a < b,
        base.plus(a).distance(base.plus(b)) == if a <= b {
            b - a
        } else {
            a - b
        },
{
}

/// Numbers less than a full round apart are told apart.
pub proof fn lemma_apart(base: ModOrd, a: int, b: int)
    requires
        base.ordinary(),
        -MODULUS < a < MODULUS,
        -MODULUS < b < MODULUS,
        -MODULUS < a - b < MODULUS,
    ensures
        base.plus(a) == base.plus(b) <==> a == b,
        base.plus(a).value == base.plus(b).value <==> a == b,
{
}

/// A set starts at or before each of its messages, with a message of its own, and
/// sets do not overlap.
pub proof fn lemma_start(starts: Seq<int>, i: int)
    requires
        in_sets(starts),
        0 <= i < starts.len(),
    ensures
        0 <= starts[i] <= i,
        starts[starts[i]] == starts[i],
        forall|j: int| 0 <= j <= i ==> #[trigger] starts[j] <= starts[i],
        forall|j: int| starts[i] <= j <= i ==> #[trigger] starts[j] == starts[i],
    decreases i,
{
    if i > 0 {
        lemma_start(starts, i - 1);
    }
}

/// Of the first `order.len() + 1` numbers, one is not among `order`.
proof fn lemma_some_missing(order: Seq<int>)
    ensures
        exists|i: int| 0 <= i <= order.len() && !#[trigger] order.contains(i),
{
    if forall|i: int| 0 <= i <= order.len() ==> #[trigger] order.contains(i) {
        let range = set_int_range(0, order.len() as int + 1);
        lemma_int_range(0, order.len() as int + 1);
        order.lemma_cardinality_of_set();
        assert(range.subset_of(order.to_set()));
        vstd::seq_lib::seq_to_set_is_finite(order);
        lemma_len_subset(range, order.to_set());
        assert(false);
    }
}

/// If `order` picks as many numbers as there are, it picks all.
pub proof fn lemma_none_missing(order: Seq<int>, len: int)
    requires
        picks(order, len),
        0 <= len <= order.len(),
    ensures
        order.len() == len,
        forall|i: int| 0 <= i < len ==> #[trigger] order.contains(i),
{
    if order.len() > 0 {
        assert(0 <= order[0] < len);
        let range = set_int_range(0, len);
        lemma_int_range(0, len);
        order.unique_seq_to_set();
        vstd::seq_lib::seq_to_set_is_finite(order);
        assert(order.to_set().subset_of(range));
        lemma_len_subset(order.to_set(), range);
        lemma_subset_equality(order.to_set(), range);
        assert forall|i: int| 0 <= i < len implies #[trigger] order.contains(i) by {
            assert(range.contains(i));
            assert(order.to_set().contains(i));
        }
    }
}

/// A message that waits is held as it was sent.
proof fn lemma_waiting(base: ModOrd, msgs: Seq<Letter>, s: State, order: Seq<int>, i: int)
    requires
        base.ordinary(),
        msgs.len() < HALF,
        0 <= i < msgs.len(),
        forall|id: u32| #[trigger]
            s.inbox.contains_key(id) ==> is_pending(base, msgs, order, id, s.inbox[id]),
        forall|id: u32| #[trigger]
            s.inbox2.contains_key(id) && s.inbox2_to_remove != Some(id) ==> is_pending(
                base,
                msgs,
                order,
                id,
                s.inbox2[id],
            ),
    ensures
        s.inbox.contains_key(base.plus(i).value) ==> s.inbox[base.plus(i).value] == msgs[i]
            && !order.contains(i),
        s.inbox2.contains_key(base.plus(i).value) && s.inbox2_to_remove != Some(
            base.plus(i).value,
        ) ==> s.inbox2[base.plus(i).value] == msgs[i] && !order.contains(i),
{
    let v = base.plus(i).value;
    assert forall|letter: Letter| #[trigger]
        is_pending(base, msgs, order, v, letter) implies letter == msgs[i] && !order.contains(
        i,
    ) by {
        let j = choose|j: int|
            {
                &&& 0 <= j < msgs.len()
                &&& v == base.plus(j).value
                &&& letter == #[trigger] msgs[j]
                &&& !order.contains(j)
            };
        lemma_offsets(base, i, j);
    }
}

/// Handing out message `i`, of a set that is complete up to what it waits for,
/// keeps track.
proof fn lemma_yield(
    base: ModOrd,
    starts: Seq<int>,
    msgs: Seq<Letter>,
    behind: int,
    s: State,
    order: Seq<int>,
    c: int,
    i: int,
) -> (d: int)
    requires
        orderly(base, starts, msgs),
        behind + msgs.len() < HALF,
        keeps_track(base, starts, msgs, behind, s, order, c),
        0 <= i < msgs.len(),
        !order.contains(i),
        starts[i] <= order.len(),
        !waits(s, base.plus(i).value),
        !s.inbox2.contains_key(base.plus(i).value),
    ensures
        keeps_track(
            base,
            starts,
            msgs,
            behind,
            s.yielding(msgs[i].h.set_id, msgs[i].h.id, true),
            order.push(i),
            d,
        ),
{
    let m = order.len() as int;
    let h = msgs[i].h;
    let t = s.yielding(h.set_id, h.id, true);
    let longer = order.push(i);
    let d = starts[i];
    lemma_start(starts, i);
    lemma_picks_few(order, msgs.len() as int);
    lemma_pushed(order, i);
    lemma_offsets(base, c, d);
    lemma_offsets(base, m, d);
    lemma_offsets(base, i, i);
    s.lemma_yielding_wf(h.set_id, h.id, true);
    assert(t.n == base.plus(m + 1)) by {
        law_steps_add_up(base, m, 1);
    }
    assert(c <= d && (c < d ==> d == m && forall|x: int| 0 <= x < d ==> #[trigger]
        order.contains(x))) by {
        lemma_set_is_next(starts, order, c, i);
    }
    assert(picks(longer, msgs.len() as int)) by {
        lemma_picks_one_more(order, msgs.len() as int, i);
    }
    lemma_seen(base, starts, msgs, behind, s, order, c, i);
    assert forall|id: u32| #[trigger] t.inbox.contains_key(id) implies is_pending(
        base,
        msgs,
        longer,
        id,
        t.inbox[id],
    ) by {
        lemma_still_pending(base, msgs, order, i, id, s.inbox[id]);
    }
    assert forall|id: u32| #[trigger]
        t.inbox2.contains_key(id) && t.inbox2_to_remove != Some(id) implies is_pending(
        base,
        msgs,
        longer,
        id,
        t.inbox2[id],
    ) by {
        lemma_still_pending(base, msgs, order, i, id, s.inbox2[id]);
    }
    if let Some(id) = t.inbox2_to_remove {
        lemma_still_over(base, msgs.len() as int, order, i, id);
    }
    assert forall|id: u32| #[trigger] t.seen_before.contains(id) implies is_between(
        base,
        d,
        msgs.len() as int,
        id,
    ) by {
        assert(h.id == base.plus(i));
        if id == h.id.value {
            assert(d <= i < msgs.len() && id == base.plus(i).value);
        } else {
            assert(s.seen_before.contains(id));
        }
    }
    assert forall|k: int| 0 <= k < longer.len() implies starts[#[trigger] longer[k]] <= d by {
        if k < order.len() {
            assert(longer[k] == order[k]);
        }
    }
    assert forall|k: int, l: int| 0 <= k < l < longer.len() implies starts[#[trigger] longer[k]]
        <= starts[#[trigger] longer[l]] by {
        if l < order.len() {
            assert(longer[k] == order[k] && longer[l] == order[l]);
        } else {
            assert(longer[k] == order[k]);
        }
    }
    d
}

/// A message that may be handed out is of the last set, or of the one right behind
/// it once the last set is complete.
proof fn lemma_set_is_next(starts: Seq<int>, order: Seq<int>, c: int, i: int)
    requires
        in_sets(starts),
        picks(order, starts.len() as int),
        0 <= i < starts.len(),
        !order.contains(i),
        starts[i] <= order.len(),
        c <= 0 || c < starts.len() && starts[c] == c,
        forall|x: int| 0 <= x < c ==> #[trigger] order.contains(x),
        forall|k: int| 0 <= k < order.len() ==> starts[#[trigger] order[k]] <= c,
    ensures
        c <= starts[i],
        c < starts[i] ==> starts[i] == order.len() && forall|x: int|
            0 <= x < starts[i] ==> #[trigger] order.contains(x),
{
    lemma_start(starts, i);
    if starts[i] < c {
        assert(i >= c);
        assert(starts[c] <= starts[i]);
    }
    if starts[i] > c {
        assert forall|k: int| 0 <= k < order.len() implies 0 <= #[trigger] order[k] < starts[i] by {
            lemma_start(starts, order[k]);
            if order[k] >= starts[i] {
                assert(starts[starts[i]] <= starts[order[k]]);
            }
        }
        lemma_none_missing(order, starts[i]);
    }
}

/// One more number can be picked if it was not picked before.
pub proof fn lemma_picks_one_more(order: Seq<int>, len: int, i: int)
    requires
        picks(order, len),
        0 <= i < len,
        !order.contains(i),
    ensures
        picks(order.push(i), len),
{
    let longer = order.push(i);
    assert forall|k: int, l: int|
        0 <= k < longer.len() && 0 <= l < longer.len() && k != l implies longer[k] != longer[l] by {
        if k < order.len() && l < order.len() {
            assert(longer[k] == order[k] && longer[l] == order[l]);
        } else if k < order.len() {
            assert(longer[k] == order[k] && order.contains(order[k]));
        } else {
            assert(longer[l] == order[l] && order.contains(order[l]));
        }
    }
    assert forall|k: int| 0 <= k < longer.len() implies 0 <= #[trigger] longer[k] < len by {
        if k < order.len() {
            assert(longer[k] == order[k]);
        }
    }
}

/// The receiver remembers the messages of the last set.
proof fn lemma_seen(
    base: ModOrd,
    starts: Seq<int>,
    msgs: Seq<Letter>,
    behind: int,
    s: State,
    order: Seq<int>,
    c: int,
    i: int,
)
    requires
        orderly(base, starts, msgs),
        behind + msgs.len() < HALF,
        keeps_track(base, starts, msgs, behind, s, order, c),
        0 <= i < msgs.len(),
        c <= starts[i] < msgs.len(),
    ensures
        forall|j: int|
            0 <= j < msgs.len() ==> (s.yielding(
                msgs[i].h.set_id,
                msgs[i].h.id,
                true,
            ).seen_before.contains((#[trigger] base.plus(j)).value) <==> (order.push(i).contains(j)
                && starts[j] == starts[i])),
{
    let longer = order.push(i);
    let d = starts[i];
    lemma_pushed(order, i);
    lemma_offsets(base, c, d);
    assert forall|j: int| 0 <= j < msgs.len() implies (s.yielding(
        msgs[i].h.set_id,
        msgs[i].h.id,
        true,
    ).seen_before.contains((#[trigger] base.plus(j)).value) <==> (longer.contains(j) && starts[j]
        == d)) by {
        lemma_offsets(base, i, j);
        if longer.contains(j) && j != i {
            let k = choose|k: int| 0 <= k < order.len() && order[k] == j;
            assert(starts[order[k]] <= c);
        }
    }
}

/// What is over stays over when another message is handed out.
pub proof fn lemma_still_over(base: ModOrd, len: int, order: Seq<int>, i: int, id: u32)
    requires
        is_over(base, len, order, id),
    ensures
        is_over(base, len, order.push(i), id),
{
    lemma_pushed(order, i);
    let j = choose|j: int|
        -HALF <= j < len && id == (#[trigger] base.plus(j)).value && (0 <= j ==> order.contains(j));
    assert(id == base.plus(j).value);
}

/// A message that waits still does when another one is handed out.
pub proof fn lemma_still_pending(
    base: ModOrd,
    msgs: Seq<Letter>,
    order: Seq<int>,
    i: int,
    id: u32,
    letter: Letter,
)
    requires
        is_pending(base, msgs, order, id, letter),
        id != base.plus(i).value,
    ensures
        is_pending(base, msgs, order.push(i), id, letter),
{
    let j = choose|j: int|
        {
            &&& 0 <= j < msgs.len()
            &&& id == base.plus(j).value
            &&& letter == #[trigger] msgs[j]
            &&& !order.contains(j)
        };
    assert(j != i);
    assert(!order.push(i).contains(j)) by {
        if order.push(i).contains(j) {
            let k = choose|k: int| 0 <= k < order.push(i).len() && order.push(i)[k] == j;
            assert(order[k] == j);
        }
    }
    assert(letter == msgs[j]);
}

/// A receiver that expects the messages keeps track of them.
proof fn lemma_expects(base: ModOrd, starts: Seq<int>, msgs: Seq<Letter>, s: State)
    requires
        orderly(base, starts, msgs),
        expects(s, base),
        lag(s, base) + msgs.len() < HALF,
    ensures
        keeps_track(base, starts, msgs, lag(s, base), s, seq![], -lag(s, base)),
{
    let behind = lag(s, base);
    law_steps_add_up(base, 0, 0);
    assert forall|id: u32| #[trigger] s.seen_before.contains(id) implies is_between(
        base,
        -behind,
        msgs.len() as int,
        id,
    ) && forall|i: int| 0 <= i < msgs.len() ==> (#[trigger] base.plus(i)).value != id by {
        let j = -(ModOrd { value: id }).steps_to(base);
        assert(id == base.plus(j).value);
        assert(-behind <= j < 0);
    }
    if let Some(id) = s.inbox2_to_remove {
        let j = -(ModOrd { value: id }).steps_to(base);
        assert(id == base.plus(j).value);
        assert(is_over(base, msgs.len() as int, seq![], id));
    }
    assert forall|id: u32| !s.inbox.contains_key(id) by {
        assert(!waits(s, id));
    }
    assert forall|id: u32| #[trigger] s.inbox2.contains_key(id) implies s.inbox2_to_remove == Some(
        id,
    ) by {
        assert(!waits(s, id));
    }
}

/// Whatever happens, the receiver keeps track. Returns the numbers of the messages
/// handed out, and the first message of the last set.
#[verifier::rlimit(40)]
#[verifier::spinoff_prover]
proof fn lemma_history(
    base: ModOrd,
    starts: Seq<int>,
    msgs: Seq<Letter>,
    s: State,
    events: Seq<Event>,
) -> (r: (Seq<int>, int))
    requires
        orderly(base, starts, msgs),
        expects(s, base),
        lag(s, base) + msgs.len() < HALF,
        possible(s, events),
        only_brings(msgs, arrivals(events)),
    ensures
        ({
            let (t, out) = history(s, events);
            &&& keeps_track(base, starts, msgs, lag(s, base), t, r.0, r.1)
            &&& out.len() == r.0.len()
            &&& forall|k: int| 0 <= k < out.len() ==> #[trigger] out[k] == msgs[r.0[k]]
            &&& forall|i: int|
                0 <= i < msgs.len() && has_arrived(s, msgs, events, i) ==> r.0.contains(i)
                    || waits(t, (#[trigger] base.plus(i)).value)
        }),
    decreases events.len(),
{
    let behind = lag(s, base);
    if events.len() == 0 {
        let order = Seq::<int>::empty();
        lemma_expects(base, starts, msgs, s);
        (order, -behind)
    } else {
        let earlier = events.drop_last();
        assert forall|k: int| 0 <= k < arrivals(earlier).len() implies is_one_of(
            msgs,
            #[trigger] arrivals(earlier)[k],
        ) by {
            assert(arrivals(earlier)[k] == arrivals(events)[k]);
        }
        let (order, c) = lemma_history(base, starts, msgs, s, earlier);
        let (t, out) = history(s, earlier);
        let e = events.last();
        if let Event::Arrives(d) = e {
            assert(arrivals(events)[arrivals(events).len() - 1] == d);
        }
        let r = lemma_event(base, starts, msgs, behind, t, order, c, e);
        let (u, handed_out) = happens(t, e);
        assert forall|i: int|
            0 <= i < msgs.len() && has_arrived(s, msgs, events, i) implies r.0.contains(i)
            || waits(u, (#[trigger] base.plus(i)).value) by {
            let k = choose|k: int| #[trigger] arrives_at(s, msgs, events, i, k);
            if k < earlier.len() {
                assert(earlier.take(k) =~= events.take(k));
                assert(arrives_at(s, msgs, earlier, i, k));
                assert(order.contains(i) || waits(t, base.plus(i).value));
            } else {
                assert(events.take(k) =~= earlier);
            }
        }
        r
    }
}

/// What an event makes of a receiver that keeps track.
spec fn tracks(
    base: ModOrd,
    starts: Seq<int>,
    msgs: Seq<Letter>,
    behind: int,
    t: State,
    order: Seq<int>,
    e: Event,
    r: (Seq<int>, int),
) -> bool {
    let (u, handed_out) = happens(t, e);
    &&& keeps_track(base, starts, msgs, behind, u, r.0, r.1)
    &&& match handed_out {
        Some(letter) => r.0.len() == order.len() + 1 && r.0.drop_last() == order && letter
            == msgs[r.0.last()],
        None => r.0 == order,
    }
    &&& forall|i: int|
        #![trigger base.plus(i)]
        0 <= i < msgs.len() && (order.contains(i) || waits(t, base.plus(i).value) || e
            == Event::Arrives(sealed(msgs[i])) && in_window(t, msgs[i])) ==> r.0.contains(i)
            || waits(u, base.plus(i).value)
}

/// One event keeps track.
proof fn lemma_event(
    base: ModOrd,
    starts: Seq<int>,
    msgs: Seq<Letter>,
    behind: int,
    t: State,
    order: Seq<int>,
    c: int,
    e: Event,
) -> (r: (Seq<int>, int))
    requires
        orderly(base, starts, msgs),
        behind + msgs.len() < HALF,
        keeps_track(base, starts, msgs, behind, t, order, c),
        can_happen(t, e),
        e matches Event::Arrives(d) ==> is_one_of(msgs, d),
    ensures
        tracks(base, starts, msgs, behind, t, order, e, r),
{
    match e {
        Event::Arrives(d) => {
            let i = choose|i: int| 0 <= i < msgs.len() && d == sealed(#[trigger] msgs[i]);
            lemma_arrives(base, starts, msgs, behind, t, order, c, i)
        },
        Event::Inline(id) => lemma_inline(base, starts, msgs, behind, t, order, c, id),
        Event::Stored(id) => lemma_stored(base, starts, msgs, behind, t, order, c, id),
        _ => {
            lemma_event_wf(t, e);
            lemma_part(base, starts, msgs, behind, t, happens(t, e).0, order, c);
            (order, c)
        },
    }
}

/// Whether all that waits in `s` waits in `t`, and the two count the same.
pub open spec fn is_part(s: State, t: State) -> bool {
    &&& s.largest_set_id_yielded == t.largest_set_id_yielded
    &&& s.n == t.n
    &&& s.seen_before == t.seen_before
    &&& s.inbox2_to_remove == t.inbox2_to_remove || s.inbox2_to_remove is None
    &&& forall|id: u32| #[trigger]
        s.inbox.contains_key(id) ==> t.inbox.contains_key(id) && s.inbox[id] == t.inbox[id]
    &&& forall|id: u32| #[trigger]
        s.inbox2.contains_key(id) ==> {
            ||| t.inbox.contains_key(id) && s.inbox2[id] == t.inbox[id]
            ||| {
                &&& t.inbox2.contains_key(id)
                &&& s.inbox2[id] == t.inbox2[id]
                &&& s.inbox2_to_remove == t.inbox2_to_remove || t.inbox2_to_remove != Some(id)
            }
        }
}

/// A receiver of which less waits keeps track too.
proof fn lemma_part(
    base: ModOrd,
    starts: Seq<int>,
    msgs: Seq<Letter>,
    behind: int,
    t: State,
    s: State,
    order: Seq<int>,
    c: int,
)
    requires
        keeps_track(base, starts, msgs, behind, t, order, c),
        s.wf(),
        is_part(s, t),
    ensures
        keeps_track(base, starts, msgs, behind, s, order, c),
{
    assert forall|id: u32| #[trigger]
        s.inbox2.contains_key(id) && s.inbox2_to_remove != Some(id) implies is_pending(
        base,
        msgs,
        order,
        id,
        s.inbox2[id],
    ) by {
        assert(t.inbox.contains_key(id) || t.inbox2.contains_key(id));
    }
}

/// Handing out message `i`, which has waited, is kept track of.
proof fn lemma_handed_out(
    base: ModOrd,
    starts: Seq<int>,
    msgs: Seq<Letter>,
    behind: int,
    t: State,
    order: Seq<int>,
    e: Event,
    i: int,
    d: int,
)
    requires
        !(e is Arrives),
        happens(t, e).1 == Some(msgs[i]),
        keeps_track(base, starts, msgs, behind, happens(t, e).0, order.push(i), d),
        forall|id: u32| #[trigger]
            waits(t, id) && id != base.plus(i).value ==> waits(happens(t, e).0, id),
        base.ordinary(),
        msgs.len() < HALF,
        0 <= i < msgs.len(),
    ensures
        tracks(base, starts, msgs, behind, t, order, e, (order.push(i), d)),
{
    lemma_pushed(order, i);
    assert forall|j: int|
        #![trigger base.plus(j)]
        0 <= j < msgs.len() && (order.contains(j) || waits(t, base.plus(j).value)) implies order.push(
        i,
    ).contains(j) || waits(happens(t, e).0, base.plus(j).value) by {
        lemma_offsets(base, i, j);
    }
}

/// Handing out a message of the buffer keeps track.
proof fn lemma_inline(
    base: ModOrd,
    starts: Seq<int>,
    msgs: Seq<Letter>,
    behind: int,
    t: State,
    order: Seq<int>,
    c: int,
    id: u32,
) -> (r: (Seq<int>, int))
    requires
        orderly(base, starts, msgs),
        behind + msgs.len() < HALF,
        keeps_track(base, starts, msgs, behind, t, order, c),
        is_ready(t.inbox, id, t.n),
    ensures
        tracks(base, starts, msgs, behind, t, order, Event::Inline(id), r),
{
    let i = lemma_pending(base, starts, msgs, behind, t, order, c, id, t.inbox[id]);
    let s = t.taken_out(id);
    t.lemma_taken_out_wf(id);
    lemma_taken_out(t, id);
    lemma_part(base, starts, msgs, behind, t, s, order, c);
    let d = lemma_yield(base, starts, msgs, behind, s, order, c, i);
    lemma_handed_out(base, starts, msgs, behind, t, order, Event::Inline(id), i, d);
    (order.push(i), d)
}

/// What waits when a message has left the buffer.
pub proof fn lemma_taken_out(t: State, id: u32)
    requires
        t.wf(),
        t.inbox.contains_key(id),
    ensures
        is_part(t.taken_out(id), t),
        !waits(t.taken_out(id), id),
        !t.taken_out(id).inbox2.contains_key(id),
        forall|x: u32| #[trigger] waits(t, x) && x != id ==> waits(t.yields_inline(id), x),
{
}

/// What waits when a message outside of the buffer is handed out.
pub proof fn lemma_lent_out(t: State, id: u32)
    requires
        t.wf(),
        t.inbox2_to_remove is None,
        t.inbox2.contains_key(id),
    ensures
        ({
            let s = State { inbox2: t.inbox2.remove(id), ..t };
            &&& s.wf()
            &&& is_part(s, t)
            &&& !waits(s, id)
            &&& !s.inbox2.contains_key(id)
        }),
        forall|x: u32| #[trigger] waits(t, x) && x != id ==> waits(t.yields_stored(id), x),
{
}

/// Handing out a message from outside of the buffer keeps track.
proof fn lemma_stored(
    base: ModOrd,
    starts: Seq<int>,
    msgs: Seq<Letter>,
    behind: int,
    t: State,
    order: Seq<int>,
    c: int,
    id: u32,
) -> (r: (Seq<int>, int))
    requires
        orderly(base, starts, msgs),
        behind + msgs.len() < HALF,
        keeps_track(base, starts, msgs, behind, t, order, c),
        t.inbox2_to_remove is None,
        is_ready(t.inbox2, id, t.n),
    ensures
        tracks(base, starts, msgs, behind, t, order, Event::Stored(id), r),
{
    let i = lemma_pending(base, starts, msgs, behind, t, order, c, id, t.inbox2[id]);
    let s = State { inbox2: t.inbox2.remove(id), ..t };
    lemma_lent_out(t, id);
    lemma_part(base, starts, msgs, behind, t, s, order, c);
    let d = lemma_yield(base, starts, msgs, behind, s, order, c, i);
    t.lemma_yields_stored_wf(id);
    lemma_pushed(order, i);
    assert(is_over(base, msgs.len() as int, order.push(i), id)) by {
        assert(id == base.plus(i).value);
    }
    let u = s.yielding(msgs[i].h.set_id, msgs[i].h.id, true);
    lemma_lent(base, starts, msgs, behind, u, order.push(i), d, id, t.inbox2[id]);
    assert(State {
        inbox2: u.inbox2.insert(id, t.inbox2[id]),
        inbox2_to_remove: Some(id),
        ..u
    } =~= t.yields_stored(id));
    lemma_handed_out(base, starts, msgs, behind, t, order, Event::Stored(id), i, d);
    (order.push(i), d)
}

/// A message that is over and still lent out is not in the way.
proof fn lemma_lent(
    base: ModOrd,
    starts: Seq<int>,
    msgs: Seq<Letter>,
    behind: int,
    u: State,
    order: Seq<int>,
    c: int,
    id: u32,
    letter: Letter,
)
    requires
        keeps_track(base, starts, msgs, behind, u, order, c),
        is_over(base, msgs.len() as int, order, id),
        u.inbox2_to_remove is None,
        (State {
            inbox2: u.inbox2.insert(id, letter),
            inbox2_to_remove: Some(id),
            ..u
        }).wf(),
    ensures
        keeps_track(
            base,
            starts,
            msgs,
            behind,
            State { inbox2: u.inbox2.insert(id, letter), inbox2_to_remove: Some(id), ..u },
            order,
            c,
        ),
{
}

/// A message that is put aside and ready, has not been handed out, and its set is
/// complete up to what it waits for.
proof fn lemma_pending(
    base: ModOrd,
    starts: Seq<int>,
    msgs: Seq<Letter>,
    behind: int,
    t: State,
    order: Seq<int>,
    c: int,
    id: u32,
    letter: Letter,
) -> (i: int)
    requires
        orderly(base, starts, msgs),
        behind + msgs.len() < HALF,
        keeps_track(base, starts, msgs, behind, t, order, c),
        is_pending(base, msgs, order, id, letter),
        letter.h.wait_until.up_to(t.n),
    ensures
        0 <= i < msgs.len(),
        id == base.plus(i).value,
        letter == msgs[i],
        !order.contains(i),
        starts[i] <= order.len(),
{
    let i = choose|i: int|
        {
            &&& 0 <= i < msgs.len()
            &&& id == base.plus(i).value
            &&& letter == #[trigger] msgs[i]
            &&& !order.contains(i)
        };
    lemma_start(starts, i);
    lemma_picks_few(order, msgs.len() as int);
    lemma_offsets(base, starts[i], order.len() as int);
    i
}

/// No more messages are handed out than there are.
pub proof fn lemma_picks_few(order: Seq<int>, len: int)
    requires
        picks(order, len),
        0 <= len,
    ensures
        order.len() <= len,
{
    if len <= order.len() {
        lemma_none_missing(order, len);
    }
}

/// What is in a sequence with one more element.
pub proof fn lemma_pushed(order: Seq<int>, i: int)
    ensures
        order.push(i).drop_last() == order,
        forall|j: int| #[trigger] order.push(i).contains(j) <==> order.contains(j) || j == i,
{
    let longer = order.push(i);
    assert(longer.drop_last() =~= order);
    assert(longer[order.len() as int] == i);
    assert forall|j: int| #[trigger] longer.contains(j) <==> order.contains(j) || j == i by {
        if order.contains(j) {
            let k = choose|k: int| 0 <= k < order.len() && order[k] == j;
            assert(longer[k] == j);
        }
        if longer.contains(j) && j != i {
            let k = choose|k: int| 0 <= k < longer.len() && longer[k] == j;
            assert(order[k] == j);
        }
    }
}

/// No two messages have the same datagram.
proof fn lemma_sealed(base: ModOrd, starts: Seq<int>, msgs: Seq<Letter>, i: int, j: int)
    requires
        orderly(base, starts, msgs),
        msgs.len() < HALF,
        0 <= i < msgs.len(),
        0 <= j < msgs.len(),
        sealed(msgs[i]) == sealed(msgs[j]),
    ensures
        i == j,
{
    law_datagram_round_trip(msgs[i].h, msgs[i].payload);
    law_datagram_round_trip(msgs[j].h, msgs[j].payload);
    lemma_offsets(base, i, j);
}

/// Putting a message aside keeps track.
proof fn lemma_put_aside(
    base: ModOrd,
    starts: Seq<int>,
    msgs: Seq<Letter>,
    behind: int,
    w: State,
    order: Seq<int>,
    c: int,
    i: int,
)
    requires
        keeps_track(base, starts, msgs, behind, w, order, c),
        0 <= i < msgs.len(),
        !order.contains(i),
        (State { inbox: w.inbox.insert(base.plus(i).value, msgs[i]), ..w }).wf(),
    ensures
        keeps_track(
            base,
            starts,
            msgs,
            behind,
            State { inbox: w.inbox.insert(base.plus(i).value, msgs[i]), ..w },
            order,
            c,
        ),
{
    let v = base.plus(i).value;
    let u = State { inbox: w.inbox.insert(v, msgs[i]), ..w };
    assert(is_pending(base, msgs, order, v, msgs[i]));
    assert forall|id: u32| #[trigger] u.inbox.contains_key(id) implies is_pending(
        base,
        msgs,
        order,
        id,
        u.inbox[id],
    ) by {
        if id != v {
            assert(w.inbox.contains_key(id));
        }
    }
}

/// A message that is known, and not refused, was handed out or waits.
proof fn lemma_known(
    base: ModOrd,
    starts: Seq<int>,
    msgs: Seq<Letter>,
    behind: int,
    s: State,
    order: Seq<int>,
    c: int,
    i: int,
)
    requires
        orderly(base, starts, msgs),
        behind + msgs.len() < HALF,
        keeps_track(base, starts, msgs, behind, s, order, c),
        0 <= i < msgs.len(),
        s.knows(base.plus(i)),
    ensures
        order.contains(i) || waits(s, base.plus(i).value),
{
    let v = base.plus(i).value;
    if !order.contains(i) && !waits(s, v) {
        assert(s.inbox2_to_remove == Some(v));
        let j = choose|j: int|
            -HALF <= j < msgs.len() && v == (#[trigger] base.plus(j)).value && (0 <= j
                ==> order.contains(j));
        lemma_apart(base, i, j);
        assert(false);
    }
}

/// The arrival of a message keeps track.
#[verifier::rlimit(40)]
#[verifier::spinoff_prover]
proof fn lemma_arrives(
    base: ModOrd,
    starts: Seq<int>,
    msgs: Seq<Letter>,
    behind: int,
    t: State,
    order: Seq<int>,
    c: int,
    i: int,
) -> (r: (Seq<int>, int))
    requires
        orderly(base, starts, msgs),
        behind + msgs.len() < HALF,
        keeps_track(base, starts, msgs, behind, t, order, c),
        0 <= i < msgs.len(),
        can_happen(t, Event::Arrives(sealed(msgs[i]))),
    ensures
        tracks(base, starts, msgs, behind, t, order, Event::Arrives(sealed(msgs[i])), r),
{
    let h = msgs[i].h;
    let d = sealed(msgs[i]);
    let m = order.len() as int;
    law_datagram_round_trip(h, msgs[i].payload);
    assert(opened(d) == msgs[i]);
    assert forall|j: int| 0 <= j < msgs.len() && sealed(#[trigger] msgs[j]) == d implies j == i by {
        lemma_sealed(base, starts, msgs, i, j);
    }
    t.lemma_takes_in_wf(d);
    lemma_start(starts, i);
    lemma_picks_few(order, msgs.len() as int);
    lemma_offsets(base, c, starts[i]);
    lemma_offsets(base, m, starts[i]);
    lemma_offsets(base, i, i);
    let s = t.acknowledged(h.ack);
    lemma_part(base, starts, msgs, behind, t, s, order, c);
    if !in_window(t, msgs[i]) {
        (order, c)
    } else if s.knows(h.id) {
        lemma_known(base, starts, msgs, behind, s, order, c, i);
        (order, c)
    } else {
        let w = State { buf_free_start: s.buf_free_start + msgs[i].payload.len(), ..s };
        lemma_part(base, starts, msgs, behind, s, w, order, c);
        if order.contains(i) {
            let k = choose|k: int| 0 <= k < order.len() && order[k] == i;
            assert(starts[order[k]] <= c);
        }
        if starts[i] < c {
            if i >= c {
                assert(starts[c] <= starts[i]);
            }
            assert(order.contains(i));
            (order, c)
        } else if m < starts[i] {
            lemma_put_aside(base, starts, msgs, behind, w, order, c, i);
            (order, c)
        } else {
            assert(!order.contains(i));
            let e = lemma_yield(base, starts, msgs, behind, w, order, c, i);
            lemma_pushed(order, i);
            (order.push(i), e)
        }
    }
}

} // verus!
