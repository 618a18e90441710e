//! What an endpoint delivers of sets that mix messages with and without a promise of
//! delivery, over a socket that duplicates and jumbles.

use crate::config::Guarantee;
use crate::drained::{
    at, follows, is_chain, lemma_chain, lemma_everything_arrives, lemma_receiving, lemma_under_way,
    received, receives_until_failure, sent_payload, sockets_of,
};
use crate::error::Error;
use crate::header::HEADER_BYTES;
use crate::history::{
    all_got, all_heard, calls, history, is_step, law_calls_make_history, leads, lemma_leads_chain,
    payloads, Call, Event, Step,
};
use crate::jumbled::{
    has_arrived, in_order, in_sets, is_one_of, lag, lemma_offsets, lemma_start, only_brings, picks,
    sealed,
};
use crate::laws::{law_datagram_round_trip, law_steps_add_up};
use crate::mixed::{
    after_the_deliveries, comes_before, count, is_awaited, is_mixed, is_promising, is_ready_for,
    law_mixed_sets_are_delivered, lemma_count_range, lemma_mixed_in_window, promised, promises,
};
use crate::mod_ord::{ModOrd, HALF};
use crate::once::waits;
use crate::receiving::is_due;
use crate::state::{is_ready, ord_counted, set_header, Letter, State};
use crate::udp::{BadUdp, UdpLike};
use vstd::prelude::*;

verus! {

/// The guarantee of the message that a call sends.
pub open spec fn sent_guarantee(step: Step<BadUdp>) -> Guarantee {
    match step.call {
        Call::Send { guarantee, .. } => guarantee,
        _ => Guarantee::Nothing,
    }
}

/// Whether call `j` sends a message without a promise of delivery, in the set that began
/// before call `q`.
pub open spec fn is_order_of(sending: Seq<Step<BadUdp>>, starts: Seq<int>, q: int) -> spec_fn(
    int,
) -> bool {
    |j: int| starts[j] == q && sent_guarantee(sending[j]) == Guarantee::Order
}

/// Whether call `i` has sent a message with a number, in the set that began before call
/// `starts[i]`.
pub open spec fn sends_numbered(sending: Seq<Step<BadUdp>>, starts: Seq<int>, i: int) -> bool {
    let began = sending[starts[i]].s;
    match sending[i].call {
        Call::Send { set_id, wait_until, count: numbered, ord_count, guarantee, payload, sent } => {
            &&& set_id == began.next_id
            &&& wait_until == began.wait_until
            &&& numbered == i - starts[i]
            &&& ord_count == count(i, is_order_of(sending, starts, starts[i]))
            &&& guarantee != Guarantee::Nothing
            &&& sent is Ok
        },
        _ => false,
    }
}

/// The calls send sets of messages with numbers, with payloads of at most `max_len`
/// bytes.
pub open spec fn sends_mixed(sending: Seq<Step<BadUdp>>, starts: Seq<int>, max_len: int) -> bool {
    &&& in_sets(starts)
    &&& starts.len() == sending.len()
    &&& forall|i: int|
        0 <= i < sending.len() ==> sends_numbered(sending, starts, i) && sent_payload(
            #[trigger] sending[i],
        ).len() <= max_len
}

/// An endpoint that has received all deliveries that it was sent, on a socket with
/// nothing under way.
pub open spec fn is_at_rest(s: State, socket: BadUdp, first: int) -> bool {
    &&& is_ready_for(s, s.next_id, first)
    &&& s.wait_until == s.next_id.plus(first)
    &&& socket@.len() == 0
}

/// A new endpoint on a new socket is at rest.
pub proof fn law_new_endpoint_is_at_rest(
    max_msg_size: int,
    buffer_grow_space: int,
    window_size: u32,
    socket: BadUdp,
)
    requires
        0 <= max_msg_size,
        0 <= buffer_grow_space,
        max_msg_size + buffer_grow_space + HEADER_BYTES <= usize::MAX,
        socket@.len() == 0,
    ensures
        is_at_rest(State::initial(max_msg_size, buffer_grow_space, window_size), socket, 0),
{
}

/// An endpoint on a socket that duplicates and jumbles hands out every message that
/// promises delivery exactly once, also where it is mixed with messages that do not.
///
/// The endpoint is at rest, sends sets of messages to itself, each with a promise of
/// order or of delivery, and then receives until that fails. What it hands out are
/// messages that were sent, none twice, and none before a message of an earlier set that
/// promises delivery; and all that promise delivery are among them. It fails because
/// there is nothing more, no message is left waiting, and the endpoint is at rest again.
#[verifier::rlimit(40)]
#[verifier::spinoff_prover]
pub proof fn law_endpoint_delivers_mixed_sets(
    s: State,
    from: BadUdp,
    first: int,
    starts: Seq<int>,
    sending: Seq<Step<BadUdp>>,
    m: State,
    mid: BadUdp,
    receiving: Seq<Step<BadUdp>>,
    t: State,
    to: BadUdp,
) -> (order: Seq<int>)
    requires
        is_at_rest(s, from, first),
        calls(sending, s, from, m, mid),
        sends_mixed(sending, starts, s.buf_min_space - HEADER_BYTES),
        lag(s, s.next_id) - first + sending.len() < HALF,
        forall|i: int|
            0 <= i < starts.len() ==> lag(s, s.next_id) + #[trigger] starts[i] <= s.window_size,
        calls(receiving, m, mid, t, to),
        receives_until_failure(receiving),
    ensures
        picks(order, sending.len() as int),
        all_got(receiving) == Seq::new(order.len(), |k: int| sent_payload(sending[order[k]])),
        forall|i: int|
            0 <= i < sending.len() && sent_guarantee(#[trigger] sending[i]) == Guarantee::Delivery
                ==> order.contains(i),
        forall|k: int, i: int|
            0 <= k < order.len() && 0 <= i < sending.len() && sent_guarantee(
                #[trigger] sending[i],
            ) == Guarantee::Delivery && starts[i] < starts[#[trigger] order[k]] ==> exists|j: int|
                0 <= j < k && order[j] == i,
        received(receiving.last()) == Some(Err::<Seq<u8>, Error>(Error::WouldBlock)),
        forall|id: u32| !#[trigger] waits(t, id),
        t.next_id == s.next_id.plus(sending.len() as int),
        exists|next: int| #[trigger] is_at_rest(t, to, next),
{
    let base = s.next_id;
    let msgs = letters_of(sending, starts);
    let sealed_msgs = msgs.map_values(|letter: Letter| sealed(letter));
    let awaited = awaited_of(sending, starts, first);
    let arrived = all_heard(receiving);
    lemma_sending(s, from, first, starts, sending, m, mid);
    lemma_receiving(receiving, m, mid, t, to, s.buf_min_space);
    let events = lemma_self_talk(s, from, first, starts, sending, m, mid, receiving, t, to);
    assert forall|i: int| 0 <= i < msgs.len() && (#[trigger] msgs[i]).h.del implies has_arrived(
        s,
        msgs,
        events,
        i,
    ) by {
        assert(sealed_msgs[i] == sealed(msgs[i]));
        lemma_everything_arrives(mid@, to@, arrived, sealed_msgs, sealed(msgs[i]));
        lemma_mixed_in_window(base, starts, first, awaited, msgs, s, events, i);
    }
    assert forall|id: u32| !#[trigger] is_due(t, id) by {
        assert(!is_ready(t.inbox, id, t.n));
        assert(!is_ready(t.inbox2, id, t.n));
    }
    let order = law_mixed_sets_are_delivered(base, starts, first, awaited, msgs, s, events);
    lemma_order(base, first, starts, sending, order, history(s, events).1);
    lemma_rests(base, first, starts, sending, t, to);
    order
}

/// What the order of the messages says of the calls that sent them.
proof fn lemma_order(
    base: ModOrd,
    first: int,
    starts: Seq<int>,
    sending: Seq<Step<BadUdp>>,
    order: Seq<int>,
    out: Seq<Letter>,
)
    requires
        is_mixed(
            base,
            starts,
            first,
            awaited_of(sending, starts, first),
            letters_of(sending, starts),
        ),
        sending.len() < HALF,
        picks(order, sending.len() as int),
        in_order(order, letters_of(sending, starts), out),
        after_the_deliveries(order, starts, letters_of(sending, starts)),
        forall|i: int|
            0 <= i < sending.len() && (#[trigger] letters_of(sending, starts)[i]).h.del
                ==> out.contains(letters_of(sending, starts)[i]),
    ensures
        payloads(out) == Seq::new(order.len(), |k: int| sent_payload(sending[order[k]])),
        forall|i: int|
            0 <= i < sending.len() && sent_guarantee(#[trigger] sending[i]) == Guarantee::Delivery
                ==> order.contains(i),
        forall|k: int, i: int|
            0 <= k < order.len() && 0 <= i < sending.len() && sent_guarantee(
                #[trigger] sending[i],
            ) == Guarantee::Delivery && starts[i] < starts[#[trigger] order[k]] ==> exists|j: int|
                0 <= j < k && order[j] == i,
{
    let msgs = letters_of(sending, starts);
    assert forall|i: int|
        0 <= i < sending.len() && sent_guarantee(#[trigger] sending[i]) == Guarantee::Delivery implies order.contains(
        i,
    ) by {
        assert(msgs[i].h.del);
        assert(out.contains(msgs[i]));
        let k = choose|k: int| 0 <= k < out.len() && out[k] == msgs[i];
        assert(out[k] == msgs[order[k]]);
        lemma_offsets(base, i, order[k]);
    }
    assert forall|k: int, i: int|
        0 <= k < order.len() && 0 <= i < sending.len() && sent_guarantee(#[trigger] sending[i])
            == Guarantee::Delivery && starts[i] < starts[#[trigger] order[k]] implies exists|j: int|
        0 <= j < k && order[j] == i by {
        assert(msgs[i].h.del);
        assert(comes_before(order, k, msgs[i], i));
    }
    assert(payloads(out) =~= Seq::new(order.len(), |k: int| sent_payload(sending[order[k]]))) by {
        assert forall|k: int| 0 <= k < order.len() implies payloads(out)[k] == sent_payload(
            sending[#[trigger] order[k]],
        ) by {
            assert(out[k] == msgs[order[k]]);
        }
    }
}

/// An endpoint that is ready for what follows, and has sent nothing since, is at rest.
proof fn lemma_rests(
    base: ModOrd,
    first: int,
    starts: Seq<int>,
    sending: Seq<Step<BadUdp>>,
    t: State,
    to: BadUdp,
)
    requires
        base.ordinary(),
        in_sets(starts),
        starts.len() == sending.len(),
        t.next_id == base.plus(sending.len() as int),
        t.wait_until == base.plus(wait_offset(sending, starts, first, sending.len() as int)),
        to@.len() == 0,
        forall|last: int|
            #[trigger] is_awaited(
                starts,
                letters_of(sending, starts),
                first,
                letters_of(sending, starts).len() as int,
                last,
            ) ==> is_ready_for(
                t,
                base.plus(letters_of(sending, starts).len() as int),
                last - letters_of(sending, starts).len(),
            ),
    ensures
        exists|next: int| #[trigger] is_at_rest(t, to, next),
{
    let len = sending.len() as int;
    let last = wait_offset(sending, starts, first, len);
    lemma_awaited(sending, starts, first, len);
    law_steps_add_up(base, len, last - len);
    assert(letters_of(sending, starts).len() == len);
    assert(is_ready_for(t, base.plus(len), last - len));
    assert(t.wait_until == t.next_id.plus(last - len));
    assert(is_at_rest(t, to, last - len));
}

/// The messages that the calls send.
spec fn letters_of(sending: Seq<Step<BadUdp>>, starts: Seq<int>) -> Seq<Letter> {
    Seq::new(
        sending.len(),
        |i: int|
            Letter {
                h: set_header(
                    sending[i].s,
                    sending[starts[i]].s.next_id,
                    sending[starts[i]].s.wait_until,
                    (i - starts[i]) as u32,
                    sent_guarantee(sending[i]),
                ),
                payload: sent_payload(sending[i]),
            },
    )
}

/// What a set that begins before call `i` waits for.
spec fn wait_offset(sending: Seq<Step<BadUdp>>, starts: Seq<int>, first: int, i: int) -> int
    decreases i,
{
    if i <= 0 {
        first
    } else {
        let q = starts[i - 1];
        let so_far = count(i, promises(starts, letters_of(sending, starts), q));
        if so_far > 0 {
            q + so_far
        } else {
            wait_offset(sending, starts, first, i - 1)
        }
    }
}

/// What each message waits for.
spec fn awaited_of(sending: Seq<Step<BadUdp>>, starts: Seq<int>, first: int) -> Seq<int> {
    Seq::new(sending.len(), |i: int| wait_offset(sending, starts, first, starts[i]))
}

/// What a set waits for is the deliveries of the last set before that promises any.
proof fn lemma_awaited(sending: Seq<Step<BadUdp>>, starts: Seq<int>, first: int, k: int)
    requires
        in_sets(starts),
        starts.len() == sending.len(),
        0 <= k <= sending.len(),
        k < sending.len() ==> starts[k] == k,
    ensures
        is_awaited(
            starts,
            letters_of(sending, starts),
            first,
            k,
            wait_offset(sending, starts, first, k),
        ),
{
    let msgs = letters_of(sending, starts);
    let wait = wait_offset(sending, starts, first, k);
    lemma_awaited_so_far(sending, starts, first, k);
    assert forall|q: int| 0 <= q < k implies count(k, #[trigger] promises(starts, msgs, q))
        == promised(starts, msgs, q) by {
        lemma_none_behind(starts, msgs, q, k, msgs.len() as int);
    }
    assert forall|q: int| #[trigger] is_promising(starts, msgs, q) && q < k implies q + promised(
        starts,
        msgs,
        q,
    ) <= wait by {
        assert(count(k, promises(starts, msgs, q)) == promised(starts, msgs, q));
    }
    if wait != first {
        let q = choose|q: int|
            0 <= q < k && starts[q] == q && count(k, #[trigger] promises(starts, msgs, q)) > 0
                && wait == q + count(k, promises(starts, msgs, q));
        assert(is_promising(starts, msgs, q));
    }
}

/// Behind the start of the next set there are no more messages of a set.
proof fn lemma_none_behind(starts: Seq<int>, msgs: Seq<Letter>, q: int, k: int, len: int)
    requires
        in_sets(starts),
        starts.len() == msgs.len(),
        0 <= q < k <= len <= msgs.len(),
        k < starts.len() ==> starts[k] == k,
    ensures
        count(len, promises(starts, msgs, q)) == count(k, promises(starts, msgs, q)),
    decreases len,
{
    if len > k {
        lemma_none_behind(starts, msgs, q, k, len - 1);
        lemma_start(starts, len - 1);
        assert(starts[k] <= starts[len - 1]);
    }
}

/// What is waited for behind `i` messages, of which the last set may go on.
proof fn lemma_awaited_so_far(sending: Seq<Step<BadUdp>>, starts: Seq<int>, first: int, i: int)
    requires
        in_sets(starts),
        starts.len() == sending.len(),
        0 <= i <= sending.len(),
    ensures
        ({
            let msgs = letters_of(sending, starts);
            let wait = wait_offset(sending, starts, first, i);
            &&& forall|q: int|
                0 <= q < i && starts[q] == q && count(i, #[trigger] promises(starts, msgs, q)) > 0
                    ==> q + count(i, promises(starts, msgs, q)) <= wait
            &&& wait == first || exists|q: int|
                0 <= q < i && starts[q] == q && count(i, #[trigger] promises(starts, msgs, q)) > 0
                    && wait == q + count(i, promises(starts, msgs, q))
        }),
    decreases i,
{
    if i > 0 {
        let msgs = letters_of(sending, starts);
        let a = starts[i - 1];
        let wait = wait_offset(sending, starts, first, i);
        lemma_start(starts, i - 1);
        lemma_awaited_so_far(sending, starts, first, i - 1);
        let so_far = count(i, promises(starts, msgs, a));
        assert forall|q: int|
            0 <= q < i && starts[q] == q && count(i, #[trigger] promises(starts, msgs, q)) > 0 implies q
            + count(i, promises(starts, msgs, q)) <= wait by {
            let f = promises(starts, msgs, q);
            if q < a {
                assert forall|j: int| 0 <= j < i && #[trigger] f(j) implies q <= j < a by {
                    lemma_start(starts, j);
                    if j >= a {
                        assert(starts[a] <= starts[j]);
                    }
                }
                lemma_count_range(i, f, q, a);
                assert(!f(i - 1));
                if so_far <= 0 {
                    assert(q < i - 1);
                }
            } else if q > a {
                assert(starts[q] <= starts[i - 1]);
            }
        }
        if so_far <= 0 && wait != first {
            let q = choose|q: int|
                0 <= q < i - 1 && starts[q] == q && count(i - 1, #[trigger] promises(starts, msgs, q))
                    > 0 && wait == q + count(i - 1, promises(starts, msgs, q));
            let f = promises(starts, msgs, q);
            if f(i - 1) {
                assert(q == a);
                lemma_count_range(i - 1, f, 0, i - 1);
            }
        }
    }
}

/// In a set, every message so far has promised delivery or not.
proof fn lemma_split(sending: Seq<Step<BadUdp>>, starts: Seq<int>, i: int, n: int)
    requires
        in_sets(starts),
        starts.len() == sending.len(),
        0 <= n <= i < sending.len(),
        forall|j: int|
            0 <= j < sending.len() ==> sent_guarantee(#[trigger] sending[j]) != Guarantee::Nothing,
    ensures
        ({
            let q = starts[i];
            let orders = count(n, is_order_of(sending, starts, q));
            let deliveries = count(n, promises(starts, letters_of(sending, starts), q));
            &&& orders + deliveries == if n <= q {
                0
            } else {
                n - q
            }
            &&& 0 <= orders
            &&& 0 <= deliveries
        }),
    decreases n,
{
    lemma_start(starts, i);
    if n > 0 {
        let q = starts[i];
        let msgs = letters_of(sending, starts);
        lemma_split(sending, starts, i, n - 1);
        lemma_start(starts, n - 1);
        let f = is_order_of(sending, starts, q);
        let g = promises(starts, msgs, q);
        assert(sent_guarantee(sending[n - 1]) != Guarantee::Nothing);
        if n - 1 >= q {
            assert(starts[n - 1] == q);
            assert(f(n - 1) != g(n - 1));
        } else {
            assert(starts[n - 1] < q);
        }
    }
}

/// What one call that sends does.
#[verifier::rlimit(40)]
#[verifier::spinoff_prover]
proof fn lemma_send_step(
    sending: Seq<Step<BadUdp>>,
    starts: Seq<int>,
    max_len: int,
    i: int,
    base: ModOrd,
    first: int,
)
    requires
        sends_mixed(sending, starts, max_len),
        0 <= i < sending.len() < HALF,
        is_step(sending[i]),
        sending[i].s.wf(),
        sending[i].s.buf_min_space == max_len + HEADER_BYTES,
        base.ordinary(),
        sending[starts[i]].s.next_id == base.plus(starts[i]),
        sending[i].s.wait_until == base.plus(wait_offset(sending, starts, first, i)),
    ensures
        sending[i].t.next_id == base.plus(i + 1),
        sending[i].t.wait_until == base.plus(wait_offset(sending, starts, first, i + 1)),
        sending[i].to@ == sending[i].from@.push(sealed(letters_of(sending, starts)[i])).push(
            sealed(letters_of(sending, starts)[i]),
        ),
        HEADER_BYTES <= sealed(letters_of(sending, starts)[i]).len() <= max_len + HEADER_BYTES,
        sealed(letters_of(sending, starts)[i]).len() <= usize::MAX,
{
    assert(sends_numbered(sending, starts, i));
    lemma_start(starts, i);
    let letter = letters_of(sending, starts)[i];
    let msgs = letters_of(sending, starts);
    let q = starts[i];
    let numbered = (i - q) as u32;
    law_datagram_round_trip(letter.h, letter.payload);
    assert forall|j: int| 0 <= j < sending.len() implies sent_guarantee(#[trigger] sending[j])
        != Guarantee::Nothing by {
        assert(sends_numbered(sending, starts, j));
    }
    lemma_split(sending, starts, i, i);
    let orders = count(i, is_order_of(sending, starts, q));
    let before = count(i, promises(starts, msgs, q));
    let g = promises(starts, msgs, q);
    assert(g(i) <==> sent_guarantee(sending[i]) == Guarantee::Delivery);
    let after = count(i + 1, g);
    assert(after == before + if g(i) {
        1int
    } else {
        0int
    });
    let now = ord_counted(orders as u32, sent_guarantee(sending[i]), true);
    assert(now == (i + 1 - q) - after);
    law_steps_add_up(base, q, numbered + 1);
    law_steps_add_up(base, i + 1, -(now as int));
    assert(base.plus(i + 1).plus(-(now as int)) == base.plus(q + after));
}

/// The messages are numbered one after the other, and what is waited for follows.
proof fn lemma_numbering(
    s: State,
    from: BadUdp,
    first: int,
    starts: Seq<int>,
    sending: Seq<Step<BadUdp>>,
    m: State,
    mid: BadUdp,
    i: int,
)
    requires
        is_at_rest(s, from, first),
        is_chain(sending, s, from, m, mid),
        sends_mixed(sending, starts, s.buf_min_space - HEADER_BYTES),
        0 <= i <= sending.len() < HALF,
    ensures
        forall|j: int|
            0 <= j <= i ==> (#[trigger] at(sending, m, j)).next_id == s.next_id.plus(j) && at(
                sending,
                m,
                j,
            ).wait_until == s.next_id.plus(wait_offset(sending, starts, first, j)),
    decreases i,
{
    if i == 0 {
        law_steps_add_up(s.next_id, 0, 0);
        assert(at(sending, m, 0) == s) by {
            if sending.len() > 0 {
                assert(follows(sending, s, from, 0));
            }
        }
    } else {
        let k = i - 1;
        lemma_numbering(s, from, first, starts, sending, m, mid, k);
        lemma_start(starts, k);
        assert(follows(sending, s, from, k));
        assert(at(sending, m, starts[k]).next_id == s.next_id.plus(starts[k]));
        assert(at(sending, m, k) == sending[k].s);
        lemma_send_step(sending, starts, s.buf_min_space - HEADER_BYTES, k, s.next_id, first);
        assert(at(sending, m, i) == sending[k].t) by {
            if i < sending.len() {
                assert(follows(sending, s, from, i));
            }
        }
    }
}

/// What one call does to the socket.
proof fn lemma_sent_socket(
    s: State,
    from: BadUdp,
    first: int,
    starts: Seq<int>,
    sending: Seq<Step<BadUdp>>,
    m: State,
    mid: BadUdp,
    i: int,
)
    requires
        is_at_rest(s, from, first),
        is_chain(sending, s, from, m, mid),
        sends_mixed(sending, starts, s.buf_min_space - HEADER_BYTES),
        0 <= i < sending.len() < HALF,
    ensures
        ({
            let sockets = sockets_of(sending, mid);
            let d = sealed(letters_of(sending, starts)[i]);
            &&& sockets[i].sends(&sockets[i + 1], d, Ok(d.len() as usize))
            &&& HEADER_BYTES <= d.len() <= s.buf_min_space
        }),
{
    lemma_numbering(s, from, first, starts, sending, m, mid, i);
    lemma_start(starts, i);
    assert(follows(sending, s, from, i));
    assert(at(sending, m, starts[i]).next_id == s.next_id.plus(starts[i]));
    assert(at(sending, m, i) == sending[i].s);
    lemma_send_step(sending, starts, s.buf_min_space - HEADER_BYTES, i, s.next_id, first);
    if i + 1 < sending.len() {
        assert(follows(sending, s, from, i + 1));
    }
}

/// The messages that were sent are mixed sets.
proof fn lemma_sent_mixed(
    base: ModOrd,
    first: int,
    starts: Seq<int>,
    sending: Seq<Step<BadUdp>>,
    m: State,
    max_len: int,
)
    requires
        base.ordinary(),
        sends_mixed(sending, starts, max_len),
        sending.len() < HALF,
        forall|j: int|
            0 <= j <= sending.len() ==> (#[trigger] at(sending, m, j)).next_id == base.plus(j)
                && at(sending, m, j).wait_until == base.plus(
                wait_offset(sending, starts, first, j),
            ),
    ensures
        is_mixed(
            base,
            starts,
            first,
            awaited_of(sending, starts, first),
            letters_of(sending, starts),
        ),
{
    let msgs = letters_of(sending, starts);
    let awaited = awaited_of(sending, starts, first);
    assert forall|i: int| 0 <= i < msgs.len() implies {
        &&& (#[trigger] msgs[i]).h.id == base.plus(i)
        &&& msgs[i].h.set_id == base.plus(starts[i])
        &&& msgs[i].h.wait_until == base.plus(awaited[i])
        &&& is_awaited(starts, msgs, first, starts[i], awaited[i])
    } by {
        lemma_start(starts, i);
        assert(sends_numbered(sending, starts, i));
        assert(at(sending, m, starts[i]).next_id == base.plus(starts[i]));
        law_steps_add_up(base, starts[i], i - starts[i]);
        lemma_awaited(sending, starts, first, starts[i]);
    }
}

/// What sending sets does: each message is under way twice.
#[verifier::rlimit(40)]
#[verifier::spinoff_prover]
proof fn lemma_sending(
    s: State,
    from: BadUdp,
    first: int,
    starts: Seq<int>,
    sending: Seq<Step<BadUdp>>,
    m: State,
    mid: BadUdp,
)
    requires
        is_at_rest(s, from, first),
        calls(sending, s, from, m, mid),
        sends_mixed(sending, starts, s.buf_min_space - HEADER_BYTES),
        sending.len() < HALF,
    ensures
        ({
            let msgs = letters_of(sending, starts);
            let len = sending.len() as int;
            let sealed_msgs = msgs.map_values(|letter: Letter| sealed(letter));
            &&& m.wf()
            &&& m.buf_min_space == s.buf_min_space
            &&& m.next_id == s.next_id.plus(len)
            &&& m.wait_until == s.next_id.plus(wait_offset(sending, starts, first, len))
            &&& is_mixed(s.next_id, starts, first, awaited_of(sending, starts, first), msgs)
            &&& mid@.len() == 2 * len
            &&& mid@.to_multiset() == sealed_msgs.to_multiset().add(sealed_msgs.to_multiset())
            &&& forall|d: Seq<u8>| #[trigger]
                mid@.contains(d) ==> is_one_of(msgs, d) && HEADER_BYTES <= d.len()
                    <= s.buf_min_space
        }),
{
    let base = s.next_id;
    let msgs = letters_of(sending, starts);
    let len = sending.len() as int;
    let sealed_msgs = msgs.map_values(|letter: Letter| sealed(letter));
    lemma_chain(sending, s, from, m, mid);
    lemma_numbering(s, from, first, starts, sending, m, mid, len);
    assert(at(sending, m, len) == m);
    lemma_sent_mixed(base, first, starts, sending, m, s.buf_min_space - HEADER_BYTES);
    let sockets = sockets_of(sending, mid);
    assert forall|i: int| 0 <= i < len implies (#[trigger] sockets[i]).sends(
        &sockets[i + 1],
        sealed_msgs[i],
        Ok(sealed_msgs[i].len() as usize),
    ) by {
        lemma_sent_socket(s, from, first, starts, sending, m, mid, i);
    }
    assert(sockets[0]@.len() == 0) by {
        if len > 0 {
            assert(follows(sending, s, from, 0));
        }
    }
    lemma_under_way(sockets, sealed_msgs);
    assert(sockets.last() == mid);
    assert forall|d: Seq<u8>| #[trigger] mid@.contains(d) implies is_one_of(msgs, d)
        && HEADER_BYTES <= d.len() <= s.buf_min_space by {
        assert(sealed_msgs.contains(d));
        let i = choose|i: int| 0 <= i < sealed_msgs.len() && sealed_msgs[i] == d;
        assert(d == sealed(msgs[i]));
        lemma_sent_socket(s, from, first, starts, sending, m, mid, i);
    }
}

/// Sending hears nothing and returns no payload.
proof fn lemma_sends_hear_nothing(sending: Seq<Step<BadUdp>>)
    requires
        forall|i: int| 0 <= i < sending.len() ==> (#[trigger] sending[i]).call is Send,
    ensures
        all_heard(sending) == Seq::<Seq<u8>>::empty(),
        all_got(sending) == Seq::<Seq<u8>>::empty(),
    decreases sending.len(),
{
    if sending.len() > 0 {
        let fewer = sending.drop_last();
        assert(sending[sending.len() - 1] == sending.last());
        assert forall|i: int| 0 <= i < fewer.len() implies (#[trigger] fewer[i]).call is Send by {
            assert(fewer[i] == sending[i]);
        }
        lemma_sends_hear_nothing(fewer);
    }
}

/// The events of sending and receiving: nothing but what was sent arrives.
proof fn lemma_self_talk(
    s: State,
    from: BadUdp,
    first: int,
    starts: Seq<int>,
    sending: Seq<Step<BadUdp>>,
    m: State,
    mid: BadUdp,
    receiving: Seq<Step<BadUdp>>,
    t: State,
    to: BadUdp,
) -> (events: Seq<Event>)
    requires
        is_at_rest(s, from, first),
        calls(sending, s, from, m, mid),
        sends_mixed(sending, starts, s.buf_min_space - HEADER_BYTES),
        sending.len() < HALF,
        calls(receiving, m, mid, t, to),
        forall|k: int| 0 <= k < receiving.len() ==> received(#[trigger] receiving[k]) is Some,
    ensures
        leads(s, events, t, all_heard(receiving), all_got(receiving)),
        only_brings(letters_of(sending, starts), all_heard(receiving)),
{
    let msgs = letters_of(sending, starts);
    let arrived = all_heard(receiving);
    lemma_sending(s, from, first, starts, sending, m, mid);
    lemma_receiving(receiving, m, mid, t, to, s.buf_min_space);
    let before = law_calls_make_history(sending, s, from, m, mid);
    let after = law_calls_make_history(receiving, m, mid, t, to);
    assert forall|i: int| 0 <= i < sending.len() implies (#[trigger] sending[i]).call is Send by {
        assert(sends_numbered(sending, starts, i));
    }
    lemma_sends_hear_nothing(sending);
    lemma_leads_chain(
        s,
        before,
        m,
        all_heard(sending),
        all_got(sending),
        after,
        t,
        arrived,
        all_got(receiving),
    );
    assert(all_heard(sending) + arrived =~= arrived);
    assert(all_got(sending) + all_got(receiving) =~= all_got(receiving));
    assert forall|k: int| 0 <= k < arrived.len() implies is_one_of(msgs, #[trigger] arrived[k]) by {
        assert(arrived.contains(arrived[k]));
        assert(mid@.contains(arrived[k]));
    }
    before + after
}

} // verus!
