//! What comes out of a socket that duplicates and jumbles, and out of an endpoint
//! on such a socket.

use crate::config::Guarantee;
use crate::error::Error;
use crate::header::HEADER_BYTES;
use crate::history::{
    all_got, all_heard, calls, heard, history, is_step, law_calls_make_history, leads,
    lemma_leads_chain, lemma_sizes_stay, payloads, Call, Event, Step,
};
use crate::jumbled::{
    expects, has_arrived, has_settled, in_order, in_sets, is_one_of, lag,
    law_failed_recv_leaves_nothing_ready, law_jumbled_messages_are_sorted,
    lemma_arrived_in_window, lemma_none_missing, lemma_start, only_brings, orderly, picks, sealed, sets_in_order,
};
use crate::laws::{law_datagram_round_trip, law_steps_add_up};
use crate::mod_ord::{ModOrd, HALF};
use crate::state::{
    hearing, hears_all, receptions, set_header, some_ready, Letter, Reception, State, Verdict,
    RECV_LIMIT,
};
use crate::udp::{bad_udp_delivers, bad_udp_receives, BadUdp, UdpLike};
use vstd::multiset::Multiset;
use vstd::prelude::*;

verus! {

/// What one call of `recv` on a [`BadUdp`] does, where the buffer is long enough.
proof fn lemma_one_delivery(
    flying: Seq<Seq<u8>>,
    left: Seq<Seq<u8>>,
    before: Seq<u8>,
    after: Seq<u8>,
    reply: Result<usize, Error>,
)
    requires
        bad_udp_receives(flying, left, before, after, reply),
        forall|d: Seq<u8>| #[trigger] flying.contains(d) ==> d.len() <= before.len(),
    ensures
        flying.len() == 0 ==> reply == Err::<usize, Error>(Error::WouldBlock) && left == flying,
        flying.len() > 0 ==> {
            &&& reply matches Ok(n)
            &&& n <= after.len()
            &&& flying.contains(after.take(n as int))
            &&& flying.to_multiset() == left.to_multiset().insert(after.take(n as int))
            &&& left.len() == flying.len() - 1
            &&& forall|d: Seq<u8>| #[trigger] left.contains(d) ==> flying.contains(d)
        },
{
    if flying.len() > 0 {
        let n = reply->Ok_0;
        let i = choose|i: int| bad_udp_delivers(flying, i, left, before, after, n);
        let d = flying[i];
        assert(flying.contains(d));
        assert(after.take(n as int) =~= d);
        flying.to_multiset_ensures();
        assert(flying.to_multiset().count(d) > 0);
        assert(left.to_multiset() =~= flying.to_multiset().remove(d));
        assert(flying.to_multiset() =~= left.to_multiset().insert(d));
        assert forall|x: Seq<u8>| #[trigger] left.contains(x) implies flying.contains(x) by {
            let k = choose|k: int| 0 <= k < left.len() && left[k] == x;
            if k < i {
                assert(flying[k] == x);
            } else {
                assert(flying[k + 1] == x);
            }
        }
    }
}

/// The datagrams that calls of `recv` hand over, where they left the buffers as in
/// `after` and answered `replies`.
pub open spec fn handed_over(after: Seq<Seq<u8>>, replies: Seq<Result<usize, Error>>) -> Seq<
    Seq<u8>,
>
    decreases replies.len(),
{
    if replies.len() == 0 {
        seq![]
    } else {
        let fewer = handed_over(after, replies.drop_last());
        match replies.last() {
            Ok(n) => fewer.push(after[replies.len() - 1].take(n as int)),
            Err(_) => fewer,
        }
    }
}

/// The datagrams `msgs` are sent, one after the other; `sockets` are the socket
/// before and after each.
pub open spec fn puts_under_way(sockets: Seq<BadUdp>, msgs: Seq<Seq<u8>>) -> bool {
    &&& sockets.len() == msgs.len() + 1
    &&& forall|i: int|
        0 <= i < msgs.len() ==> (#[trigger] sockets[i]).sends(
            &sockets[i + 1],
            msgs[i],
            Ok(msgs[i].len() as usize),
        )
}

/// The socket is asked again and again, with buffers that hold `before` and then
/// `after`, and answers `replies`; `sockets` are the socket before and after each.
pub open spec fn asks(
    sockets: Seq<BadUdp>,
    before: Seq<Seq<u8>>,
    after: Seq<Seq<u8>>,
    replies: Seq<Result<usize, Error>>,
) -> bool {
    &&& sockets.len() == replies.len() + 1
    &&& before.len() == replies.len()
    &&& after.len() == replies.len()
    &&& forall|k: int|
        0 <= k < replies.len() ==> (#[trigger] sockets[k]).receives(
            &sockets[k + 1],
            before[k],
            after[k],
            replies[k],
        )
}

/// A [`BadUdp`] duplicates and jumbles, but loses nothing: asked until it fails, it
/// hands over every datagram that was sent exactly twice, and nothing else, and
/// then fails because there is nothing more.
pub proof fn law_bad_udp_delivers_twice(
    sending: Seq<BadUdp>,
    msgs: Seq<Seq<u8>>,
    draining: Seq<BadUdp>,
    before: Seq<Seq<u8>>,
    after: Seq<Seq<u8>>,
    replies: Seq<Result<usize, Error>>,
)
    requires
        puts_under_way(sending, msgs),
        sending[0]@.len() == 0,
        asks(draining, before, after, replies),
        draining[0] == sending.last(),
        replies.len() > 0,
        forall|k: int| 0 <= k < replies.len() - 1 ==> (#[trigger] replies[k]) is Ok,
        replies.last() is Err,
        forall|i: int, k: int|
            0 <= i < msgs.len() && 0 <= k < before.len() ==> (#[trigger] msgs[i]).len() <= (
            #[trigger] before[k]).len(),
    ensures
        replies.len() == 2 * msgs.len() + 1,
        replies.last() == Err::<usize, Error>(Error::WouldBlock),
        handed_over(after, replies).to_multiset() == msgs.to_multiset().add(msgs.to_multiset()),
{
    lemma_under_way(sending, msgs);
    let flying = sending.last()@;
    assert forall|d: Seq<u8>, k: int|
        #![trigger flying.contains(d), before[k]]
        flying.contains(d) && 0 <= k < before.len() implies d.len() <= before[k].len() by {
        assert(msgs.contains(d));
        let i = choose|i: int| 0 <= i < msgs.len() && msgs[i] == d;
        assert(msgs[i].len() <= before[k].len());
    }
    lemma_draining(draining, before, after, replies);
    let left = draining.last()@;
    left.to_multiset_ensures();
    assert(left =~= Seq::<Seq<u8>>::empty());
    assert(left.to_multiset() =~= Multiset::empty());
    assert(handed_over(after, replies).to_multiset() =~= flying.to_multiset());
}

/// What is under way once the datagrams were sent.
pub proof fn lemma_under_way(sockets: Seq<BadUdp>, msgs: Seq<Seq<u8>>)
    requires
        puts_under_way(sockets, msgs),
        sockets[0]@.len() == 0,
    ensures
        sockets.last()@.to_multiset() == msgs.to_multiset().add(msgs.to_multiset()),
        sockets.last()@.len() == 2 * msgs.len(),
        forall|d: Seq<u8>| #[trigger] sockets.last()@.contains(d) ==> msgs.contains(d),
    decreases msgs.len(),
{
    let last = sockets.last()@;
    if msgs.len() == 0 {
        assert(last =~= Seq::<Seq<u8>>::empty());
        assert(msgs =~= Seq::<Seq<u8>>::empty());
        last.to_multiset_ensures();
        assert(last.to_multiset() =~= msgs.to_multiset().add(msgs.to_multiset()));
    } else {
        let fewer = msgs.drop_last();
        let d = msgs.last();
        let n = fewer.len() as int;
        assert forall|i: int| 0 <= i < fewer.len() implies (#[trigger] sockets.drop_last()[i]).sends(
            &sockets.drop_last()[i + 1],
            fewer[i],
            Ok(fewer[i].len() as usize),
        ) by {
            assert(sockets[i].sends(&sockets[i + 1], msgs[i], Ok(msgs[i].len() as usize)));
        }
        lemma_under_way(sockets.drop_last(), fewer);
        let mid = sockets.drop_last().last()@;
        assert(sockets[n].sends(&sockets[n + 1], msgs[n], Ok(msgs[n].len() as usize)));
        assert(last == mid.push(d).push(d));
        assert(last.to_multiset() == msgs.to_multiset().add(msgs.to_multiset())) by {
            vstd::seq_lib::to_multiset_build(mid, d);
            vstd::seq_lib::to_multiset_build(mid.push(d), d);
            vstd::seq_lib::to_multiset_build(fewer, d);
            assert(msgs =~= fewer.push(d));
            assert(last.to_multiset() =~= msgs.to_multiset().add(msgs.to_multiset()));
        }
        assert forall|x: Seq<u8>| #[trigger] last.contains(x) implies msgs.contains(x) by {
            let k = choose|k: int| 0 <= k < last.len() && last[k] == x;
            if k < mid.len() {
                assert(mid[k] == x);
                assert(mid.contains(x));
                assert(fewer.contains(x));
                let i = choose|i: int| 0 <= i < fewer.len() && fewer[i] == x;
                assert(msgs[i] == x);
            } else {
                assert(msgs[n] == x);
            }
        }
    }
}

/// What was handed over and what is left make up what was under way.
proof fn lemma_draining(
    sockets: Seq<BadUdp>,
    before: Seq<Seq<u8>>,
    after: Seq<Seq<u8>>,
    replies: Seq<Result<usize, Error>>,
)
    requires
        asks(sockets, before, after, replies),
        forall|k: int| 0 <= k < replies.len() - 1 ==> (#[trigger] replies[k]) is Ok,
        forall|d: Seq<u8>, k: int|
            #![trigger sockets[0]@.contains(d), before[k]]
            sockets[0]@.contains(d) && 0 <= k < before.len() ==> d.len() <= before[k].len(),
    ensures
        sockets[0]@.to_multiset() == sockets.last()@.to_multiset().add(
            handed_over(after, replies).to_multiset(),
        ),
        forall|d: Seq<u8>| #[trigger] sockets.last()@.contains(d) ==> sockets[0]@.contains(d),
        replies.len() > 0 && replies.last() is Err ==> {
            &&& replies.last() == Err::<usize, Error>(Error::WouldBlock)
            &&& sockets.last()@.len() == 0
            &&& sockets[0]@.len() == replies.len() - 1
        },
        replies.len() == 0 || replies.last() is Ok ==> sockets[0]@.len() == sockets.last()@.len()
            + replies.len(),
    decreases replies.len(),
{
    let flying = sockets[0]@;
    let got = handed_over(after, replies);
    got.to_multiset_ensures();
    if replies.len() == 0 {
        assert(flying.to_multiset() =~= flying.to_multiset().add(got.to_multiset()));
    } else {
        let n = replies.len() - 1;
        let fewer = replies.drop_last();
        assert forall|k: int| 0 <= k < fewer.len() implies (#[trigger] sockets.drop_last()[k]).receives(
            &sockets.drop_last()[k + 1],
            before.drop_last()[k],
            after.drop_last()[k],
            fewer[k],
        ) by {
            assert(sockets[k].receives(&sockets[k + 1], before[k], after[k], replies[k]));
        }
        assert forall|k: int| 0 <= k < fewer.len() implies (#[trigger] fewer[k]) is Ok by {
            assert(replies[k] is Ok);
        }
        lemma_draining(sockets.drop_last(), before.drop_last(), after.drop_last(), fewer);
        lemma_handed_over_prefix(after.drop_last(), after, fewer);
        let mid = sockets[n]@;
        let left = sockets[n + 1]@;
        assert(sockets[n].receives(&sockets[n + 1], before[n], after[n], replies[n]));
        assert forall|d: Seq<u8>| #[trigger] mid.contains(d) implies d.len() <= before[n].len() by {
            assert(flying.contains(d));
        }
        lemma_one_delivery(mid, left, before[n], after[n], replies[n]);
        let earlier = handed_over(after, fewer);
        earlier.to_multiset_ensures();
        assert(flying.to_multiset() =~= left.to_multiset().add(got.to_multiset()));
    }
}

/// What was handed over depends on the buffers of the calls alone.
proof fn lemma_handed_over_prefix(
    a: Seq<Seq<u8>>,
    b: Seq<Seq<u8>>,
    replies: Seq<Result<usize, Error>>,
)
    requires
        replies.len() <= a.len() <= b.len(),
        forall|k: int| 0 <= k < a.len() ==> #[trigger] a[k] == b[k],
    ensures
        handed_over(a, replies) == handed_over(b, replies),
    decreases replies.len(),
{
    if replies.len() > 0 {
        lemma_handed_over_prefix(a, b, replies.drop_last());
        assert(a[replies.len() - 1] == b[replies.len() - 1]);
    }
}

/// An endpoint that has received all that was sent, on a socket with nothing under
/// way.
pub open spec fn is_idle(s: State, socket: BadUdp) -> bool {
    &&& expects(s, s.next_id)
    &&& s.wait_until == s.next_id
    &&& socket@.len() == 0
}

/// A new endpoint on a new socket is idle.
pub proof fn law_new_endpoint_is_idle(
    max_msg_size: int,
    buffer_grow_space: int,
    window_size: u32,
    socket: BadUdp,
)
    requires
        0 <= max_msg_size,
        0 <= buffer_grow_space,
        max_msg_size + buffer_grow_space + HEADER_BYTES <= usize::MAX,
        socket@.len() == 0,
    ensures
        is_idle(State::initial(max_msg_size, buffer_grow_space, window_size), socket),
{
}

/// The payload that a call sends.
pub open spec fn sent_payload(step: Step<BadUdp>) -> Seq<u8> {
    match step.call {
        Call::Send { payload, .. } => payload,
        _ => seq![],
    }
}

/// Whether call `i` has sent a message that promises delivery, in the set that began
/// before call `starts[i]`.
pub open spec fn sends_delivery(sending: Seq<Step<BadUdp>>, starts: Seq<int>, i: int) -> bool {
    let began = sending[starts[i]].s;
    match sending[i].call {
        Call::Send { set_id, wait_until, count, ord_count, guarantee, payload, sent } => {
            &&& set_id == began.next_id
            &&& wait_until == began.wait_until
            &&& count == i - starts[i]
            &&& ord_count == 0
            &&& guarantee == Guarantee::Delivery
            &&& sent is Ok
        },
        _ => false,
    }
}

/// The calls send sets of messages that promise delivery, with payloads of at most
/// `max_len` bytes.
pub open spec fn sends_sets(
    sending: Seq<Step<BadUdp>>,
    starts: Seq<int>,
    max_len: int,
) -> bool {
    &&& in_sets(starts)
    &&& starts.len() == sending.len()
    &&& forall|i: int|
        0 <= i < sending.len() ==> sends_delivery(sending, starts, i) && sent_payload(
            #[trigger] sending[i],
        ).len() <= max_len
}

/// What a call of `recv` has returned.
pub open spec fn received(step: Step<BadUdp>) -> Option<Result<Seq<u8>, Error>> {
    match step.call {
        Call::Recv { received, .. } => Some(received),
        _ => None,
    }
}

/// The calls are calls of `recv`, of which the last one fails and no other does.
pub open spec fn receives_until_failure(receiving: Seq<Step<BadUdp>>) -> bool {
    &&& receiving.len() > 0
    &&& forall|k: int|
        0 <= k < receiving.len() ==> match received(#[trigger] receiving[k]) {
            Some(r) => r is Ok <==> k < receiving.len() - 1,
            None => false,
        }
}

/// The library in one sentence: an endpoint on a socket that duplicates and jumbles
/// hands out every message that promises delivery exactly once, and set by set.
///
/// The endpoint is idle, sends sets of such messages to itself, and then receives
/// until that fails. What it hands out is what was sent, shuffled as `order` says: no
/// message comes before one of an earlier set. It fails because there is nothing
/// more, and is idle again. The messages must fit, their sets must lie in the window
/// from the beginning, and their numbers must not wrap around.
#[verifier::rlimit(40)]
#[verifier::spinoff_prover]
pub proof fn law_endpoint_sorts_what_the_socket_jumbles(
    s: State,
    from: BadUdp,
    starts: Seq<int>,
    sending: Seq<Step<BadUdp>>,
    m: State,
    mid: BadUdp,
    receiving: Seq<Step<BadUdp>>,
    t: State,
    to: BadUdp,
) -> (order: Seq<int>)
    requires
        is_idle(s, from),
        calls(sending, s, from, m, mid),
        sends_sets(sending, starts, s.buf_min_space - HEADER_BYTES),
        lag(s, s.next_id) + sending.len() < HALF,
        forall|i: int|
            0 <= i < starts.len() ==> lag(s, s.next_id) + #[trigger] starts[i] <= s.window_size,
        calls(receiving, m, mid, t, to),
        receives_until_failure(receiving),
    ensures
        picks(order, sending.len() as int),
        order.len() == sending.len(),
        sets_in_order(order, starts),
        all_got(receiving) == Seq::new(order.len(), |k: int| sent_payload(sending[order[k]])),
        all_got(receiving).to_multiset() == sending.map_values(
            |step: Step<BadUdp>| sent_payload(step),
        ).to_multiset(),
        receiving.len() == sending.len() + 1,
        received(receiving.last()) == Some(Err::<Seq<u8>, Error>(Error::WouldBlock)),
        t.n == s.next_id.plus(sending.len() as int),
        t.wait_until == t.n,
        t.next_id == t.n,
        is_idle(t, to),
{
    let base = s.next_id;
    let msgs = letters_of(sending, starts);
    let sealed_msgs = msgs.map_values(|letter: Letter| sealed(letter));
    let arrived = all_heard(receiving);
    lemma_sending(s, from, starts, sending, m, mid);
    lemma_receiving(receiving, m, mid, t, to, s.buf_min_space);
    let events = lemma_self_talk(s, from, starts, sending, m, mid, receiving, t, to);
    assert forall|i: int| 0 <= i < msgs.len() implies #[trigger] has_arrived(
        s,
        msgs,
        events,
        i,
    ) by {
        assert(sealed_msgs[i] == sealed(msgs[i]));
        lemma_everything_arrives(mid@, to@, arrived, sealed_msgs, sealed(msgs[i]));
        lemma_arrived_in_window(base, starts, msgs, s, events, i);
    }
    assert(has_settled(s, msgs, events));
    let order = law_jumbled_messages_are_sorted(base, starts, msgs, s, events);
    lemma_got_in_order(s, events, starts, sending, order, all_got(receiving));
    let all = sending.map_values(|step: Step<BadUdp>| sent_payload(step));
    assert(all_got(receiving) =~= Seq::new(order.len(), |k: int| all[order[k]]));
    lemma_shuffled(order, all);
    lemma_got_count(receiving);
    order
}

/// So does a new endpoint with as many messages as its window is large.
pub proof fn law_new_endpoint_sorts_what_the_socket_jumbles(
    max_msg_size: int,
    buffer_grow_space: int,
    window_size: u32,
    from: BadUdp,
    starts: Seq<int>,
    sending: Seq<Step<BadUdp>>,
    m: State,
    mid: BadUdp,
    receiving: Seq<Step<BadUdp>>,
    t: State,
    to: BadUdp,
) -> (order: Seq<int>)
    requires
        0 <= max_msg_size,
        0 <= buffer_grow_space,
        max_msg_size + buffer_grow_space + HEADER_BYTES <= usize::MAX,
        from@.len() == 0,
        calls(
            sending,
            State::initial(max_msg_size, buffer_grow_space, window_size),
            from,
            m,
            mid,
        ),
        sends_sets(sending, starts, max_msg_size),
        sending.len() <= window_size,
        sending.len() < HALF,
        calls(receiving, m, mid, t, to),
        receives_until_failure(receiving),
    ensures
        picks(order, sending.len() as int),
        order.len() == sending.len(),
        sets_in_order(order, starts),
        all_got(receiving) == Seq::new(order.len(), |k: int| sent_payload(sending[order[k]])),
        all_got(receiving).to_multiset() == sending.map_values(
            |step: Step<BadUdp>| sent_payload(step),
        ).to_multiset(),
        received(receiving.last()) == Some(Err::<Seq<u8>, Error>(Error::WouldBlock)),
        t.n == t.wait_until,
        t.n == t.next_id,
        is_idle(t, to),
{
    let s = State::initial(max_msg_size, buffer_grow_space, window_size);
    law_new_endpoint_is_idle(max_msg_size, buffer_grow_space, window_size, from);
    assert forall|i: int| 0 <= i < starts.len() implies lag(s, s.next_id) + #[trigger] starts[i]
        <= window_size by {
        lemma_start(starts, i);
    }
    law_endpoint_sorts_what_the_socket_jumbles(
        s,
        from,
        starts,
        sending,
        m,
        mid,
        receiving,
        t,
        to,
    )
}

/// Until all was received, the endpoint has handed out some of what was sent, no
/// message twice and none before one of an earlier set. So it cannot go on without
/// failing.
pub proof fn law_endpoint_sorts_so_far(
    s: State,
    from: BadUdp,
    starts: Seq<int>,
    sending: Seq<Step<BadUdp>>,
    m: State,
    mid: BadUdp,
    receiving: Seq<Step<BadUdp>>,
    t: State,
    to: BadUdp,
) -> (order: Seq<int>)
    requires
        is_idle(s, from),
        calls(sending, s, from, m, mid),
        sends_sets(sending, starts, s.buf_min_space - HEADER_BYTES),
        lag(s, s.next_id) + sending.len() < HALF,
        calls(receiving, m, mid, t, to),
        forall|k: int| 0 <= k < receiving.len() ==> received(#[trigger] receiving[k]) is Some,
    ensures
        picks(order, sending.len() as int),
        order.len() <= sending.len(),
        sets_in_order(order, starts),
        all_got(receiving) == Seq::new(order.len(), |k: int| sent_payload(sending[order[k]])),
{
    let base = s.next_id;
    let msgs = letters_of(sending, starts);
    lemma_sending(s, from, starts, sending, m, mid);
    let events = lemma_self_talk(s, from, starts, sending, m, mid, receiving, t, to);
    let order = law_jumbled_messages_are_sorted(base, starts, msgs, s, events);
    lemma_got_in_order(s, events, starts, sending, order, all_got(receiving));
    if order.len() >= sending.len() {
        lemma_none_missing(order, sending.len() as int);
    }
    order
}

/// The events of sending and receiving: nothing but what was sent arrives.
proof fn lemma_self_talk(
    s: State,
    from: BadUdp,
    starts: Seq<int>,
    sending: Seq<Step<BadUdp>>,
    m: State,
    mid: BadUdp,
    receiving: Seq<Step<BadUdp>>,
    t: State,
    to: BadUdp,
) -> (events: Seq<Event>)
    requires
        is_idle(s, from),
        calls(sending, s, from, m, mid),
        sends_sets(sending, starts, s.buf_min_space - HEADER_BYTES),
        sending.len() < HALF,
        calls(receiving, m, mid, t, to),
        forall|k: int| 0 <= k < receiving.len() ==> received(#[trigger] receiving[k]) is Some,
    ensures
        leads(s, events, t, all_heard(receiving), all_got(receiving)),
        only_brings(letters_of(sending, starts), all_heard(receiving)),
{
    let msgs = letters_of(sending, starts);
    let arrived = all_heard(receiving);
    lemma_sending(s, from, starts, sending, m, mid);
    lemma_receiving(receiving, m, mid, t, to, s.buf_min_space);
    let first = law_calls_make_history(sending, s, from, m, mid);
    let second = law_calls_make_history(receiving, m, mid, t, to);
    lemma_sends_hear_nothing(sending, starts, s.buf_min_space - HEADER_BYTES);
    lemma_leads_chain(
        s,
        first,
        m,
        all_heard(sending),
        all_got(sending),
        second,
        t,
        arrived,
        all_got(receiving),
    );
    assert(all_heard(sending) + arrived =~= arrived);
    assert(all_got(sending) + all_got(receiving) =~= all_got(receiving));
    assert forall|k: int| 0 <= k < arrived.len() implies is_one_of(msgs, #[trigger] arrived[k]) by {
        assert(arrived.contains(arrived[k]));
        assert(mid@.contains(arrived[k]));
    }
    first + second
}

/// What was handed out are the payloads that were sent, in this order.
proof fn lemma_got_in_order(
    s: State,
    events: Seq<Event>,
    starts: Seq<int>,
    sending: Seq<Step<BadUdp>>,
    order: Seq<int>,
    got: Seq<Seq<u8>>,
)
    requires
        picks(order, sending.len() as int),
        in_order(order, letters_of(sending, starts), history(s, events).1),
        payloads(history(s, events).1) == got,
    ensures
        got == Seq::new(order.len(), |k: int| sent_payload(sending[order[k]])),
{
    let out = history(s, events).1;
    assert forall|k: int| 0 <= k < order.len() implies payloads(out)[k] == sent_payload(
        sending[#[trigger] order[k]],
    ) by {
        assert(out[k] == letters_of(sending, starts)[order[k]]);
    }
    assert(got =~= Seq::new(order.len(), |k: int| sent_payload(sending[order[k]])));
}

/// The messages that the calls send.
spec fn letters_of(sending: Seq<Step<BadUdp>>, starts: Seq<int>) -> Seq<Letter> {
    Seq::new(
        sending.len(),
        |i: int|
            Letter {
                h: set_header(
                    sending[i].s,
                    sending[starts[i]].s.next_id,
                    sending[starts[i]].s.wait_until,
                    (i - starts[i]) as u32,
                    Guarantee::Delivery,
                ),
                payload: sent_payload(sending[i]),
            },
    )
}

/// Whether call `i` goes on where the one before it ended.
pub open spec fn follows(steps: Seq<Step<BadUdp>>, s: State, from: BadUdp, i: int) -> bool {
    &&& is_step(steps[i])
    &&& steps[i].s.wf()
    &&& steps[i].s.buf_min_space == s.buf_min_space
    &&& steps[i].s == if i == 0 {
        s
    } else {
        steps[i - 1].t
    }
    &&& steps[i].from == if i == 0 {
        from
    } else {
        steps[i - 1].to
    }
}

/// Calls that follow each other.
pub open spec fn is_chain(steps: Seq<Step<BadUdp>>, s: State, from: BadUdp, t: State, to: BadUdp) -> bool {
    &&& t == (if steps.len() == 0 {
        s
    } else {
        steps.last().t
    })
    &&& to == (if steps.len() == 0 {
        from
    } else {
        steps.last().to
    })
    &&& forall|i: int| 0 <= i < steps.len() ==> #[trigger] follows(steps, s, from, i)
}

pub proof fn lemma_chain(steps: Seq<Step<BadUdp>>, s: State, from: BadUdp, t: State, to: BadUdp)
    requires
        s.wf(),
        calls(steps, s, from, t, to),
    ensures
        is_chain(steps, s, from, t, to),
        t.wf(),
        t.buf_min_space == s.buf_min_space,
    decreases steps.len(),
{
    let events = law_calls_make_history(steps, s, from, t, to);
    lemma_sizes_stay(s, events);
    if steps.len() > 0 {
        let fewer = steps.drop_last();
        let last = steps.last();
        lemma_chain(fewer, s, from, last.s, last.from);
        assert forall|i: int| 0 <= i < steps.len() implies #[trigger] follows(steps, s, from, i) by {
            if i < fewer.len() {
                assert(follows(fewer, s, from, i));
            }
        }
    }
}

/// Sending hears nothing and returns no payload.
proof fn lemma_sends_hear_nothing(sending: Seq<Step<BadUdp>>, starts: Seq<int>, max_len: int)
    requires
        sends_sets(sending, starts, max_len),
    ensures
        all_heard(sending) == Seq::<Seq<u8>>::empty(),
        all_got(sending) == Seq::<Seq<u8>>::empty(),
    decreases sending.len(),
{
    if sending.len() > 0 {
        let n = sending.len() - 1;
        assert(sends_delivery(sending, starts, n) && sending[n] == sending.last());
        lemma_sends_sets_prefix(sending, starts, max_len);
        lemma_sends_hear_nothing(sending.drop_last(), starts.drop_last(), max_len);
    }
}

proof fn lemma_sends_sets_prefix(sending: Seq<Step<BadUdp>>, starts: Seq<int>, max_len: int)
    requires
        sends_sets(sending, starts, max_len),
        sending.len() > 0,
    ensures
        sends_sets(sending.drop_last(), starts.drop_last(), max_len),
{
    let fewer = sending.drop_last();
    let fewer_starts = starts.drop_last();
    assert forall|i: int| 0 <= i < fewer.len() implies sends_delivery(fewer, fewer_starts, i)
        && sent_payload(#[trigger] fewer[i]).len() <= max_len by {
        assert(fewer[i] == sending[i]);
        assert(sends_delivery(sending, starts, i));
        lemma_start(starts, i);
    }
    assert forall|i: int| 0 < i < fewer_starts.len() implies #[trigger] fewer_starts[i] == i
        || fewer_starts[i] == fewer_starts[i - 1] by {
        assert(starts[i] == i || starts[i] == starts[i - 1]);
    }
}

/// What one call that sends does.
proof fn lemma_send_step(
    sending: Seq<Step<BadUdp>>,
    starts: Seq<int>,
    max_len: int,
    i: int,
    base: ModOrd,
)
    requires
        sends_sets(sending, starts, max_len),
        0 <= i < sending.len() < HALF,
        is_step(sending[i]),
        sending[i].s.wf(),
        sending[i].s.buf_min_space == max_len + HEADER_BYTES,
        base.ordinary(),
        sending[starts[i]].s.next_id == base.plus(starts[i]),
    ensures
        sending[i].t.next_id == base.plus(i + 1),
        sending[i].t.wait_until == base.plus(i + 1),
        sending[i].to@ == sending[i].from@.push(sealed(letters_of(sending, starts)[i])).push(
            sealed(letters_of(sending, starts)[i]),
        ),
        HEADER_BYTES <= sealed(letters_of(sending, starts)[i]).len() <= max_len + HEADER_BYTES,
        sealed(letters_of(sending, starts)[i]).len() <= usize::MAX,
{
    assert(sends_delivery(sending, starts, i));
    lemma_start(starts, i);
    let letter = letters_of(sending, starts)[i];
    let count = (i - starts[i]) as u32;
    law_datagram_round_trip(letter.h, letter.payload);
    law_steps_add_up(base, starts[i], count + 1);
    law_steps_add_up(base.plus(i + 1), 0, 0);
}

/// What sending sets does: the messages are orderly, and each is under way twice.
proof fn lemma_sending(
    s: State,
    from: BadUdp,
    starts: Seq<int>,
    sending: Seq<Step<BadUdp>>,
    m: State,
    mid: BadUdp,
)
    requires
        is_idle(s, from),
        calls(sending, s, from, m, mid),
        sends_sets(sending, starts, s.buf_min_space - HEADER_BYTES),
        sending.len() < HALF,
    ensures
        ({
            let msgs = letters_of(sending, starts);
            let len = sending.len() as int;
            let sealed_msgs = msgs.map_values(|letter: Letter| sealed(letter));
            &&& m.wf()
            &&& m.buf_min_space == s.buf_min_space
            &&& m.next_id == s.next_id.plus(len)
            &&& m.wait_until == s.next_id.plus(len)
            &&& orderly(s.next_id, starts, msgs)
            &&& mid@.len() == 2 * len
            &&& mid@.to_multiset() == sealed_msgs.to_multiset().add(sealed_msgs.to_multiset())
            &&& forall|d: Seq<u8>| #[trigger]
                mid@.contains(d) ==> is_one_of(msgs, d) && HEADER_BYTES <= d.len()
                    <= s.buf_min_space
        }),
{
    let base = s.next_id;
    let msgs = letters_of(sending, starts);
    let len = sending.len() as int;
    let sealed_msgs = msgs.map_values(|letter: Letter| sealed(letter));
    lemma_chain(sending, s, from, m, mid);
    lemma_numbering(s, from, starts, sending, m, mid, len);
    assert(at(sending, m, len) == m);
    lemma_sent_orderly(base, starts, sending, m);
    let sockets = sockets_of(sending, mid);
    assert forall|i: int| 0 <= i < len implies (#[trigger] sockets[i]).sends(
        &sockets[i + 1],
        sealed_msgs[i],
        Ok(sealed_msgs[i].len() as usize),
    ) by {
        lemma_sent_socket(s, from, starts, sending, m, mid, i);
    }
    assert(sockets[0]@.len() == 0) by {
        if len > 0 {
            assert(follows(sending, s, from, 0));
        }
    }
    lemma_under_way(sockets, sealed_msgs);
    assert(sockets.last() == mid);
    assert forall|d: Seq<u8>| #[trigger] mid@.contains(d) implies is_one_of(msgs, d)
        && HEADER_BYTES <= d.len() <= s.buf_min_space by {
        assert(sealed_msgs.contains(d));
        let i = choose|i: int| 0 <= i < sealed_msgs.len() && sealed_msgs[i] == d;
        assert(d == sealed(msgs[i]));
        lemma_sent_socket(s, from, starts, sending, m, mid, i);
    }
}

/// The socket before each call, and at the end.
pub open spec fn sockets_of(sending: Seq<Step<BadUdp>>, mid: BadUdp) -> Seq<BadUdp> {
    Seq::new(
        sending.len() + 1,
        |i: int|
            if i < sending.len() {
                sending[i].from
            } else {
                mid
            },
    )
}

/// What one call does to the socket.
proof fn lemma_sent_socket(
    s: State,
    from: BadUdp,
    starts: Seq<int>,
    sending: Seq<Step<BadUdp>>,
    m: State,
    mid: BadUdp,
    i: int,
)
    requires
        s.next_id.ordinary(),
        is_chain(sending, s, from, m, mid),
        sends_sets(sending, starts, s.buf_min_space - HEADER_BYTES),
        0 <= i < sending.len() < HALF,
        forall|j: int|
            0 <= j <= sending.len() ==> (#[trigger] at(sending, m, j)).next_id == s.next_id.plus(j),
    ensures
        ({
            let sockets = sockets_of(sending, mid);
            let d = sealed(letters_of(sending, starts)[i]);
            &&& sockets[i].sends(&sockets[i + 1], d, Ok(d.len() as usize))
            &&& HEADER_BYTES <= d.len() <= s.buf_min_space
        }),
{
    lemma_start(starts, i);
    assert(follows(sending, s, from, i));
    assert(at(sending, m, starts[i]).next_id == s.next_id.plus(starts[i]));
    lemma_send_step(sending, starts, s.buf_min_space - HEADER_BYTES, i, s.next_id);
    if i + 1 < sending.len() {
        assert(follows(sending, s, from, i + 1));
    }
}

/// The messages that were sent are orderly.
proof fn lemma_sent_orderly(
    base: ModOrd,
    starts: Seq<int>,
    sending: Seq<Step<BadUdp>>,
    m: State,
)
    requires
        base.ordinary(),
        in_sets(starts),
        starts.len() == sending.len() < HALF,
        forall|j: int|
            0 <= j <= sending.len() ==> (#[trigger] at(sending, m, j)).next_id == base.plus(j)
                && at(sending, m, j).wait_until == base.plus(j),
    ensures
        orderly(base, starts, letters_of(sending, starts)),
{
    let msgs = letters_of(sending, starts);
    assert forall|i: int| 0 <= i < msgs.len() implies {
        &&& (#[trigger] msgs[i]).h.id == base.plus(i)
        &&& msgs[i].h.set_id == base.plus(starts[i])
        &&& msgs[i].h.wait_until == base.plus(starts[i])
        &&& msgs[i].h.del
    } by {
        lemma_start(starts, i);
        assert(at(sending, m, starts[i]).next_id == base.plus(starts[i]));
        law_steps_add_up(base, starts[i], i - starts[i]);
    }
}

/// The endpoint before call `i`, or at the end.
pub open spec fn at(sending: Seq<Step<BadUdp>>, m: State, i: int) -> State {
    if i < sending.len() {
        sending[i].s
    } else {
        m
    }
}

/// The messages are numbered one after the other.
proof fn lemma_numbering(
    s: State,
    from: BadUdp,
    starts: Seq<int>,
    sending: Seq<Step<BadUdp>>,
    m: State,
    mid: BadUdp,
    i: int,
)
    requires
        is_idle(s, from),
        is_chain(sending, s, from, m, mid),
        sends_sets(sending, starts, s.buf_min_space - HEADER_BYTES),
        0 <= i <= sending.len() < HALF,
    ensures
        forall|j: int|
            0 <= j <= i ==> (#[trigger] at(sending, m, j)).next_id == s.next_id.plus(j) && at(
                sending,
                m,
                j,
            ).wait_until == s.next_id.plus(j),
    decreases i,
{
    if i == 0 {
        law_steps_add_up(s.next_id, 0, 0);
        assert(at(sending, m, 0) == s) by {
            if sending.len() > 0 {
                assert(follows(sending, s, from, 0));
            }
        }
    } else {
        let k = i - 1;
        lemma_numbering(s, from, starts, sending, m, mid, k);
        lemma_start(starts, k);
        assert(follows(sending, s, from, k));
        assert(at(sending, m, starts[k]).next_id == s.next_id.plus(starts[k]));
        lemma_send_step(sending, starts, s.buf_min_space - HEADER_BYTES, k, s.next_id);
        assert(at(sending, m, i) == sending[k].t) by {
            if i < sending.len() {
                assert(follows(sending, s, from, i));
            }
        }
    }
}

/// Receiving does not touch the sending side or the sizes.
proof fn lemma_hears_all_keeps(s: State, trace: Seq<Reception<BadUdp>>)
    ensures
        ({
            let t = hears_all(s, trace).0;
            &&& t.next_id == s.next_id
            &&& t.wait_until == s.wait_until
            &&& t.capacity == s.capacity
            &&& t.buf_min_space == s.buf_min_space
        }),
    decreases trace.len(),
{
    if trace.len() > 0 {
        lemma_hears_all_keeps(s, trace.drop_last());
    }
}

/// What was heard and what is left make up what was under way.
proof fn lemma_heard(s: State, trace: Seq<Reception<BadUdp>>, from: BadUdp, to: BadUdp)
    requires
        s.buf_min_space <= s.capacity,
        receptions(s, trace, from, to),
        trace.len() > 0 ==> hears_all(s, trace.drop_last()).1 is Again,
        forall|d: Seq<u8>| #[trigger]
            from@.contains(d) ==> HEADER_BYTES <= d.len() <= s.buf_min_space,
    ensures
        from@.to_multiset() == to@.to_multiset().add(heard(trace).to_multiset()),
        from@.len() == to@.len() + heard(trace).len(),
        forall|d: Seq<u8>| #[trigger] to@.contains(d) ==> from@.contains(d),
        forall|d: Seq<u8>| #[trigger] heard(trace).contains(d) ==> from@.contains(d),
        match hears_all(s, trace).1 {
            Verdict::Fail(e) => e == Error::WouldBlock && to@.len() == 0,
            _ => heard(trace).len() == trace.len(),
        },
    decreases trace.len(),
{
    let got = heard(trace);
    if trace.len() == 0 {
        got.to_multiset_ensures();
        assert(from@.to_multiset() =~= to@.to_multiset().add(got.to_multiset()));
    } else {
        let fewer = trace.drop_last();
        let last = trace.last();
        let earlier = heard(fewer);
        lemma_heard(s, fewer, from, last.from);
        lemma_hears_all_keeps(s, fewer);
        assert forall|d: Seq<u8>| #[trigger] last.from@.contains(d) implies d.len()
            <= last.before.len() by {
            assert(from@.contains(d));
        }
        lemma_one_delivery(last.from@, to@, last.before, last.filled, last.reply);
        if last.from@.len() == 0 {
            assert(got == earlier);
        } else {
            let d = last.filled.take(last.reply->Ok_0 as int);
            assert(last.from@.contains(d));
            assert(from@.contains(d));
            assert(got == earlier.push(d));
            assert(from@.to_multiset() == to@.to_multiset().add(got.to_multiset())) by {
                vstd::seq_lib::to_multiset_build(earlier, d);
                assert(from@.to_multiset() =~= to@.to_multiset().add(got.to_multiset()));
            }
            assert forall|x: Seq<u8>| #[trigger] got.contains(x) implies from@.contains(x) by {
                let k = choose|k: int| 0 <= k < got.len() && got[k] == x;
                if k < earlier.len() {
                    assert(earlier[k] == x);
                    assert(earlier.contains(x));
                }
            }
        }
    }
}

/// What calls of `recv` do.
pub proof fn lemma_receiving(
    receiving: Seq<Step<BadUdp>>,
    m: State,
    mid: BadUdp,
    t: State,
    to: BadUdp,
    max_len: int,
)
    requires
        m.wf(),
        m.buf_min_space == max_len,
        calls(receiving, m, mid, t, to),
        forall|k: int| 0 <= k < receiving.len() ==> received(#[trigger] receiving[k]) is Some,
        mid@.len() < RECV_LIMIT,
        forall|d: Seq<u8>| #[trigger] mid@.contains(d) ==> HEADER_BYTES <= d.len() <= max_len,
    ensures
        t.wf(),
        t.buf_min_space == max_len,
        t.next_id == m.next_id,
        t.wait_until == m.wait_until,
        mid@.to_multiset() == to@.to_multiset().add(all_heard(receiving).to_multiset()),
        to@.len() <= mid@.len(),
        forall|d: Seq<u8>| #[trigger] to@.contains(d) ==> mid@.contains(d),
        forall|d: Seq<u8>| #[trigger] all_heard(receiving).contains(d) ==> mid@.contains(d),
        receiving.len() > 0 ==> (received(receiving.last()) matches Some(Err(e)) ==> {
            &&& e == Error::WouldBlock
            &&& to@.len() == 0
            &&& !some_ready(t.inbox, t.n)
            &&& !some_ready(t.inbox2, t.n)
            &&& t.inbox2_to_remove is None
        }),
    decreases receiving.len(),
{
    let all = all_heard(receiving);
    if receiving.len() == 0 {
        all.to_multiset_ensures();
        assert(mid@.to_multiset() =~= to@.to_multiset().add(all.to_multiset()));
    } else {
        let fewer = receiving.drop_last();
        let last = receiving.last();
        assert forall|k: int| 0 <= k < fewer.len() implies received(#[trigger] fewer[k]) is Some by {
            assert(fewer[k] == receiving[k]);
        }
        assert(receiving[receiving.len() - 1] == last);
        lemma_chain(receiving, m, mid, t, to);
        lemma_receiving(fewer, m, mid, last.s, last.from, max_len);
        let earlier = all_heard(fewer);
        match last.call {
            Call::Recv { asked: trace, received: r } => {
                lemma_recv_step(last.s, last.from, trace, t, to, r);
                let now = heard(trace);
                assert(mid@.to_multiset() == to@.to_multiset().add(all.to_multiset())) by {
                    vstd::seq_lib::lemma_multiset_commutative(earlier, now);
                    assert(mid@.to_multiset() =~= to@.to_multiset().add(all.to_multiset()));
                }
                assert forall|x: Seq<u8>| #[trigger] all.contains(x) implies mid@.contains(x) by {
                    let k = choose|k: int| 0 <= k < all.len() && all[k] == x;
                    if k < earlier.len() {
                        assert(earlier[k] == x);
                        assert(earlier.contains(x));
                    } else {
                        assert(now[k - earlier.len()] == x);
                        assert(now.contains(x));
                        assert(last.from@.contains(x));
                    }
                }
                assert forall|x: Seq<u8>| #[trigger] to@.contains(x) implies mid@.contains(x) by {
                    assert(last.from@.contains(x));
                }
            },
            _ => {},
        }
    }
}

/// What one call of `recv` does.
proof fn lemma_recv_step(
    s: State,
    from: BadUdp,
    trace: Seq<Reception<BadUdp>>,
    t: State,
    to: BadUdp,
    r: Result<Seq<u8>, Error>,
)
    requires
        s.wf(),
        hearing(s, from, trace, t, to, r),
        from@.len() < RECV_LIMIT,
        forall|d: Seq<u8>| #[trigger]
            from@.contains(d) ==> HEADER_BYTES <= d.len() <= s.buf_min_space,
    ensures
        t.next_id == s.next_id,
        t.wait_until == s.wait_until,
        from@.to_multiset() == to@.to_multiset().add(heard(trace).to_multiset()),
        to@.len() <= from@.len(),
        forall|d: Seq<u8>| #[trigger] to@.contains(d) ==> from@.contains(d),
        forall|d: Seq<u8>| #[trigger] heard(trace).contains(d) ==> from@.contains(d),
        r matches Err(e) ==> {
            &&& e == Error::WouldBlock
            &&& to@.len() == 0
            &&& !some_ready(t.inbox, t.n)
            &&& !some_ready(t.inbox2, t.n)
            &&& t.inbox2_to_remove is None
        },
{
    let u = s.returned();
    if some_ready(s.inbox, s.n) || some_ready(u.inbox2, s.n) {
        heard(trace).to_multiset_ensures();
        assert(from@.to_multiset() =~= to@.to_multiset().add(heard(trace).to_multiset()));
    } else {
        lemma_heard(u, trace, from, to);
        lemma_hears_all_keeps(u, trace);
        if r is Err {
            law_failed_recv_leaves_nothing_ready(s, from, trace, t, to, r);
        }
    }
}

/// Once nothing is left under way, everything that was sent has arrived.
pub proof fn lemma_everything_arrives(
    flying: Seq<Seq<u8>>,
    left: Seq<Seq<u8>>,
    arrived: Seq<Seq<u8>>,
    sent: Seq<Seq<u8>>,
    d: Seq<u8>,
)
    requires
        left.len() == 0,
        flying.to_multiset() == left.to_multiset().add(arrived.to_multiset()),
        flying.to_multiset() == sent.to_multiset().add(sent.to_multiset()),
        sent.contains(d),
    ensures
        arrived.contains(d),
{
    vstd::seq_lib::to_multiset_contains(sent, d);
    vstd::seq_lib::to_multiset_contains(left, d);
    vstd::seq_lib::to_multiset_contains(arrived, d);
    assert(!left.contains(d));
    assert(flying.to_multiset().count(d) > 0);
}

/// Shuffling keeps the multiset.
proof fn lemma_shuffled(order: Seq<int>, all: Seq<Seq<u8>>)
    requires
        picks(order, all.len() as int),
        order.len() == all.len(),
    ensures
        Seq::new(order.len(), |k: int| all[order[k]]).to_multiset() == all.to_multiset(),
    decreases all.len(),
{
    let shuffled = Seq::new(order.len(), |k: int| all[order[k]]);
    if all.len() == 0 {
        assert(shuffled =~= all);
    } else {
        let n = all.len() - 1;
        lemma_none_missing(order, all.len() as int);
        assert(order.contains(n));
        let p = choose|p: int| 0 <= p < order.len() && order[p] == n;
        let rest = order.remove(p);
        let fewer = all.drop_last();
        assert forall|k: int| 0 <= k < rest.len() implies 0 <= #[trigger] rest[k] < n by {
            let j = if k < p {
                k
            } else {
                k + 1
            };
            assert(rest[k] == order[j] && j != p);
            assert(order[j] != order[p]);
        }
        assert(rest.no_duplicates());
        lemma_shuffled(rest, fewer);
        assert(shuffled.remove(p) =~= Seq::new(rest.len(), |k: int| fewer[rest[k]]));
        assert(shuffled.to_multiset() == all.to_multiset()) by {
            vstd::seq_lib::to_multiset_remove(shuffled, p);
            vstd::seq_lib::to_multiset_build(fewer, all[n]);
            assert(all =~= fewer.push(all[n]));
            assert(shuffled.contains(all[n])) by {
                assert(shuffled[p] == all[n]);
            }
            shuffled.to_multiset_ensures();
            assert(shuffled.to_multiset().count(all[n]) > 0);
            assert(shuffled.to_multiset() =~= all.to_multiset());
        }
    }
}

/// Every call but the last returns one payload.
pub proof fn lemma_got_count(receiving: Seq<Step<BadUdp>>)
    requires
        receives_until_failure(receiving),
    ensures
        all_got(receiving).len() == receiving.len() - 1,
{
    let fewer = receiving.drop_last();
    assert(receiving[receiving.len() - 1] == receiving.last());
    assert forall|k: int| 0 <= k < fewer.len() implies received(#[trigger] fewer[k]) matches Some(r)
        && r is Ok by {
        assert(fewer[k] == receiving[k]);
    }
    lemma_got_each(fewer);
}

proof fn lemma_got_each(receiving: Seq<Step<BadUdp>>)
    requires
        forall|k: int|
            0 <= k < receiving.len() ==> (received(#[trigger] receiving[k]) matches Some(r) && r
                is Ok),
    ensures
        all_got(receiving).len() == receiving.len(),
    decreases receiving.len(),
{
    if receiving.len() > 0 {
        let fewer = receiving.drop_last();
        assert(receiving[receiving.len() - 1] == receiving.last());
        assert forall|k: int| 0 <= k < fewer.len() implies received(#[trigger] fewer[k]) matches Some(
            r,
        ) && r is Ok by {
            assert(fewer[k] == receiving[k]);
        }
        lemma_got_each(fewer);
    }
}

/// Asked once, a [`BadUdp`] with nothing under way fails and touches nothing. Otherwise it
/// hands over one of the datagrams under way, cut to the length of the buffer, leaves the
/// rest of the buffer alone, and keeps all others.
pub proof fn law_bad_udp_hands_over_one(
    flying: Seq<Seq<u8>>,
    left: Seq<Seq<u8>>,
    before: Seq<u8>,
    after: Seq<u8>,
    reply: Result<usize, Error>,
) -> (i: int)
    requires
        bad_udp_receives(flying, left, before, after, reply),
    ensures
        flying.len() == 0 ==> {
            &&& reply == Err::<usize, Error>(Error::WouldBlock)
            &&& left.len() == 0
            &&& after == before
        },
        flying.len() > 0 ==> {
            &&& 0 <= i < flying.len()
            &&& left == flying.take(i) + flying.skip(i + 1)
            &&& after.len() == before.len()
            &&& reply matches Ok(n)
            &&& n <= flying[i].len()
            &&& n <= before.len()
            &&& n == flying[i].len() || n == before.len()
            &&& after.take(n as int) == flying[i].take(n as int)
            &&& after.skip(n as int) == before.skip(n as int)
        },
{
    if flying.len() > 0 {
        let n = reply->Ok_0;
        let i = choose|i: int| bad_udp_delivers(flying, i, left, before, after, n);
        assert(left =~= flying.take(i) + flying.skip(i + 1));
        assert(after.take(n as int) =~= flying[i].take(n as int));
        assert(after.skip(n as int) =~= before.skip(n as int));
        i
    } else {
        0
    }
}

} // verus!
