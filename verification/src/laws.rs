//! What holds of the protocol as a whole.

use crate::config::Guarantee;
use crate::error::Error;
use crate::header::{law_header_round_trip, Header, HEADER_BYTES};
use crate::mod_ord::{ModOrd, HALF, MODULUS};
use crate::state::{
    datagram, header_of, is_ready, lemma_after_visits, payload_of, posts, resends, set_header, State, Visit,
};
use crate::udp::UdpLike;
use std::time::Instant;
use vstd::prelude::*;

verus! {

/// Of two sequence numbers, either they are the same, or exactly one lies ahead
/// of the other.
pub proof fn law_order_is_total(a: ModOrd, b: ModOrd)
    requires
        a.ordinary(),
        b.ordinary(),
    ensures
        a == b || a.before(b) || b.before(a),
        !(a.before(b) && b.before(a)),
        !a.before(a),
{
}

/// The order is transitive for sequence numbers that are not too far apart.
pub proof fn law_order_is_transitive(a: ModOrd, b: ModOrd, c: ModOrd)
    requires
        a.before(b),
        b.before(c),
        a.steps_to(b) + b.steps_to(c) <= HALF,
    ensures
        a.before(c),
        a.steps_to(c) == a.steps_to(b) + b.steps_to(c),
{
}

/// Stepping ahead and back again leads to where one was, and steps add up.
pub proof fn law_steps_add_up(a: ModOrd, j: int, k: int)
    requires
        a.ordinary(),
    ensures
        a.plus(0) == a,
        a.plus(j).ordinary(),
        a.plus(j).plus(k) == a.plus(j + k),
        a.plus(k).plus(-k) == a,
{
    let m = MODULUS as int;
    assert(((a.value + j) % m + k) % m == (a.value + j + k) % m) by {
        vstd::arithmetic::div_mod::lemma_add_mod_noop(a.value + j, k, m);
        vstd::arithmetic::div_mod::lemma_add_mod_noop((a.value + j) % m, k, m);
    }
    assert(((a.value + k) % m - k) % m == a.value as int % m) by {
        vstd::arithmetic::div_mod::lemma_add_mod_noop(a.value + k, -k, m);
        vstd::arithmetic::div_mod::lemma_add_mod_noop((a.value + k) % m, -k, m);
    }
}

/// Up to half of all sequence numbers ahead, a number that is `k` steps ahead is
/// also found to be: it lies ahead, at distance `k`.
pub proof fn law_plus_is_ahead(a: ModOrd, k: int)
    requires
        a.ordinary(),
        0 < k <= HALF,
    ensures
        a.before(a.plus(k)),
        a.distance(a.plus(k)) == k,
        a.plus(k).distance(a) == k,
{
}

/// The distance is the same in both directions, and at most half of all sequence
/// numbers.
pub proof fn law_distance_is_symmetric(a: ModOrd, b: ModOrd)
    requires
        a.ordinary(),
        b.ordinary(),
    ensures
        a.distance(b) == b.distance(a),
        0 <= a.distance(b) <= HALF,
        a.distance(b) == 0 <==> a == b,
{
}

/// A datagram is taken apart into the header and the payload that it was made of.
pub proof fn law_datagram_round_trip(h: Header, payload: Seq<u8>)
    ensures
        datagram(h, payload).len() == payload.len() + HEADER_BYTES,
        header_of(datagram(h, payload)) == h,
        payload_of(datagram(h, payload)) == payload,
{
    let d = datagram(h, payload);
    law_header_round_trip(h, seq![]);
    assert(h.encoded() + Seq::<u8>::empty() =~= h.encoded());
    assert(d.skip(d.len() - HEADER_BYTES) =~= h.encoded());
    assert(d.take(d.len() - HEADER_BYTES) =~= payload);
}

/// What is sent is what is received: a message of the window that is new to the
/// receiver, not of a set before the last one yielded, and does not wait for
/// anything is handed out at once, as it was sent.
pub proof fn law_message_arrives(s: State, h: Header, payload: Seq<u8>)
    requires
        s.wf(),
        s.largest_set_id_yielded.distance(h.set_id) <= s.window_size,
        !s.knows(h.id),
        h.id.ordinary() ==> !h.set_id.before(s.largest_set_id_yielded),
        h.id.ordinary() ==> !s.n.before(h.wait_until),
    ensures
        s.takes_in(datagram(h, payload)).1 == Some(payload),
{
    law_datagram_round_trip(h, payload);
}

/// A message that waits for others is not handed out. If it is new and of the
/// window, and not of a set before the last one yielded, it is put aside as it
/// was sent.
pub proof fn law_message_waits(s: State, h: Header, payload: Seq<u8>)
    requires
        s.wf(),
        h.id.ordinary(),
        s.n.before(h.wait_until),
    ensures
        s.takes_in(datagram(h, payload)).1 is None,
        ({
            &&& s.largest_set_id_yielded.distance(h.set_id) <= s.window_size
            &&& !s.knows(h.id)
            &&& !h.set_id.before(s.largest_set_id_yielded)
        }) ==> {
            let t = s.takes_in(datagram(h, payload)).0;
            &&& t.inbox.contains_key(h.id.value)
            &&& t.inbox[h.id.value].h == h
            &&& t.inbox[h.id.value].payload == payload
        },
{
    law_datagram_round_trip(h, payload);
}

/// A message without a sequence number is handed out if it is of the window, and
/// counts for nothing.
pub proof fn law_unnumbered_message_arrives(s: State, h: Header, payload: Seq<u8>)
    requires
        s.wf(),
        !h.id.ordinary(),
        s.largest_set_id_yielded.distance(h.set_id) <= s.window_size,
    ensures
        ({
            let (t, handed_out) = s.takes_in(datagram(h, payload));
            let acked = s.acknowledged(h.ack);
            &&& handed_out == Some(payload)
            &&& t == State { buf_free_start: acked.buf_free_start + payload.len(), ..acked }
        }),
{
    law_datagram_round_trip(h, payload);
}

/// A datagram outside of the window, or with a message that is known, is
/// dropped: only its acknowledgement counts.
pub proof fn law_refused_datagram_only_acknowledges(s: State, d: Seq<u8>)
    requires
        s.wf(),
        d.len() >= HEADER_BYTES,
        ({
            ||| s.largest_set_id_yielded.distance(header_of(d).set_id) > s.window_size
            ||| s.knows(header_of(d).id)
        }),
    ensures
        s.takes_in(d) == (s.acknowledged(header_of(d).ack), None::<Seq<u8>>),
{
}

/// Whether a message of the set `set_id` is done with: it was yielded in the last
/// set, or its set is past.
pub open spec fn settled(s: State, set_id: ModOrd, id: ModOrd) -> bool {
    ||| s.largest_set_id_yielded == set_id && s.seen_before.contains(id.value)
    ||| set_id.before(s.largest_set_id_yielded)
}

/// A message that is yielded is done with.
pub proof fn law_yielded_is_settled(s: State, set_id: ModOrd, id: ModOrd, del: bool)
    requires
        s.wf(),
        set_id.ordinary(),
    ensures
        settled(s.yielding(set_id, id, del), set_id, id),
{
}

/// A message that is done with is neither handed out again nor put aside when it
/// arrives once more.
pub proof fn law_settled_is_not_yielded(s: State, d: Seq<u8>)
    requires
        s.wf(),
        header_of(d).id.ordinary(),
        settled(s, header_of(d).set_id, header_of(d).id),
    ensures
        s.takes_in(d).1 is None,
        s.takes_in(d).0.inbox == s.inbox,
        s.takes_in(d).0.inbox2 == s.inbox2,
{
}

/// A message that is done with stays so, whatever arrives and whatever is
/// yielded, until the sets have moved on by half of all sequence numbers.
pub proof fn law_settled_stays_settled(
    s: State,
    set_id: ModOrd,
    id: ModOrd,
    d: Seq<u8>,
    other: u32,
)
    requires
        s.wf(),
        settled(s, set_id, id),
    ensures
        settled(s.vacated(), set_id, id),
        settled(s.returned(), set_id, id),
        set_id.up_to(s.takes_in(d).0.largest_set_id_yielded) ==> settled(
            s.takes_in(d).0,
            set_id,
            id,
        ),
        set_id.up_to(s.yields_inline(other).largest_set_id_yielded) ==> settled(
            s.yields_inline(other),
            set_id,
            id,
        ),
        set_id.up_to(s.yields_stored(other).largest_set_id_yielded) ==> settled(
            s.yields_stored(other),
            set_id,
            id,
        ),
{
}

/// The last set yielded, the acknowledgement by the peer and the one to the peer
/// only move ahead. So does the count of messages, unless it would leap by more
/// than half of all sequence numbers: to the far end of those ahead, and beyond.
pub proof fn law_cursors_move_ahead(s: State, d: Seq<u8>)
    requires
        s.wf(),
        !({
            &&& s.takes_in(d).1 is Some
            &&& header_of(d).id.ordinary()
            &&& header_of(d).del
            &&& s.n.before(header_of(d).set_id)
            &&& s.n.steps_to(header_of(d).set_id) == HALF
        }),
    ensures
        ({
            let t = s.takes_in(d).0;
            &&& s.largest_set_id_yielded.up_to(t.largest_set_id_yielded)
            &&& s.peer_acked.up_to(t.peer_acked)
            &&& s.max_yielded.up_to(t.max_yielded)
            &&& s.n.up_to(t.n)
        }),
{
}

/// Yielding a message moves the last set yielded, the count of messages and the
/// acknowledgement to the peer to what the message brings if that lies ahead, and
/// counts the message if it promises delivery. None of the three goes back; only the
/// count could, where it would leap by more than half of all sequence numbers.
pub proof fn law_yielding_never_goes_back(s: State, set_id: ModOrd, id: ModOrd, del: bool)
    requires
        s.wf(),
        !(del && s.n.before(set_id) && s.n.steps_to(set_id) == HALF),
    ensures
        ({
            let t = s.yielding(set_id, id, del);
            &&& t.largest_set_id_yielded == later(s.largest_set_id_yielded, set_id)
            &&& t.max_yielded == later(s.max_yielded, id)
            &&& t.n == later(s.n, set_id).plus(
                if del {
                    1
                } else {
                    0
                },
            )
            &&& s.largest_set_id_yielded.up_to(t.largest_set_id_yielded)
            &&& s.max_yielded.up_to(t.max_yielded)
            &&& s.n.up_to(t.n)
        }),
{
    law_steps_add_up(later(s.n, set_id), 0, 0);
}

/// The one of two sequence numbers that lies ahead.
pub open spec fn later(a: ModOrd, b: ModOrd) -> ModOrd {
    if a.before(b) {
        b
    } else {
        a
    }
}

/// Vacating the buffer loses no message and no datagram, and makes all of the
/// buffer usable. Vacating it once more changes nothing.
pub proof fn law_vacating_loses_nothing(s: State)
    requires
        s.wf(),
    ensures
        ({
            let t = s.vacated();
            &&& t.inbox2.union_prefer_right(t.inbox) == s.inbox2.union_prefer_right(s.inbox)
            &&& t.outbox2.union_prefer_right(t.outbox) == s.outbox2.union_prefer_right(s.outbox)
            &&& forall|id: u32| #[trigger]
                s.inbox.contains_key(id) ==> t.inbox2.contains_key(id) && t.inbox2[id]
                    == s.inbox[id]
            &&& forall|id: u32| #[trigger]
                s.inbox2.contains_key(id) ==> t.inbox2.contains_key(id) && t.inbox2[id]
                    == s.inbox2[id]
            &&& forall|id: ModOrd| #[trigger] t.knows(id) == s.knows(id)
            &&& t.room() == t.capacity
            &&& !t.cramped()
            &&& forall|id: u32| #[trigger]
                is_ready(t.inbox2, id, t.n) <==> is_ready(s.inbox, id, s.n) || is_ready(
                    s.inbox2,
                    id,
                    s.n,
                )
            &&& t.vacated() == t
        }),
{
    let t = s.vacated();
    assert(t.vacated() =~= t);
    assert(t.inbox2.union_prefer_right(t.inbox) =~= t.inbox2);
    assert(t.outbox2.union_prefer_right(t.outbox) =~= t.outbox2);
}

/// A payload up to the configured length always fits: sending it does not fail
/// for want of room.
pub proof fn law_small_payload_fits<U: UdpLike>(
    s: State,
    from: U,
    h: Header,
    payload: Seq<u8>,
    t: State,
    to: U,
    r: Result<usize, Error>,
)
    requires
        s.wf(),
        payload.len() + HEADER_BYTES <= s.buf_min_space,
        posts(s, from, h, payload, t, to, r),
    ensures
        exists|reply: Result<usize, Error>| #[trigger]
            from.sends(&to, datagram(h, payload), reply) && match reply {
                Ok(_) => r == Ok::<usize, Error>((payload.len() + HEADER_BYTES) as usize),
                Err(e) => r == Err::<usize, Error>(e),
            },
{
    law_datagram_round_trip(h, payload);
}

/// A message with a promise of delivery is kept, byte for byte as it was sent,
/// from the moment that the socket has taken it.
pub proof fn law_delivery_is_kept<U: UdpLike>(
    s: State,
    from: U,
    h: Header,
    payload: Seq<u8>,
    t: State,
    to: U,
    r: Result<usize, Error>,
)
    requires
        s.wf(),
        h.del,
        posts(s, from, h, payload, t, to, r),
        r is Ok,
    ensures
        t.outbox.contains_key(h.id.value),
        t.outbox[h.id.value].bytes == datagram(h, payload),
{
}

/// Resending keeps exactly the datagrams that the peer has not acknowledged, and
/// none of them changes.
pub proof fn law_kept_until_acknowledged<U: UdpLike>(
    s: State,
    from: U,
    trace: Seq<Visit<U>>,
    now: Instant,
    t: State,
    to: U,
    r: Result<(), Error>,
)
    requires
        resends(s, from, trace, now, t, to, r),
    ensures
        forall|inline: bool, id: u32| #[trigger]
            t.kept(inline).contains_key(id) <==> s.kept(inline).contains_key(id)
                && s.peer_acked.before(ModOrd { value: id }),
        forall|inline: bool, id: u32| #[trigger]
            t.kept(inline).contains_key(id) ==> t.kept(inline)[id].bytes == s.kept(
                inline,
            )[id].bytes,
{
    let kept = s.forgets_acked();
    lemma_after_visits(kept, from, trace, now, to);
    assert forall|inline: bool, id: u32| #[trigger]
        t.kept(inline).contains_key(id) implies t.kept(inline)[id].bytes == s.kept(
        inline,
    )[id].bytes by {
        assert(t.kept(inline).dom() == kept.kept(inline).dom());
        assert(kept.kept(inline).contains_key(id));
    }
    assert forall|inline: bool, id: u32| #[trigger]
        t.kept(inline).contains_key(id) <==> s.kept(inline).contains_key(id)
            && s.peer_acked.before(ModOrd { value: id }) by {
        assert(t.kept(inline).dom() == kept.kept(inline).dom());
        assert(kept.kept(inline).contains_key(id) <==> s.kept(inline).contains_key(id)
            && s.peer_acked.before(ModOrd { value: id }));
    }
}

/// A receiver after it has yielded messages of the set `set_id`, one after the
/// other. Each is given by its sequence number and whether it promises delivery.
pub open spec fn after_yields(s: State, set_id: ModOrd, yields: Seq<(ModOrd, bool)>) -> State
    decreases yields.len(),
{
    if yields.len() == 0 {
        s
    } else {
        after_yields(s, set_id, yields.drop_last()).yielding(
            set_id,
            yields.last().0,
            yields.last().1,
        )
    }
}

/// How many of the messages promise delivery.
pub open spec fn deliveries(yields: Seq<(ModOrd, bool)>) -> nat
    decreases yields.len(),
{
    if yields.len() == 0 {
        0
    } else {
        deliveries(yields.drop_last()) + if yields.last().1 {
            1nat
        } else {
            0nat
        }
    }
}

/// What releases the next set: a receiver that has counted up to a set, or less
/// far, and then yields every message of it that promises delivery, and any of
/// the others, in any order, has counted up to exactly what the messages of the
/// next set wait for.
pub proof fn law_deliveries_release_next_set(
    sender: State,
    receiver: State,
    set_id: ModOrd,
    count: u32,
    ord_count: u32,
    yields: Seq<(ModOrd, bool)>,
)
    requires
        receiver.wf(),
        set_id.ordinary(),
        receiver.n.up_to(set_id),
        ord_count < count,
        deliveries(yields) == count - ord_count,
        deliveries(yields) <= HALF,
    ensures
        after_yields(receiver, set_id, yields).n == sender.after_set(
            set_id,
            count,
            ord_count,
        ).wait_until,
{
    assert(yields.len() > 0);
    lemma_yields_count(receiver, set_id, yields);
    law_steps_add_up(set_id, count as int, -(ord_count as int));
}

proof fn lemma_yields_count(receiver: State, set_id: ModOrd, yields: Seq<(ModOrd, bool)>)
    requires
        receiver.n.ordinary(),
        set_id.ordinary(),
        receiver.n.up_to(set_id),
        0 < yields.len(),
        deliveries(yields) <= HALF,
    ensures
        after_yields(receiver, set_id, yields).n == set_id.plus(deliveries(yields) as int),
    decreases yields.len(),
{
    let fewer = yields.drop_last();
    let k = deliveries(fewer) as int;
    law_steps_add_up(set_id, k, 1);
    if fewer.len() > 0 {
        lemma_yields_count(receiver, set_id, fewer);
        if k > 0 {
            law_plus_is_ahead(set_id, k);
        }
    } else {
        assert(after_yields(receiver, set_id, fewer) == receiver);
    }
}

/// Whether a receiver has got everything that a sender has sent, and nothing
/// else.
pub open spec fn in_step(sender: State, receiver: State) -> bool {
    &&& sender.wait_until.steps_to(receiver.n) + receiver.n.steps_to(sender.next_id) <= HALF
    &&& receiver.largest_set_id_yielded.steps_to(sender.next_id) <= 1
    &&& receiver.inbox.is_empty()
    &&& receiver.inbox2.is_empty()
    &&& forall|id: u32| #[trigger]
        receiver.seen_before.contains(id) ==> id == receiver.largest_set_id_yielded.value
            && receiver.largest_set_id_yielded != sender.next_id
}

/// Two new endpoints are in step.
pub proof fn law_new_endpoints_are_in_step(
    max_msg_size: int,
    buffer_grow_space: int,
    window_size: u32,
    peer_max_msg_size: int,
    peer_buffer_grow_space: int,
    peer_window_size: u32,
)
    ensures
        in_step(
            State::initial(max_msg_size, buffer_grow_space, window_size),
            State::initial(peer_max_msg_size, peer_buffer_grow_space, peer_window_size),
        ),
{
}

/// The datagram that the sender makes of a message that is a set of its own.
pub open spec fn sent_alone(sender: State, guarantee: Guarantee, payload: Seq<u8>) -> Seq<u8> {
    datagram(
        set_header(sender, sender.next_id, sender.wait_until, 0, guarantee),
        payload,
    )
}

/// The sender after it has sent a message that is a set of its own.
pub open spec fn after_sent_alone(sender: State, guarantee: Guarantee) -> State {
    sender.after_set(
        sender.next_id,
        1,
        if guarantee == Guarantee::Order {
            1
        } else {
            0
        },
    )
}

/// Whether the receiver can tell what the messages after this one wait for.
pub open spec fn may_follow(sender: State, guarantee: Guarantee) -> bool {
    guarantee == Guarantee::Delivery || sender.wait_until.steps_to(sender.next_id) < HALF
}

/// A receiver that is in step hands out the next message at once, as it was sent,
/// and is in step again. Between two messages that promise delivery there may be
/// at most half as many others as there are sequence numbers.
pub proof fn law_in_step_receiver_yields(
    sender: State,
    receiver: State,
    guarantee: Guarantee,
    payload: Seq<u8>,
)
    requires
        sender.wf(),
        receiver.wf(),
        receiver.largest_set_id_yielded.steps_to(sender.next_id) <= receiver.window_size,
        guarantee != Guarantee::Nothing,
        in_step(sender, receiver),
    ensures
        ({
            let (t, handed_out) = receiver.with_room().takes_in(
                sent_alone(sender, guarantee, payload),
            );
            &&& handed_out == Some(payload)
            &&& may_follow(sender, guarantee) ==> in_step(after_sent_alone(sender, guarantee), t)
        }),
{
    let h = set_header(sender, sender.next_id, sender.wait_until, 0, guarantee);
    law_datagram_round_trip(h, payload);
    let c = sender.next_id;
    law_steps_add_up(c, 1, -1);
    law_steps_add_up(c, 1, 0);
    law_plus_is_ahead(c, 1);
    assert(h.id == c);
    let r = receiver.with_room();
    assert(r.inbox2 =~= receiver.inbox2);
    assert(r.inbox =~= receiver.inbox);
    assert(!r.knows(c));
    assert(c.plus(1).steps_to(c.plus(1)) == 0);
    let (t, handed_out) = r.takes_in(datagram(h, payload));
    assert(handed_out == Some(payload));
    assert(t.n == if guarantee == Guarantee::Delivery {
        c.plus(1)
    } else {
        c
    });
    assert(t.largest_set_id_yielded == c);
    assert(t.seen_before =~= set![c.value]);
}

/// A sender and a receiver after the messages were sent one by one, each as a set
/// of its own, and arrived one by one; and what the receiver has handed out.
pub open spec fn exchange(
    sender: State,
    receiver: State,
    messages: Seq<(Guarantee, Seq<u8>)>,
) -> (State, State, Seq<Seq<u8>>)
    decreases messages.len(),
{
    if messages.len() == 0 {
        (sender, receiver, seq![])
    } else {
        let (s, r, got) = exchange(sender, receiver, messages.drop_last());
        let (guarantee, payload) = messages.last();
        let (t, handed_out) = r.with_room().takes_in(sent_alone(s, guarantee, payload));
        (
            after_sent_alone(s, guarantee),
            t,
            match handed_out {
                Some(bytes) => got.push(bytes),
                None => got,
            },
        )
    }
}

/// A channel that loses nothing and keeps the order delivers everything, in the
/// order in which it was sent, and leaves the endpoints in step.
pub proof fn law_lossless_channel_delivers(
    sender: State,
    receiver: State,
    messages: Seq<(Guarantee, Seq<u8>)>,
)
    requires
        sender.wf(),
        receiver.wf(),
        receiver.window_size >= 1,
        in_step(sender, receiver),
        forall|k: int|
            0 <= k < messages.len() ==> may_follow(
                exchange(sender, receiver, #[trigger] messages.take(k)).0,
                messages[k].0,
            ),
        forall|i: int|
            0 <= i < messages.len() ==> (#[trigger] messages[i]).0 != Guarantee::Nothing
                && messages[i].1.len() + HEADER_BYTES <= receiver.buf_min_space,
    ensures
        ({
            let (s, r, got) = exchange(sender, receiver, messages);
            &&& got == messages.map_values(|m: (Guarantee, Seq<u8>)| m.1)
            &&& in_step(s, r)
            &&& s.wf()
            &&& r.wf()
            &&& r.window_size == receiver.window_size
            &&& r.buf_min_space == receiver.buf_min_space
        }),
    decreases messages.len(),
{
    let payloads = messages.map_values(|m: (Guarantee, Seq<u8>)| m.1);
    if messages.len() == 0 {
        assert(payloads =~= Seq::<Seq<u8>>::empty());
    } else {
        let fewer = messages.drop_last();
        assert forall|i: int| 0 <= i < fewer.len() implies (#[trigger] fewer[i]).0
            != Guarantee::Nothing && fewer[i].1.len() + HEADER_BYTES
            <= receiver.buf_min_space by {
            assert(fewer[i] == messages[i]);
        }
        assert forall|k: int| 0 <= k < fewer.len() implies may_follow(
            exchange(sender, receiver, #[trigger] fewer.take(k)).0,
            fewer[k].0,
        ) by {
            assert(fewer.take(k) =~= messages.take(k));
        }
        assert(messages.take(messages.len() - 1) =~= fewer);
        law_lossless_channel_delivers(sender, receiver, fewer);
        let (s, r, got) = exchange(sender, receiver, fewer);
        let (guarantee, payload) = messages[messages.len() - 1];
        law_in_step_receiver_yields(s, r, guarantee, payload);
        law_vacating_loses_nothing(r);
        r.lemma_vacated_wf();
        law_datagram_round_trip(
            set_header(s, s.next_id, s.wait_until, 0, guarantee),
            payload,
        );
        r.with_room().lemma_takes_in_wf(sent_alone(s, guarantee, payload));
        law_steps_add_up(s.next_id, 1, 0);
        law_steps_add_up(s.next_id, 1, -1);
        assert(payloads =~= fewer.map_values(|m: (Guarantee, Seq<u8>)| m.1).push(payload));
    }
}

} // verus!
