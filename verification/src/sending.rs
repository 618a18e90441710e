//! What sending and resending promise, in terms of what the socket is given and what
//! is kept.

use crate::config::Guarantee;
use crate::error::Error;
use crate::header::{Header, HEADER_BYTES};
use crate::history::{
    calls, law_calls_make_history, law_send_makes_history, Call, Step,
};
use crate::laws::{law_datagram_round_trip, law_kept_until_acknowledged, law_steps_add_up};
use crate::mod_ord::{ModOrd, HALF, MODULUS};
use crate::once::{waiting, waits};
use crate::receiving::{
    keeps, law_arrival_takes_the_acknowledgement, law_recv_loses_nothing, parcel, sized_alike,
};
use crate::state::{
    after_visits, counted, datagram, header_of, is_stale, lemma_after_visits, ord_counted,
    payload_of, posts, posts_in_set, resends, set_header, visit_fails, visited, visits_all,
    visits_differ, State, Visit,
};
use crate::udp::UdpLike;
use std::time::Instant;
use vstd::prelude::*;

verus! {

/// A datagram that is a second old is stale, however near its number is.
pub proof fn law_a_second_is_too_long(distance: int, age_nanos: int)
    requires
        distance >= 0,
        age_nanos >= 1_000_000_000,
    ensures
        is_stale(distance, age_nanos),
{
}

/// What is stale does not become fresh by getting older, or by its number getting
/// farther away.
pub proof fn law_staleness_only_grows(distance: int, age: int, farther: int, older: int)
    requires
        is_stale(distance, age),
        0 <= distance <= farther,
        0 <= age <= older,
    ensures
        is_stale(farther, older),
{
}

/// Below a second, a datagram is stale from 1001 milliseconds on, where each step of
/// distance adds eight milliseconds to the age.
pub proof fn law_each_step_adds_eight_milliseconds(distance: int, age_nanos: int)
    requires
        distance >= 0,
        0 <= age_nanos < 1_000_000_000,
    ensures
        is_stale(distance, age_nanos) <==> age_nanos + 8_000_000 * distance >= 1_001_000_000,
{
}

/// Whether the age that was measured of a datagram makes it stale.
pub open spec fn is_overdue<U>(s: State, v: Visit<U>) -> bool {
    let distance = (ModOrd { value: v.id }).distance(s.n);
    let nanos = v.age.nanos() as int;
    nanos >= 1_000_000_000 || nanos + 8_000_000 * distance >= 1_001_000_000
}

/// Every datagram that the peer has not acknowledged is looked at once when resending
/// succeeds, at index `k` of `trace`. Its age is measured from when it was last sent.
/// If that is too long ago, the socket is given its bytes, and it counts as sent now;
/// otherwise the socket is not called for it, and it stays as it is.
pub proof fn law_overdue_is_resent<U: UdpLike>(
    s: State,
    from: U,
    trace: Seq<Visit<U>>,
    now: Instant,
    t: State,
    to: U,
    inline: bool,
    id: u32,
) -> (k: int)
    requires
        s.wf(),
        resends(s, from, trace, now, t, to, Ok(())),
        s.kept(inline).contains_key(id),
        s.peer_acked.before(ModOrd { value: id }),
    ensures
        0 <= k < trace.len(),
        trace[k].inline == inline,
        trace[k].id == id,
        trace[k].age.since() == s.kept(inline)[id].at,
        t.kept(inline).contains_key(id),
        t.kept(inline)[id].bytes == s.kept(inline)[id].bytes,
        is_overdue(s, trace[k]) ==> {
            &&& trace[k].from.sends(&trace[k].to, s.kept(inline)[id].bytes, trace[k].reply)
            &&& trace[k].reply is Ok
            &&& t.kept(inline)[id].at == now
        },
        !is_overdue(s, trace[k]) ==> trace[k].to == trace[k].from && t.kept(inline)[id] == s.kept(
            inline,
        )[id],
        forall|j: int|
            0 <= j < trace.len() && j != k ==> !((#[trigger] trace[j]).inline == inline
                && trace[j].id == id),
{
    let kept = s.forgets_acked();
    assert(kept.kept(inline).contains_key(id));
    assert(kept.kept(inline)[id] == s.kept(inline)[id]);
    assert(visited(trace, inline, id));
    let k = choose|k: int|
        0 <= k < trace.len() && (#[trigger] trace[k]).inline == inline && trace[k].id == id;
    lemma_visit(kept, from, trace, now, to, k);
    lemma_after_visits(kept, from, trace, now, to);
    assert(t.kept(inline).dom() == kept.kept(inline).dom());
    assert(!visit_fails(kept, trace[k]));
    k
}

/// What a visit has seen and done, and what is left of that in the end.
proof fn lemma_visit<U: UdpLike>(
    s: State,
    from: U,
    trace: Seq<Visit<U>>,
    now: Instant,
    to: U,
    k: int,
)
    requires
        visits_all(s, from, trace, now, to),
        visits_differ(trace),
        0 <= k < trace.len(),
    ensures
        ({
            let v = trace[k];
            let t = after_visits(s, trace, now);
            let stale = s.finds_stale(v.id, v.age.nanos());
            &&& s.kept(v.inline).contains_key(v.id)
            &&& v.age.since() == s.kept(v.inline)[v.id].at
            &&& stale ==> v.from.sends(&v.to, s.kept(v.inline)[v.id].bytes, v.reply)
            &&& !stale ==> v.to == v.from
            &&& stale && v.reply is Ok ==> t.kept(v.inline)[v.id].at == now
            &&& !(stale && v.reply is Ok) ==> t.kept(v.inline)[v.id] == s.kept(v.inline)[v.id]
        }),
    decreases trace.len(),
{
    let v = trace[k];
    let fewer = trace.drop_last();
    let last = trace.last();
    let before = after_visits(s, fewer, now);
    lemma_after_visits(s, from, fewer, now, last.from);
    assert(before.kept(last.inline).dom() == s.kept(last.inline).dom());
    assert(before.n == s.n);
    assert forall|i: int, j: int|
        0 <= i < j < fewer.len() && (#[trigger] fewer[i]).inline == (#[trigger] fewer[j]).inline implies fewer[i].id
        != fewer[j].id by {
        assert(trace[i].id != trace[j].id) by {
            assert(trace[i] == fewer[i] && trace[j] == fewer[j]);
        }
    }
    if k < fewer.len() {
        assert(fewer[k] == v);
        lemma_visit(s, from, fewer, now, last.from, k);
        assert(trace[trace.len() - 1] == last);
        assert(last.inline != v.inline || last.id != v.id);
        assert(before.kept(v.inline).dom() == s.kept(v.inline).dom());
    } else {
        assert(v == last);
        lemma_unvisited(s, from, fewer, now, last.from, v.inline, v.id);
    }
}

/// What is not looked at stays as it is.
proof fn lemma_unvisited<U: UdpLike>(
    s: State,
    from: U,
    trace: Seq<Visit<U>>,
    now: Instant,
    to: U,
    inline: bool,
    id: u32,
)
    requires
        visits_all(s, from, trace, now, to),
        forall|i: int|
            0 <= i < trace.len() ==> !((#[trigger] trace[i]).inline == inline && trace[i].id == id),
    ensures
        after_visits(s, trace, now).kept(inline)[id] == s.kept(inline)[id],
    decreases trace.len(),
{
    if trace.len() > 0 {
        let fewer = trace.drop_last();
        assert forall|i: int| 0 <= i < fewer.len() implies !((#[trigger] fewer[i]).inline == inline
            && fewer[i].id == id) by {
            assert(fewer[i] == trace[i]);
        }
        lemma_unvisited(s, from, fewer, now, trace.last().from, inline, id);
        assert(trace[trace.len() - 1] == trace.last());
    }
}

/// What the peer has acknowledged is neither sent nor kept when resending, whether
/// that succeeds or not. Only what is kept is ever sent.
pub proof fn law_acknowledged_is_forgotten<U: UdpLike>(
    s: State,
    from: U,
    trace: Seq<Visit<U>>,
    now: Instant,
    t: State,
    to: U,
    r: Result<(), Error>,
)
    requires
        s.wf(),
        resends(s, from, trace, now, t, to, r),
    ensures
        forall|k: int|
            0 <= k < trace.len() ==> s.kept((#[trigger] trace[k]).inline).contains_key(trace[k].id)
                && s.peer_acked.before(ModOrd { value: trace[k].id }),
        forall|id: u32| #[trigger] keeps(t, id) ==> keeps(s, id) && s.peer_acked.before(
            ModOrd { value: id },
        ),
        forall|id: u32| #[trigger]
            keeps(s, id) && s.peer_acked.before(ModOrd { value: id }) ==> keeps(t, id)
                && parcel(t, id).bytes == parcel(s, id).bytes,
        t == (State { outbox: t.outbox, outbox2: t.outbox2, ..s }),
        r matches Err(e) ==> trace.len() > 0 && trace.last().reply == Err::<usize, Error>(e),
{
    let kept = s.forgets_acked();
    law_kept_until_acknowledged(s, from, trace, now, t, to, r);
    lemma_after_visits(kept, from, trace, now, to);
    assert forall|k: int| 0 <= k < trace.len() implies s.kept(
        (#[trigger] trace[k]).inline,
    ).contains_key(trace[k].id) && s.peer_acked.before(ModOrd { value: trace[k].id }) by {
        lemma_visit(kept, from, trace, now, to, k);
    }
    assert forall|id: u32| #[trigger] keeps(t, id) implies keeps(s, id) && s.peer_acked.before(
        ModOrd { value: id },
    ) by {
        assert(t.kept(true).contains_key(id) || t.kept(false).contains_key(id));
    }
    assert forall|id: u32| #[trigger] keeps(s, id) && s.peer_acked.before(ModOrd { value: id }) implies keeps(
        t,
        id,
    ) && parcel(t, id).bytes == parcel(s, id).bytes by {
        assert(t.kept(true).contains_key(id) <==> s.kept(true).contains_key(id));
        assert(t.kept(false).contains_key(id) <==> s.kept(false).contains_key(id));
    }
}

/// Resending looks at what lies in the buffer first, at nothing twice, and stops at the
/// first failure of the socket, which it returns.
pub proof fn law_resending_stops_at_a_failure<U: UdpLike>(
    s: State,
    from: U,
    trace: Seq<Visit<U>>,
    now: Instant,
    t: State,
    to: U,
    r: Result<(), Error>,
    i: int,
    j: int,
)
    requires
        s.wf(),
        resends(s, from, trace, now, t, to, r),
        0 <= i < j < trace.len(),
    ensures
        trace[j].inline ==> trace[i].inline,
        trace[i].inline != trace[j].inline || trace[i].id != trace[j].id,
        is_overdue(s, trace[i]) ==> trace[i].reply is Ok,
        r is Err ==> is_overdue(s, trace.last()),
        r is Ok && is_overdue(s, trace[j]) ==> trace[j].reply is Ok,
{
    lemma_none_fails_before(s.forgets_acked(), from, trace, now, to);
    assert(!visit_fails(s.forgets_acked(), trace[i])) by {
        assert(trace.drop_last()[i] == trace[i]);
    }
    if r is Ok {
        assert(!visit_fails(s.forgets_acked(), trace[j]));
    }
}

proof fn lemma_none_fails_before<U: UdpLike>(
    s: State,
    from: U,
    trace: Seq<Visit<U>>,
    now: Instant,
    to: U,
)
    requires
        visits_all(s, from, trace, now, to),
        trace.len() > 0,
    ensures
        forall|i: int|
            0 <= i < trace.len() - 1 ==> !visit_fails(s, #[trigger] trace.drop_last()[i]),
{
}

/// Once a datagram has arrived that acknowledges the number `id`, or a later one, the
/// datagram `id` is not sent again, and no longer kept once resending has run.
pub proof fn law_acknowledged_is_not_resent<U: UdpLike>(
    s: State,
    d: Seq<u8>,
    from: U,
    trace: Seq<Visit<U>>,
    now: Instant,
    t: State,
    to: U,
    r: Result<(), Error>,
    id: ModOrd,
)
    requires
        s.wf(),
        HEADER_BYTES <= d.len() <= s.room(),
        id.ordinary(),
        id.up_to(header_of(d).ack),
        // The peer does not go back by so much that the numbers wrap around.
        s.peer_acked.before(header_of(d).ack) || id.steps_to(header_of(d).ack)
            + header_of(d).ack.steps_to(s.peer_acked) <= HALF,
        resends(s.takes_in(d).0, from, trace, now, t, to, r),
    ensures
        !keeps(t, id.value),
        forall|k: int| 0 <= k < trace.len() ==> (#[trigger] trace[k]).id != id.value,
{
    let u = s.takes_in(d).0;
    s.lemma_takes_in_wf(d);
    law_arrival_takes_the_acknowledgement(s, d);
    assert(!u.peer_acked.before(id));
    law_acknowledged_is_forgotten(u, from, trace, now, t, to, r);
    assert(ModOrd { value: id.value } == id);
}

/// Handing a message to the socket leaves everything else alone: what was kept is
/// kept, byte for byte and with its time, what waits goes on waiting, and nothing is
/// counted. The message is kept only if it promises delivery and the socket has taken
/// it.
pub proof fn law_send_leaves_the_rest_alone<U: UdpLike>(
    s: State,
    from: U,
    h: Header,
    payload: Seq<u8>,
    t: State,
    to: U,
    r: Result<usize, Error>,
)
    requires
        s.wf(),
        posts(s, from, h, payload, t, to, r),
    ensures
        forall|id: u32| #[trigger]
            keeps(s, id) && !(h.del && r is Ok && id == h.id.value) ==> keeps(t, id) && parcel(
                t,
                id,
            ) == parcel(s, id),
        forall|id: u32| #[trigger]
            keeps(t, id) && !keeps(s, id) ==> h.del && r is Ok && id == h.id.value,
        h.del && r is Ok ==> keeps(t, h.id.value) && parcel(t, h.id.value).bytes == payload
            + h.encoded(),
        forall|id: u32| waits(t, id) <==> #[trigger] waits(s, id),
        forall|id: u32| #[trigger] waits(s, id) ==> waiting(t, id) == waiting(s, id),
        t.inbox2_to_remove == s.inbox2_to_remove,
        t.n == s.n,
        t.max_yielded == s.max_yielded,
        t.largest_set_id_yielded == s.largest_set_id_yielded,
        t.seen_before == s.seen_before,
        t.peer_acked == s.peer_acked,
        t.next_id == s.next_id,
        t.wait_until == s.wait_until,
        sized_alike(s, t),
{
}

/// A message is handed to the socket exactly if its datagram fits into what is unused
/// of the buffer, where all of it is once less than a longest message would fit. The
/// length of the datagram is returned, or the error of the socket.
pub proof fn law_send_reaches_the_socket<U: UdpLike>(
    s: State,
    from: U,
    h: Header,
    payload: Seq<u8>,
    t: State,
    to: U,
    r: Result<usize, Error>,
)
    requires
        s.wf(),
        posts(s, from, h, payload, t, to, r),
    ensures
        ({
            let free = s.capacity - s.buf_free_start;
            let room = if free < s.buf_min_space {
                s.capacity
            } else {
                free
            };
            if payload.len() + HEADER_BYTES > room {
                r == Err::<usize, Error>(Error::WriteZero) && to == from
            } else {
                exists|reply: Result<usize, Error>| #[trigger]
                    from.sends(&to, payload + h.encoded(), reply) && match reply {
                        Ok(_) => r matches Ok(n) && n == payload.len() + HEADER_BYTES,
                        Err(e) => r == Err::<usize, Error>(e),
                    }
            }
        }),
{
    law_datagram_round_trip(h, payload);
}

/// What a message of a set says: it acknowledges the latest number handed out, belongs
/// to the set and waits for what the set waits for. Its number is as many steps ahead
/// of the set as messages with a number were sent in the set before, or it has none.
#[verifier::rlimit(40)]
#[verifier::spinoff_prover]
pub proof fn law_message_is_numbered<U: UdpLike>(
    s: State,
    from: U,
    set_id: ModOrd,
    wait_until: ModOrd,
    count: u32,
    ord_count: u32,
    guarantee: Guarantee,
    payload: Seq<u8>,
    t: State,
    to: U,
    r: Result<usize, Error>,
) -> (d: Seq<u8>)
    requires
        s.wf(),
        set_id.ordinary(),
        count < MODULUS,
        posts_in_set(
            s,
            from,
            set_id,
            wait_until,
            count,
            ord_count,
            guarantee,
            payload,
            t,
            to,
            r,
        ),
    ensures
        r is Ok ==> exists|n: usize| from.sends(&to, d, Ok(n)),
        d.len() == payload.len() + HEADER_BYTES,
        payload_of(d) == payload,
        ({
            let h = header_of(d);
            &&& h.ack == s.max_yielded
            &&& h.set_id == set_id
            &&& h.wait_until == wait_until
            &&& h.del <==> guarantee == Guarantee::Delivery
            &&& guarantee == Guarantee::Nothing ==> h.id.value == 0xffff_ffff
            &&& guarantee != Guarantee::Nothing ==> h.id.ordinary() && set_id.steps_to(h.id)
                == count
            &&& guarantee == Guarantee::Delivery && r is Ok ==> keeps(t, h.id.value) && parcel(
                t,
                h.id.value,
            ).bytes == d
        }),
        // What else is kept stays as it is.
        forall|id: u32| #[trigger]
            keeps(s, id) && !(guarantee == Guarantee::Delivery && r is Ok && id == header_of(
                d,
            ).id.value) ==> keeps(t, id) && parcel(t, id) == parcel(s, id),
        t.peer_acked == s.peer_acked,
{
    let h = set_header(s, set_id, wait_until, count, guarantee);
    let d = datagram(h, payload);
    let posted = choose|posted: State| #[trigger]
        posts(s, from, h, payload, posted, to, r) && t == if r is Ok && guarantee
            != Guarantee::Nothing {
            posted.after_set(
                set_id,
                counted(count, guarantee, true),
                ord_counted(ord_count, guarantee, true),
            )
        } else {
            posted
        };
    assert(header_of(d) == h && payload_of(d) == payload && d.len() == payload.len()
        + HEADER_BYTES) by {
        law_datagram_round_trip(h, payload);
    }
    lemma_header(s, set_id, wait_until, count, guarantee);
    assert(t.outbox == posted.outbox && t.outbox2 == posted.outbox2 && t.peer_acked
        == posted.peer_acked);
    lemma_kept_by(s, from, h, payload, posted, t, to, r);
    if r is Ok {
        assert(exists|n: usize| from.sends(&to, d, Ok(n))) by {
            lemma_socket_took(s, from, h, payload, posted, to, r);
        }
    }
    d
}

/// What the header of a message says.
proof fn lemma_header(
    s: State,
    set_id: ModOrd,
    wait_until: ModOrd,
    count: u32,
    guarantee: Guarantee,
)
    requires
        set_id.ordinary(),
        count < MODULUS,
    ensures
        ({
            let h = set_header(s, set_id, wait_until, count, guarantee);
            &&& h.ack == s.max_yielded
            &&& h.set_id == set_id
            &&& h.wait_until == wait_until
            &&& h.del <==> guarantee == Guarantee::Delivery
            &&& guarantee == Guarantee::Nothing ==> h.id.value == 0xffff_ffff
            &&& guarantee != Guarantee::Nothing ==> h.id.ordinary() && set_id.steps_to(h.id)
                == count
        }),
{
    lemma_steps(set_id, count as int);
}

/// What is kept once a message was handed to the socket.
proof fn lemma_kept_by<U: UdpLike>(
    s: State,
    from: U,
    h: Header,
    payload: Seq<u8>,
    posted: State,
    t: State,
    to: U,
    r: Result<usize, Error>,
)
    requires
        s.wf(),
        posts(s, from, h, payload, posted, to, r),
        t.outbox == posted.outbox,
        t.outbox2 == posted.outbox2,
    ensures
        posted.peer_acked == s.peer_acked,
        h.del && r is Ok ==> keeps(t, h.id.value) && parcel(t, h.id.value).bytes == datagram(
            h,
            payload,
        ),
        forall|id: u32| #[trigger]
            keeps(s, id) && !(h.del && r is Ok && id == h.id.value) ==> keeps(t, id) && parcel(
                t,
                id,
            ) == parcel(s, id),
{
    law_send_leaves_the_rest_alone(s, from, h, payload, posted, to, r);
    assert forall|id: u32| #[trigger] keeps(posted, id) implies keeps(t, id) && parcel(t, id)
        == parcel(posted, id) by {}
    if h.del && r is Ok {
        assert(keeps(posted, h.id.value));
    }
    assert forall|id: u32| #[trigger]
        keeps(s, id) && !(h.del && r is Ok && id == h.id.value) implies keeps(t, id) && parcel(
        t,
        id,
    ) == parcel(s, id) by {
        assert(keeps(posted, id));
    }
}

/// A message that was sent was taken by the socket.
proof fn lemma_socket_took<U: UdpLike>(
    s: State,
    from: U,
    h: Header,
    payload: Seq<u8>,
    posted: State,
    to: U,
    r: Result<usize, Error>,
)
    requires
        posts(s, from, h, payload, posted, to, r),
        r is Ok,
    ensures
        exists|n: usize| from.sends(&to, datagram(h, payload), Ok(n)),
{
    let d = datagram(h, payload);
    let reply = choose|reply: Result<usize, Error>| from.sends(&to, d, reply) && reply is Ok;
    assert(from.sends(&to, d, Ok(reply->Ok_0)));
}

/// How the numbering goes on behind a message of a set. The next set goes on behind
/// the messages with a number. It waits for as many deliveries as the set has promised,
/// counted from where the set began, or, if it has promised none, for what was waited
/// for before.
#[verifier::rlimit(40)]
#[verifier::spinoff_prover]
pub proof fn law_numbering_goes_on<U: UdpLike>(
    s: State,
    from: U,
    set_id: ModOrd,
    wait_until: ModOrd,
    count: u32,
    ord_count: u32,
    guarantee: Guarantee,
    payload: Seq<u8>,
    t: State,
    to: U,
    r: Result<usize, Error>,
)
    requires
        s.wf(),
        set_id.ordinary(),
        ord_count <= count < MODULUS - 1,
        posts_in_set(
            s,
            from,
            set_id,
            wait_until,
            count,
            ord_count,
            guarantee,
            payload,
            t,
            to,
            r,
        ),
    ensures
        r is Err || guarantee == Guarantee::Nothing ==> t.next_id == s.next_id && t.wait_until
            == s.wait_until,
        r is Ok && guarantee != Guarantee::Nothing ==> t.next_id.ordinary() && set_id.steps_to(
            t.next_id,
        ) == count + 1,
        r is Ok && guarantee == Guarantee::Delivery ==> t.wait_until.ordinary() && set_id.steps_to(
            t.wait_until,
        ) == count + 1 - ord_count,
        r is Ok && guarantee == Guarantee::Order && ord_count < count ==> t.wait_until.ordinary()
            && set_id.steps_to(t.wait_until) == count - ord_count,
        r is Ok && guarantee == Guarantee::Order && ord_count == count ==> t.wait_until
            == s.wait_until,
{
    let h = set_header(s, set_id, wait_until, count, guarantee);
    let posted = choose|posted: State| #[trigger]
        posts(s, from, h, payload, posted, to, r) && t == if r is Ok && guarantee
            != Guarantee::Nothing {
            posted.after_set(
                set_id,
                counted(count, guarantee, true),
                ord_counted(ord_count, guarantee, true),
            )
        } else {
            posted
        };
    assert(posted.next_id == s.next_id && posted.wait_until == s.wait_until) by {
        law_send_leaves_the_rest_alone(s, from, h, payload, posted, to, r);
    }
    lemma_after_set(posted, set_id, counted(count, guarantee, true), ord_counted(
        ord_count,
        guarantee,
        true,
    ));
}

/// Where a set leaves the numbering.
proof fn lemma_after_set(s: State, set_id: ModOrd, count: u32, ord_count: u32)
    requires
        set_id.ordinary(),
        ord_count <= count < MODULUS,
    ensures
        ({
            let t = s.after_set(set_id, count, ord_count);
            &&& count > 0 ==> t.next_id.ordinary() && set_id.steps_to(t.next_id) == count
            &&& ord_count < count ==> t.wait_until.ordinary() && set_id.steps_to(t.wait_until)
                == count - ord_count
            &&& ord_count == count ==> t.wait_until == s.wait_until
            &&& count == 0 ==> t == s
        }),
{
    law_steps_add_up(set_id, count as int, -(ord_count as int));
    lemma_steps(set_id, count as int);
    lemma_steps(set_id, count - ord_count);
}

/// Less than a full round ahead, the steps can be told.
proof fn lemma_steps(a: ModOrd, k: int)
    requires
        a.ordinary(),
        0 <= k < MODULUS,
    ensures
        a.plus(k).ordinary(),
        a.steps_to(a.plus(k)) == k,
{
}

/// How many of the sends were successful and had this guarantee.
pub open spec fn number_of(sends: Seq<(Guarantee, bool)>, guarantee: Guarantee) -> nat
    decreases sends.len(),
{
    if sends.len() == 0 {
        0
    } else {
        number_of(sends.drop_last(), guarantee) + if sends.last() == (guarantee, true) {
            1nat
        } else {
            0nat
        }
    }
}

/// The two counts of a set after some sends in it. Each send is given by its guarantee
/// and whether it was successful.
pub open spec fn tallied(sends: Seq<(Guarantee, bool)>) -> (u32, u32)
    decreases sends.len(),
{
    if sends.len() == 0 {
        (0, 0)
    } else {
        let (count, ord_count) = tallied(sends.drop_last());
        let (guarantee, sent) = sends.last();
        (counted(count, guarantee, sent), ord_counted(ord_count, guarantee, sent))
    }
}

/// After any sends in a set, the first count is how many messages with a number were
/// sent, and the second how many of them did not promise delivery.
pub proof fn law_set_counts_its_messages(sends: Seq<(Guarantee, bool)>)
    requires
        sends.len() <= u32::MAX,
    ensures
        tallied(sends).0 == number_of(sends, Guarantee::Order) + number_of(
            sends,
            Guarantee::Delivery,
        ),
        tallied(sends).1 == number_of(sends, Guarantee::Order),
        tallied(sends).0 <= sends.len(),
    decreases sends.len(),
{
    if sends.len() > 0 {
        law_set_counts_its_messages(sends.drop_last());
    }
}

/// The sends of some calls.
pub open spec fn sends_of<U>(steps: Seq<Step<U>>) -> Seq<(Guarantee, bool)> {
    steps.map_values(
        |step: Step<U>|
            match step.call {
                Call::Send { guarantee, sent, .. } => (guarantee, sent is Ok),
                _ => (Guarantee::Nothing, false),
            },
    )
}

/// Whether the calls send messages of one set that began on `s`.
pub open spec fn is_set<U>(steps: Seq<Step<U>>, s: State) -> bool {
    forall|i: int|
        0 <= i < steps.len() ==> match (#[trigger] steps[i]).call {
            Call::Send { set_id, wait_until, count, ord_count, .. } => {
                &&& set_id == s.next_id
                &&& wait_until == s.wait_until
                &&& (count, ord_count) == tallied(sends_of(steps).take(i))
            },
            _ => false,
        }
}

/// After a set of any messages, the next set goes on behind those with a number, and
/// waits for exactly as many deliveries as the set has promised, counted from where it
/// began; if it has promised none, for what it has waited for itself.
pub proof fn law_next_set_waits_for_the_deliveries<U: UdpLike>(
    steps: Seq<Step<U>>,
    s: State,
    from: U,
    t: State,
    to: U,
)
    requires
        s.wf(),
        calls(steps, s, from, t, to),
        is_set(steps, s),
        steps.len() < MODULUS,
    ensures
        ({
            let sends = sends_of(steps);
            let promised = number_of(sends, Guarantee::Delivery);
            &&& t.wf()
            &&& s.next_id.steps_to(t.next_id) == number_of(sends, Guarantee::Order) + promised
            &&& promised > 0 ==> s.next_id.steps_to(t.wait_until) == promised
            &&& promised == 0 ==> t.wait_until == s.wait_until
        }),
    decreases steps.len(),
{
    let sends = sends_of(steps);
    if steps.len() > 0 {
        let fewer = steps.drop_last();
        let last = steps.last();
        let n = steps.len() - 1;
        assert(steps[n] == last);
        assert(sends_of(fewer) =~= sends.drop_last());
        assert(sends.take(n) =~= sends.drop_last());
        assert forall|i: int| 0 <= i < fewer.len() implies match (#[trigger] fewer[i]).call {
            Call::Send { set_id, wait_until, count, ord_count, .. } => {
                &&& set_id == s.next_id
                &&& wait_until == s.wait_until
                &&& (count, ord_count) == tallied(sends_of(fewer).take(i))
            },
            _ => false,
        } by {
            assert(fewer[i] == steps[i]);
            assert(sends_of(fewer).take(i) =~= sends.take(i));
        }
        law_next_set_waits_for_the_deliveries(fewer, s, from, last.s, last.from);
        law_set_counts_its_messages(sends.drop_last());
        match last.call {
            Call::Send { set_id, wait_until, count, ord_count, guarantee, payload, sent } => {
                law_numbering_goes_on(
                    last.s,
                    last.from,
                    set_id,
                    wait_until,
                    count,
                    ord_count,
                    guarantee,
                    payload,
                    t,
                    to,
                    sent,
                );
                let events = law_send_makes_history(
                    last.s,
                    last.from,
                    set_id,
                    wait_until,
                    count,
                    ord_count,
                    guarantee,
                    payload,
                    t,
                    to,
                    sent,
                );
                assert(sends.last() == (guarantee, sent is Ok));
            },
            _ => {},
        }
    }
}

/// Whether a call sends a message that promises delivery under the number `id`.
pub open spec fn reuses<U>(step: Step<U>, id: u32) -> bool {
    match step.call {
        Call::Send { set_id, count, guarantee, sent, .. } => {
            &&& guarantee == Guarantee::Delivery
            &&& sent is Ok
            &&& set_id.plus(count as int).value == id
        },
        _ => false,
    }
}

/// A message that promises delivery is kept, byte for byte, over any calls, as long as
/// the peer has not acknowledged it and its number is not used again.
pub proof fn law_kept_over_any_calls<U: UdpLike>(
    steps: Seq<Step<U>>,
    s: State,
    from: U,
    t: State,
    to: U,
    id: u32,
)
    requires
        s.wf(),
        calls(steps, s, from, t, to),
        keeps(s, id),
        forall|i: int|
            0 <= i < steps.len() ==> (#[trigger] steps[i]).s.peer_acked.before(
                ModOrd { value: id },
            ) && !reuses(steps[i], id),
    ensures
        t.wf(),
        keeps(t, id),
        parcel(t, id).bytes == parcel(s, id).bytes,
    decreases steps.len(),
{
    if steps.len() > 0 {
        let fewer = steps.drop_last();
        let last = steps.last();
        assert(steps[steps.len() - 1] == last);
        assert forall|i: int| 0 <= i < fewer.len() implies (#[trigger] fewer[i]).s.peer_acked.before(
            ModOrd { value: id },
        ) && !reuses(fewer[i], id) by {
            assert(fewer[i] == steps[i]);
        }
        law_kept_over_any_calls(fewer, s, from, last.s, last.from, id);
        let events = law_calls_make_history(steps, s, from, t, to);
        let u = last.s;
        match last.call {
            Call::Recv { asked, received } => {
                law_recv_loses_nothing(u, last.from, asked, t, to, received);
            },
            Call::Send { set_id, wait_until, count, ord_count, guarantee, payload, sent } => {
                let h = set_header(u, set_id, wait_until, count, guarantee);
                let posted = choose|posted: State| #[trigger]
                    posts(u, last.from, h, payload, posted, to, sent) && t == if sent is Ok
                        && guarantee != Guarantee::Nothing {
                        posted.after_set(
                            set_id,
                            counted(count, guarantee, true),
                            ord_counted(ord_count, guarantee, true),
                        )
                    } else {
                        posted
                    };
                law_send_leaves_the_rest_alone(u, last.from, h, payload, posted, to, sent);
                assert(keeps(posted, id));
            },
            Call::Resend { visited, now, resent } => {
                law_acknowledged_is_forgotten(u, last.from, visited, now, t, to, resent);
            },
        }
    }
}

/// A new endpoint holds nothing and has counted nothing. The first message that it sends
/// has the number zero, and waits for nothing.
pub proof fn law_new_endpoint_is_empty(
    max_msg_size: int,
    buffer_grow_space: int,
    window_size: u32,
)
    requires
        0 <= max_msg_size,
        0 <= buffer_grow_space,
        max_msg_size + buffer_grow_space + HEADER_BYTES <= usize::MAX,
    ensures
        ({
            let s = State::initial(max_msg_size, buffer_grow_space, window_size);
            &&& s.wf()
            &&& forall|id: u32| !#[trigger] waits(s, id)
            &&& forall|id: u32| !#[trigger] keeps(s, id)
            &&& forall|id: u32| !#[trigger] s.seen_before.contains(id)
            &&& s.inbox2_to_remove is None
            &&& s.n.value == 0
            &&& s.largest_set_id_yielded.value == 0
            &&& s.next_id.value == 0
            &&& s.wait_until.value == 0
            // Nothing is acknowledged, not even the number zero.
            &&& s.max_yielded.steps_to(s.next_id) == 1
            &&& s.peer_acked.steps_to(s.next_id) == 1
            &&& s.window_size == window_size
            &&& s.buf_min_space == max_msg_size + 17
            &&& s.capacity == max_msg_size + buffer_grow_space + 17
            &&& s.buf_free_start == 0
        }),
{
}

} // verus!
