//! What receiving promises, in terms of what arrives, what waits and what is handed
//! out.

use crate::error::Error;
use crate::header::{Header, HEADER_BYTES};
use crate::history::{
    arrivals, can_happen, happens, heard, history, lemma_history_wf, opened, possible, Event,
};
use crate::laws::later;
use crate::mod_ord::ModOrd;
use crate::once::{waiting, waits};
use crate::state::{
    header_of, hearing, hears_all, is_ready, payload_of, receives, receptions, some_ready, Letter,
    Parcel, Reception, State, Verdict,
};
use crate::udp::UdpLike;
use vstd::prelude::*;

verus! {

/// Whether the set of a message is near enough to the last one yielded.
pub open spec fn is_near(s: State, set_id: ModOrd) -> bool {
    s.largest_set_id_yielded.distance(set_id) <= s.window_size
}

/// Whether a message with this number is on record: remembered as yielded, or held.
pub open spec fn on_record(s: State, id: ModOrd) -> bool {
    ||| s.seen_before.contains(id.value)
    ||| s.inbox.contains_key(id.value)
    ||| s.inbox2.contains_key(id.value)
}

/// Whether nothing that is kept for resending, and nothing of the numbering of
/// messages to send, differs.
pub open spec fn sends_alike(s: State, t: State) -> bool {
    &&& t.next_id == s.next_id
    &&& t.wait_until == s.wait_until
    &&& forall|id: u32| keeps(t, id) <==> #[trigger] keeps(s, id)
    &&& forall|id: u32| #[trigger] keeps(s, id) ==> parcel(t, id) == parcel(s, id)
}

/// Whether a datagram is kept for resending.
pub open spec fn keeps(s: State, id: u32) -> bool {
    s.outbox.contains_key(id) || s.outbox2.contains_key(id)
}

/// The datagram that is kept under the number `id`.
pub open spec fn parcel(s: State, id: u32) -> Parcel {
    if s.outbox.contains_key(id) {
        s.outbox[id]
    } else {
        s.outbox2[id]
    }
}

/// Whether the sizes are the same.
pub open spec fn sized_alike(s: State, t: State) -> bool {
    &&& t.capacity == s.capacity
    &&& t.buf_min_space == s.buf_min_space
    &&& t.window_size == s.window_size
}

/// Whatever arrives, every message that waits goes on waiting, as it is, and at most
/// the message that arrives is added. Nothing that is kept for resending is touched.
pub proof fn law_arrival_keeps_what_waits(s: State, d: Seq<u8>)
    requires
        s.wf(),
        HEADER_BYTES <= d.len() <= s.room(),
    ensures
        ({
            let (t, out) = s.takes_in(d);
            let h = header_of(d);
            &&& forall|id: u32| #[trigger]
                waits(s, id) ==> waits(t, id) && waiting(t, id) == waiting(s, id)
            &&& forall|id: u32| #[trigger]
                s.inbox.contains_key(id) ==> t.inbox.contains_key(id) && t.inbox[id]
                    == s.inbox[id]
            &&& t.inbox2 == s.inbox2
            &&& t.inbox2_to_remove == s.inbox2_to_remove
            &&& forall|id: u32| #[trigger]
                waits(t, id) && !waits(s, id) ==> {
                    &&& out is None
                    &&& id == h.id.value
                    &&& h.id.ordinary()
                    &&& waiting(t, id).h == h
                    &&& waiting(t, id).payload == d.take(d.len() - HEADER_BYTES)
                }
            &&& t.outbox == s.outbox
            &&& t.outbox2 == s.outbox2
            &&& sends_alike(s, t)
            &&& sized_alike(s, t)
        }),
{
}

/// When an arriving message is handed out, when it is put aside, and when it is
/// dropped. It is handed out as it was sent.
pub proof fn law_arrival_is_decided(s: State, d: Seq<u8>)
    requires
        s.wf(),
        HEADER_BYTES <= d.len() <= s.room(),
    ensures
        ({
            let (t, out) = s.takes_in(d);
            let h = header_of(d);
            let payload = d.take(d.len() - HEADER_BYTES);
            let fresh = is_near(s, h.set_id) && !on_record(s, h.id);
            let past = h.set_id.before(s.largest_set_id_yielded);
            let early = s.n.before(h.wait_until);
            // Without a number, it is handed out at once.
            &&& !h.id.ordinary() && is_near(s, h.set_id) ==> out == Some(payload)
            &&& h.id.ordinary() && fresh && !past && !early ==> out == Some(payload)
            &&& h.id.ordinary() && fresh && !past && early ==> out is None && waits(t, h.id.value)
                && waiting(t, h.id.value) == (Letter { h, payload })
            &&& !is_near(s, h.set_id) || h.id.ordinary() && (!fresh || past) ==> out is None
                && t.inbox == s.inbox
        }),
{
}

/// How an arriving message counts: only if it is handed out and has a number. Then
/// each cursor moves to what the message brings, if that lies ahead, and a message
/// that promises delivery is counted. No other number is remembered as yielded.
pub proof fn law_arrival_counts_what_is_handed_out(s: State, d: Seq<u8>)
    requires
        s.wf(),
        HEADER_BYTES <= d.len() <= s.room(),
    ensures
        ({
            let (t, out) = s.takes_in(d);
            let h = header_of(d);
            &&& out is None || !h.id.ordinary() ==> {
                &&& t.n == s.n
                &&& t.max_yielded == s.max_yielded
                &&& t.largest_set_id_yielded == s.largest_set_id_yielded
                &&& t.seen_before == s.seen_before
            }
            &&& out is Some && h.id.ordinary() ==> counts(s, h, t)
        }),
{
}

/// Whether `t` has counted a message with the header `h` that was handed out in `s`.
pub open spec fn counts(s: State, h: Header, t: State) -> bool {
    let n = later(s.n, h.set_id);
    &&& h.del ==> n.steps_to(t.n) == 1 && t.n.ordinary()
    &&& !h.del ==> t.n == n
    &&& t.max_yielded == later(s.max_yielded, h.id)
    &&& t.largest_set_id_yielded == later(s.largest_set_id_yielded, h.set_id)
    &&& forall|id: u32| #[trigger]
        t.seen_before.contains(id) <==> {
            ||| t.largest_set_id_yielded == s.largest_set_id_yielded && s.seen_before.contains(id)
            ||| t.largest_set_id_yielded == h.set_id && id == h.id.value
        }
}

/// The acknowledgement in a datagram is taken over, whatever else becomes of it, if
/// it lies ahead. The buffer is used up by the payload at most.
pub proof fn law_arrival_takes_the_acknowledgement(s: State, d: Seq<u8>)
    requires
        s.wf(),
        HEADER_BYTES <= d.len() <= s.room(),
    ensures
        ({
            let t = s.takes_in(d).0;
            &&& t.peer_acked == later(s.peer_acked, header_of(d).ack)
            &&& s.buf_free_start <= t.buf_free_start <= s.buf_free_start + d.len() - HEADER_BYTES
            &&& s.takes_in(d).1 is Some || t.inbox != s.inbox ==> t.buf_free_start
                == s.buf_free_start + d.len() - HEADER_BYTES
        }),
{
}

/// Making room for a message leaves enough of it, and changes nothing but where things
/// lie.
pub proof fn law_room_is_made(s: State)
    requires
        s.wf(),
    ensures
        ({
            let t = s.with_room();
            &&& t.wf()
            &&& t.capacity - t.buf_free_start >= s.buf_min_space
            &&& t.buf_free_start == s.buf_free_start || t.buf_free_start == 0
            &&& lies_elsewhere(s, t)
            // Nothing is moved while there is room.
            &&& s.capacity - s.buf_free_start >= s.buf_min_space ==> t == s
        }),
{
    s.lemma_vacated_wf();
}

/// Whether `t` holds what `s` holds, but possibly in another place.
pub open spec fn lies_elsewhere(s: State, t: State) -> bool {
    &&& forall|id: u32| waits(t, id) <==> #[trigger] waits(s, id)
    &&& forall|id: u32| #[trigger] waits(s, id) ==> waiting(t, id) == waiting(s, id)
    &&& t.inbox2_to_remove == s.inbox2_to_remove
    &&& t.n == s.n
    &&& t.max_yielded == s.max_yielded
    &&& t.largest_set_id_yielded == s.largest_set_id_yielded
    &&& t.seen_before == s.seen_before
    &&& t.peer_acked == s.peer_acked
    &&& sends_alike(s, t)
    &&& sized_alike(s, t)
}

/// The latest of some acknowledgements.
pub open spec fn latest_ack(acked: ModOrd, arrived: Seq<Seq<u8>>) -> ModOrd
    decreases arrived.len(),
{
    if arrived.len() == 0 {
        acked
    } else {
        later(latest_ack(acked, arrived.drop_last()), header_of(arrived.last()).ack)
    }
}

/// Whether a message that waits may be handed out.
pub open spec fn is_due(s: State, id: u32) -> bool {
    waits(s, id) && waiting(s, id).h.wait_until.up_to(s.n)
}

/// Whether `t` is `s` without the message `id`, which was handed out and counted.
pub open spec fn is_without(s: State, t: State, id: u32) -> bool {
    &&& !waits(t, id)
    &&& forall|x: u32| x != id ==> (waits(t, x) <==> #[trigger] waits(s, x))
    &&& forall|x: u32| #[trigger] waits(s, x) && x != id ==> waiting(t, x) == waiting(s, x)
    &&& counts(s, waiting(s, id).h, t)
    &&& t.peer_acked == s.peer_acked
    &&& sends_alike(s, t)
    &&& sized_alike(s, t)
}

#[verifier::rlimit(40)]
#[verifier::spinoff_prover]
proof fn lemma_without_inline(s: State, id: u32)
    requires
        s.wf(),
        s.inbox.contains_key(id),
    ensures
        waits(s, id),
        waiting(s, id) == s.inbox[id],
        is_without(s, s.yields_inline(id), id),
{
    let h = s.inbox[id].h;
    let u = s.taken_out(id);
    let t = s.yields_inline(id);
    assert(sends_alike(s, u));
    assert(sends_alike(s, t)) by {
        assert forall|x: u32| keeps(t, x) <==> #[trigger] keeps(s, x) by {
            assert(keeps(u, x) <==> keeps(s, x));
        }
        assert forall|x: u32| #[trigger] keeps(s, x) implies parcel(t, x) == parcel(s, x) by {
            assert(keeps(u, x));
        }
    }
    assert forall|x: u32| x != id implies (waits(t, x) <==> #[trigger] waits(s, x)) by {}
}

proof fn lemma_without_stored(s: State, id: u32)
    requires
        s.wf(),
        s.returned().inbox2.contains_key(id),
    ensures
        waits(s, id),
        waiting(s, id) == s.inbox2[id],
        is_without(s, s.returned().yields_stored(id), id),
{
}

/// A call of `recv` hands out a message that waits and is due, if there is one, and
/// then does not ask the socket. It takes that message away, counts it, and leaves
/// everything else as it is.
pub proof fn law_due_message_is_handed_out<U: UdpLike>(
    s: State,
    from: U,
    trace: Seq<Reception<U>>,
    t: State,
    to: U,
    r: Result<Seq<u8>, Error>,
    due: u32,
) -> (id: u32)
    requires
        s.wf(),
        hearing(s, from, trace, t, to, r),
        is_due(s, due),
    ensures
        is_due(s, id),
        r == Ok::<Seq<u8>, Error>(waiting(s, id).payload),
        // What lies in the buffer comes first.
        s.inbox.contains_key(due) ==> s.inbox.contains_key(id),
        trace.len() == 0,
        to == from,
        is_without(s, t, id),
{
    s.lemma_returned_wf();
    if some_ready(s.inbox, s.n) {
        let id = choose|id: u32| #[trigger]
            is_ready(s.inbox, id, s.n) && t == s.yields_inline(id) && r == Ok::<Seq<u8>, Error>(
                s.inbox[id].payload,
            );
        lemma_without_inline(s, id);
        id
    } else {
        assert(!is_ready(s.inbox, due, s.n));
        assert(!s.inbox.contains_key(due));
        assert(is_ready(s.returned().inbox2, due, s.n));
        let id = choose|id: u32| #[trigger]
            is_ready(s.returned().inbox2, id, s.n) && t == s.returned().yields_stored(id) && r
                == Ok::<Seq<u8>, Error>(s.inbox2[id].payload);
        lemma_without_stored(s, id);
        id
    }
}

/// When the last thing that lies in the buffer is handed out, all of the buffer is
/// unused.
pub proof fn law_empty_buffer_is_unused<U: UdpLike>(
    s: State,
    from: U,
    trace: Seq<Reception<U>>,
    t: State,
    to: U,
    r: Result<Seq<u8>, Error>,
    id: u32,
)
    requires
        s.wf(),
        hearing(s, from, trace, t, to, r),
        s.inbox.contains_key(id),
        is_due(s, id),
        forall|x: u32| #[trigger] s.inbox.contains_key(x) ==> x == id,
        forall|x: u32| !#[trigger] s.outbox.contains_key(x),
    ensures
        t.buf_free_start == 0,
{
    assert(is_ready(s.inbox, id, s.n));
    assert(s.inbox.remove(id).is_empty()) by {
        assert(s.inbox.remove(id) =~= Map::empty());
    }
    assert(s.outbox =~= Map::empty());
}

/// What asking the socket makes of the endpoint: nothing that waits is lost, what is
/// added came from the socket, and every acknowledgement is taken over.
#[verifier::rlimit(40)]
#[verifier::spinoff_prover]
proof fn lemma_asking<U: UdpLike>(s: State, trace: Seq<Reception<U>>, from: U, to: U)
    requires
        s.wf(),
        receptions(s, trace, from, to),
        trace.len() > 0 ==> hears_all(s, trace.drop_last()).1 is Again,
    ensures
        ({
            let (t, verdict) = hears_all(s, trace);
            let arrived = heard(trace);
            &&& t.wf()
            &&& forall|id: u32| #[trigger]
                waits(s, id) ==> waits(t, id) && waiting(t, id) == waiting(s, id)
            &&& forall|id: u32| #[trigger]
                waits(t, id) && !waits(s, id) ==> exists|k: int|
                    0 <= k < arrived.len() && waiting(t, id) == opened(#[trigger] arrived[k])
            &&& t.peer_acked == latest_ack(s.peer_acked, arrived)
            &&& sends_alike(s, t)
            &&& sized_alike(s, t)
            &&& verdict matches Verdict::Yield(payload) ==> {
                &&& arrived.len() > 0
                &&& payload == payload_of(arrived.last())
            }
            &&& !(verdict is Yield) ==> {
                &&& t.n == s.n
                &&& t.max_yielded == s.max_yielded
                &&& t.largest_set_id_yielded == s.largest_set_id_yielded
                &&& t.seen_before == s.seen_before
            }
            &&& verdict is Yield && !header_of(arrived.last()).id.ordinary() ==> {
                &&& t.n == s.n
                &&& t.max_yielded == s.max_yielded
                &&& t.largest_set_id_yielded == s.largest_set_id_yielded
                &&& t.seen_before == s.seen_before
            }
            &&& verdict is Yield && header_of(arrived.last()).id.ordinary() ==> counts(
                s,
                header_of(arrived.last()),
                t,
            )
        }),
    decreases trace.len(),
{
    let t = hears_all(s, trace).0;
    let arrived = heard(trace);
    if trace.len() > 0 {
        let fewer = trace.drop_last();
        let last = trace.last();
        let before = heard(fewer);
        lemma_asking(s, fewer, from, last.from);
        let u = hears_all(s, fewer).0;
        let w = u.with_room();
        law_room_is_made(u);
        assert forall|id: u32| #[trigger] waits(s, id) implies waits(w, id) && waiting(w, id)
            == waiting(s, id) by {
            assert(waits(u, id));
        }
        assert forall|id: u32| #[trigger] waits(w, id) && !waits(s, id) implies exists|k: int|
            0 <= k < before.len() && waiting(w, id) == opened(#[trigger] before[k]) by {
            assert(waits(u, id));
        }
        match last.reply {
            Ok(bytes) if HEADER_BYTES <= bytes <= last.filled.len() => {
                let d = last.filled.take(bytes as int);
                law_arrival_keeps_what_waits(w, d);
                law_arrival_counts_what_is_handed_out(w, d);
                law_arrival_takes_the_acknowledgement(w, d);
                w.lemma_takes_in_wf(d);
                assert(arrived == before.push(d));
                assert(arrived.drop_last() =~= before);
                assert(arrived[before.len() as int] == d);
                assert forall|id: u32| #[trigger] waits(t, id) && !waits(s, id) implies exists|
                    k: int,
                |
                    0 <= k < arrived.len() && waiting(t, id) == opened(#[trigger] arrived[k]) by {
                    if waits(w, id) {
                        let k = choose|k: int|
                            0 <= k < before.len() && waiting(w, id) == opened(#[trigger] before[k]);
                        assert(arrived[k] == before[k]);
                    } else {
                        assert(waiting(t, id) == opened(arrived[before.len() as int]));
                    }
                }
                assert(sends_alike(s, w) && sends_alike(w, t));
                lemma_alike(s, w, t);
            },
            _ => {
                assert(arrived == before);
                assert(t == w);
                lemma_alike(s, u, w);
            },
        }
    }
}

proof fn lemma_alike(s: State, u: State, t: State)
    requires
        sends_alike(s, u),
        sends_alike(u, t),
    ensures
        sends_alike(s, t),
{
    assert forall|id: u32| keeps(t, id) <==> #[trigger] keeps(s, id) by {
        assert(keeps(u, id) <==> keeps(s, id));
    }
    assert forall|id: u32| #[trigger] keeps(s, id) implies parcel(t, id) == parcel(s, id) by {
        assert(keeps(u, id));
    }
}

/// A call of `recv` loses nothing: a message that waits before goes on waiting as it
/// is, or is the one that is handed out. What waits after it and not before came from
/// the socket. It takes over every acknowledgement that came, and touches nothing that
/// is kept for resending.
#[verifier::rlimit(40)]
#[verifier::spinoff_prover]
pub proof fn law_recv_loses_nothing<U: UdpLike>(
    s: State,
    from: U,
    trace: Seq<Reception<U>>,
    t: State,
    to: U,
    r: Result<Seq<u8>, Error>,
)
    requires
        s.wf(),
        hearing(s, from, trace, t, to, r),
    ensures
        t.wf(),
        r is Err ==> forall|id: u32| #[trigger]
            waits(s, id) ==> waits(t, id) && waiting(t, id) == waiting(s, id),
        forall|id: u32| #[trigger]
            waits(s, id) ==> {
                ||| waits(t, id) && waiting(t, id) == waiting(s, id)
                ||| trace.len() == 0 && is_due(s, id) && r == Ok::<Seq<u8>, Error>(
                    waiting(s, id).payload,
                )
            },
        forall|x: u32, y: u32|
            (#[trigger] waits(s, x)) && (#[trigger] waits(s, y)) && !waits(t, x) && !waits(t, y)
                ==> x == y,
        forall|id: u32| #[trigger]
            waits(t, id) && !waits(s, id) ==> exists|k: int|
                0 <= k < heard(trace).len() && waiting(t, id) == opened(#[trigger] heard(trace)[k]),
        t.peer_acked == latest_ack(s.peer_acked, heard(trace)),
        sends_alike(s, t),
        sized_alike(s, t),
{
    s.lemma_returned_wf();
    let u = s.returned();
    if exists|due: u32| is_due(s, due) {
        let due = choose|due: u32| is_due(s, due);
        let id = law_due_message_is_handed_out(s, from, trace, t, to, r, due);
        if some_ready(s.inbox, s.n) {
            let x = choose|x: u32| #[trigger]
                is_ready(s.inbox, x, s.n) && t == s.yields_inline(x);
            s.lemma_yields_inline_wf(x);
        } else {
            let x = choose|x: u32| #[trigger]
                is_ready(u.inbox2, x, s.n) && t == u.yields_stored(x);
            u.lemma_yields_stored_wf(x);
        }
    } else {
        assert(!some_ready(s.inbox, s.n)) by {
            if some_ready(s.inbox, s.n) {
                let id = choose|id: u32| is_ready(s.inbox, id, s.n);
                assert(is_due(s, id));
            }
        }
        assert(!some_ready(u.inbox2, s.n)) by {
            if some_ready(u.inbox2, s.n) {
                let id = choose|id: u32| is_ready(u.inbox2, id, s.n);
                assert(is_due(s, id));
            }
        }
        assert forall|id: u32| waits(u, id) == #[trigger] waits(s, id) && (waits(s, id) ==> waiting(
            u,
            id,
        ) == waiting(s, id)) by {}
        lemma_asking(u, trace, from, to);
        assert forall|id: u32| #[trigger] waits(s, id) implies waits(t, id) && waiting(t, id)
            == waiting(s, id) by {
            assert(waits(u, id));
        }
        assert forall|id: u32| #[trigger] waits(t, id) && !waits(s, id) implies exists|k: int|
            0 <= k < heard(trace).len() && waiting(t, id) == opened(#[trigger] heard(trace)[k]) by {
            assert(!waits(u, id));
        }
        lemma_alike(s, u, t);
    }
}

/// Where nothing is due, `recv` asks the socket, and the result is that of the last
/// reply: the payload of the datagram that came last, which is the only one to be
/// counted; the error of the socket; or the error that the reply is too short or too
/// long.
pub proof fn law_recv_asks_the_socket<U: UdpLike>(
    s: State,
    from: U,
    trace: Seq<Reception<U>>,
    t: State,
    to: U,
    r: Result<Seq<u8>, Error>,
)
    requires
        s.wf(),
        hearing(s, from, trace, t, to, r),
        forall|id: u32| !is_due(s, id),
    ensures
        trace.len() > 0,
        r matches Ok(payload) ==> {
            let arrived = heard(trace);
            &&& trace.last().reply is Ok
            &&& arrived.len() > 0
            &&& payload == arrived.last().take(arrived.last().len() - HEADER_BYTES)
            &&& header_of(arrived.last()).id.ordinary() ==> counts(
                s,
                header_of(arrived.last()),
                t,
            )
            &&& !header_of(arrived.last()).id.ordinary() ==> t.n == s.n && t.max_yielded
                == s.max_yielded && t.largest_set_id_yielded == s.largest_set_id_yielded
                && t.seen_before == s.seen_before
        },
        r is Err ==> t.n == s.n && t.max_yielded == s.max_yielded && t.largest_set_id_yielded
            == s.largest_set_id_yielded && t.seen_before == s.seen_before,
        trace.last().reply matches Err(e) ==> r == Err::<Seq<u8>, Error>(e),
        trace.last().reply matches Ok(bytes) ==> {
            &&& bytes < HEADER_BYTES || bytes > trace.last().filled.len() + HEADER_BYTES ==> r
                == Err::<Seq<u8>, Error>(Error::BadDatagram(bytes))
            &&& trace.last().filled.len() < bytes <= trace.last().filled.len() + HEADER_BYTES
                && bytes >= HEADER_BYTES ==> r == Err::<Seq<u8>, Error>(Error::UnexpectedEof)
            &&& HEADER_BYTES <= bytes <= trace.last().filled.len() ==> r is Ok || r == Err::<
                Seq<u8>,
                Error,
            >(Error::Interrupted)
        },
        forall|k: int| 0 <= k < trace.len() - 1 ==> (#[trigger] trace[k]).reply is Ok,
        trace.last().reply is Ok && r == Err::<Seq<u8>, Error>(Error::Interrupted) ==> trace.len()
            == 0xffff_ffff_ffff_ffff,
        // Each time, the socket is given all of the buffer that is unused, and that is
        // room for a longest message at least.
        forall|k: int|
            0 <= k < trace.len() ==> s.buf_min_space <= (#[trigger] trace[k]).before.len()
                <= s.capacity && trace[k].filled.len() == trace[k].before.len(),
{
    s.lemma_returned_wf();
    let u = s.returned();
    assert(!some_ready(s.inbox, s.n)) by {
        if some_ready(s.inbox, s.n) {
            let id = choose|id: u32| is_ready(s.inbox, id, s.n);
            assert(is_due(s, id));
        }
    }
    assert(!some_ready(u.inbox2, s.n)) by {
        if some_ready(u.inbox2, s.n) {
            let id = choose|id: u32| is_ready(u.inbox2, id, s.n);
            assert(is_due(s, id));
        }
    }
    lemma_asking(u, trace, from, to);
    lemma_replies(u, trace.drop_last());
    lemma_offers(u, trace, from, to);
    assert forall|k: int| 0 <= k < trace.len() - 1 implies (#[trigger] trace[k]).reply is Ok by {
        assert(trace.drop_last()[k] == trace[k]);
    }
}

/// The socket is always given room for a longest message.
proof fn lemma_offers<U: UdpLike>(s: State, trace: Seq<Reception<U>>, from: U, to: U)
    requires
        s.wf(),
        receptions(s, trace, from, to),
        trace.len() > 0 ==> hears_all(s, trace.drop_last()).1 is Again,
    ensures
        forall|k: int|
            0 <= k < trace.len() ==> s.buf_min_space <= (#[trigger] trace[k]).before.len()
                <= s.capacity && trace[k].filled.len() == trace[k].before.len(),
    decreases trace.len(),
{
    if trace.len() > 0 {
        let fewer = trace.drop_last();
        lemma_offers(s, fewer, from, trace.last().from);
        lemma_asking(s, fewer, from, trace.last().from);
        law_room_is_made(hears_all(s, fewer).0);
        assert forall|k: int| 0 <= k < trace.len() implies s.buf_min_space <= (
        #[trigger] trace[k]).before.len() <= s.capacity && trace[k].filled.len()
            == trace[k].before.len() by {
            if k < fewer.len() {
                assert(fewer[k] == trace[k]);
            }
        }
    }
}

/// While there is nothing to hand out and no error, every reply is a datagram.
proof fn lemma_replies<U>(s: State, trace: Seq<Reception<U>>)
    requires
        hears_all(s, trace).1 is Again,
    ensures
        forall|k: int| 0 <= k < trace.len() ==> (#[trigger] trace[k]).reply is Ok,
    decreases trace.len(),
{
    if trace.len() > 0 {
        lemma_replies(s, trace.drop_last());
        assert forall|k: int| 0 <= k < trace.len() implies (#[trigger] trace[k]).reply is Ok by {
            if k < trace.len() - 1 {
                assert(trace.drop_last()[k] == trace[k]);
            }
        }
    }
}

/// When `recv` fails, nothing that waits is due.
pub proof fn law_nothing_is_due_after_failure<U: UdpLike>(
    s: State,
    from: U,
    trace: Seq<Reception<U>>,
    t: State,
    to: U,
    r: Result<Seq<u8>, Error>,
)
    requires
        s.wf(),
        hearing(s, from, trace, t, to, r),
        r is Err,
    ensures
        forall|id: u32| !#[trigger] is_due(t, id),
{
    crate::jumbled::law_failed_recv_leaves_nothing_ready(s, from, trace, t, to, r);
    assert forall|id: u32| !#[trigger] is_due(t, id) by {
        assert(!is_ready(t.inbox, id, t.n));
        assert(!is_ready(t.inbox2, id, t.n));
    }
}

/// Over all that happens, no message is lost: one that waits at the start is handed
/// out in the end, or still waits, as it is.
pub proof fn law_what_waits_is_not_lost(s: State, events: Seq<Event>, id: u32)
    requires
        s.wf(),
        possible(s, events),
        waits(s, id),
    ensures
        ({
            let (t, out) = history(s, events);
            ||| waits(t, id) && waiting(t, id) == waiting(s, id)
            ||| out.contains(waiting(s, id))
        }),
    decreases events.len(),
{
    if events.len() > 0 {
        let fewer = events.drop_last();
        law_what_waits_is_not_lost(s, fewer, id);
        lemma_history_wf(s, fewer);
        let (u, before) = history(s, fewer);
        let (t, out) = history(s, events);
        let letter = waiting(s, id);
        let (_, handed_out) = happens(u, events.last());
        if before.contains(letter) {
            let k = choose|k: int| 0 <= k < before.len() && before[k] == letter;
            assert(out[k] == letter);
        } else {
            lemma_one_event_loses_nothing(u, events.last(), id);
            if handed_out == Some(letter) {
                assert(out[before.len() as int] == letter);
            }
        }
    }
}

proof fn lemma_one_event_loses_nothing(s: State, e: Event, id: u32)
    requires
        s.wf(),
        can_happen(s, e),
        waits(s, id),
    ensures
        ({
            let (t, handed_out) = happens(s, e);
            ||| waits(t, id) && waiting(t, id) == waiting(s, id)
            ||| handed_out == Some(waiting(s, id))
        }),
{
    match e {
        Event::Arrives(d) => law_arrival_keeps_what_waits(s, d),
        _ => {},
    }
}

/// A numbered message that arrives when its set is near, is not past and is not on
/// record, is handed out in the end or still waits, as it was sent, whatever happens
/// after.
pub proof fn law_what_arrives_is_not_lost(s: State, first: Seq<Event>, d: Seq<u8>, rest: Seq<Event>)
    requires
        s.wf(),
        possible(s, first.push(Event::Arrives(d)) + rest),
        header_of(d).id.ordinary(),
        ({
            let u = history(s, first).0;
            let h = header_of(d);
            &&& is_near(u, h.set_id)
            &&& !h.set_id.before(u.largest_set_id_yielded)
            &&& !on_record(u, h.id)
        }),
    ensures
        ({
            let (t, out) = history(s, first.push(Event::Arrives(d)) + rest);
            ||| waits(t, header_of(d).id.value) && waiting(t, header_of(d).id.value) == opened(d)
            ||| out.contains(opened(d))
        }),
    decreases rest.len(),
{
    let all = first.push(Event::Arrives(d)) + rest;
    let (t, out) = history(s, all);
    if rest.len() == 0 {
        assert(all =~= first.push(Event::Arrives(d)));
        assert(all.drop_last() =~= first);
        assert(all.last() == Event::Arrives(d));
        let (u, before) = history(s, first);
        lemma_history_wf(s, first);
        law_arrival_is_decided(u, d);
        if u.takes_in(d).1 is Some {
            assert(out[before.len() as int] == opened(d));
        }
    } else {
        assert(all.drop_last() =~= first.push(Event::Arrives(d)) + rest.drop_last());
        assert(all.last() == rest.last());
        law_what_arrives_is_not_lost(s, first, d, rest.drop_last());
        let (u, before) = history(s, all.drop_last());
        lemma_history_wf(s, all.drop_last());
        let letter = opened(d);
        if before.contains(letter) {
            let k = choose|k: int| 0 <= k < before.len() && before[k] == letter;
            assert(out[k] == letter);
        } else {
            lemma_one_event_loses_nothing(u, all.last(), letter.h.id.value);
            if happens(u, all.last()).1 == Some(letter) {
                assert(out[before.len() as int] == letter);
            }
        }
    }
}

/// The latest of some sequence numbers. Messages without one do not count.
pub open spec fn latest_number(start: ModOrd, out: Seq<Letter>) -> ModOrd
    decreases out.len(),
{
    if out.len() == 0 {
        start
    } else {
        later(latest_number(start, out.drop_last()), out.last().h.id)
    }
}

/// The number that is acknowledged to the peer is the latest one handed out, and the
/// acknowledgement by the peer is the latest one that came, whatever happens.
pub proof fn law_acknowledgements_keep_up(s: State, events: Seq<Event>)
    requires
        s.wf(),
        possible(s, events),
    ensures
        ({
            let (t, out) = history(s, events);
            &&& t.max_yielded == latest_number(s.max_yielded, out)
            &&& t.peer_acked == latest_ack(s.peer_acked, arrivals(events))
        }),
    decreases events.len(),
{
    if events.len() > 0 {
        let fewer = events.drop_last();
        law_acknowledgements_keep_up(s, fewer);
        lemma_history_wf(s, fewer);
        let (u, before) = history(s, fewer);
        let e = events.last();
        if let Some(letter) = happens(u, e).1 {
            assert(before.push(letter).drop_last() =~= before);
        }
        if let Event::Arrives(d) = e {
            law_arrival_counts_what_is_handed_out(u, d);
            law_arrival_takes_the_acknowledgement(u, d);
            assert(arrivals(fewer).push(d).drop_last() =~= arrivals(fewer));
        }
    }
}

/// No numbered message is handed out while what it waits for lies ahead of what was
/// counted.
pub proof fn law_nothing_is_handed_out_early(s: State, e: Event)
    requires
        s.wf(),
        can_happen(s, e),
    ensures
        happens(s, e).1 matches Some(letter) ==> letter.h.id.ordinary() ==> !s.n.before(
            letter.h.wait_until,
        ) && counts(s, letter.h, happens(s, e).0),
{
    if let Event::Arrives(d) = e {
        law_arrival_counts_what_is_handed_out(s, d);
    }
}

/// Whatever a call of `recv` does, it does with the socket called in some way, as
/// `trace` says, and so all that holds of such a call holds of it.
pub proof fn law_every_recv_is_a_hearing<U: UdpLike>(
    s: State,
    from: U,
    t: State,
    to: U,
    r: Result<Seq<u8>, Error>,
) -> (trace: Seq<Reception<U>>)
    requires
        receives(s, from, t, to, r),
    ensures
        hearing(s, from, trace, t, to, r),
{
    choose|trace: Seq<Reception<U>>| #[trigger] hearing(s, from, trace, t, to, r)
}

/// A message is known exactly if it is remembered as yielded or held. The buffer is too
/// small for another message exactly if a longest one would not fit.
pub proof fn law_what_is_known(s: State, id: ModOrd)
    ensures
        s.knows(id) <==> on_record(s, id),
        s.cramped() <==> s.capacity - s.buf_free_start < s.buf_min_space,
        s.room() == s.capacity - s.buf_free_start,
{
}

/// What a reply of the socket leads to: a datagram is taken in, and handed out exactly if
/// taking it in says so.
pub proof fn law_reply_is_taken_in(s: State, filled: Seq<u8>, bytes: usize)
    requires
        HEADER_BYTES <= bytes <= filled.len(),
    ensures
        ({
            let (t, out) = s.takes_in(filled.take(bytes as int));
            let (u, verdict) = s.hears(filled, Ok(bytes));
            &&& u == t
            &&& out matches Some(payload) ==> verdict == Verdict::Yield(payload)
            &&& out is None ==> verdict is Again
        }),
{
}

} // verus!
