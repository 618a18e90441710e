//! What happens to an endpoint over any number of calls.

use crate::config::Guarantee;
use crate::error::Error;
use crate::header::HEADER_BYTES;
use crate::mod_ord::ModOrd;
use crate::state::{
    counted, header_of, hearing, hears_all, is_ready, lemma_after_visits, ord_counted, payload_of,
    posts, posts_in_set, receptions, resends, set_header, some_ready, Letter, Reception, State,
    Verdict, Visit,
};
use crate::udp::UdpLike;
use std::time::Instant;
use vstd::prelude::*;

verus! {

/// Something that happens to an endpoint.
pub ghost enum Event {
    /// This datagram arrives, and there is room for it.
    Arrives(Seq<u8>),
    /// A message in the buffer that may be handed out is handed out.
    Inline(u32),
    /// A message outside of the buffer that may be handed out is handed out.
    Stored(u32),
    /// The buffer is vacated.
    Vacates,
    /// What was lent out is returned.
    Returns,
    /// A message is sent, which leaves the endpoint like this.
    Sends(State),
    /// Datagrams are sent again or forgotten, which leaves the endpoint like this.
    Resends(State),
}

/// Whether the event can happen. What is sent does not touch the receiving side.
pub open spec fn can_happen(s: State, e: Event) -> bool {
    match e {
        Event::Arrives(d) => HEADER_BYTES <= d.len() <= s.room(),
        Event::Inline(id) => is_ready(s.inbox, id, s.n),
        Event::Stored(id) => s.inbox2_to_remove is None && is_ready(s.inbox2, id, s.n),
        Event::Vacates => true,
        Event::Returns => true,
        Event::Sends(t) => t.wf() && t == (State {
            buf_free_start: t.buf_free_start,
            next_id: t.next_id,
            wait_until: t.wait_until,
            outbox: t.outbox,
            ..s
        }),
        Event::Resends(t) => t.wf() && t == (State { outbox: t.outbox, outbox2: t.outbox2, ..s }),
    }
}

/// The message in a datagram.
pub open spec fn opened(d: Seq<u8>) -> Letter {
    Letter { h: header_of(d), payload: payload_of(d) }
}

/// What becomes of the endpoint, and which message it hands out.
pub open spec fn happens(s: State, e: Event) -> (State, Option<Letter>) {
    match e {
        Event::Arrives(d) => {
            let (t, handed_out) = s.takes_in(d);
            (
                t,
                if handed_out is Some {
                    Some(opened(d))
                } else {
                    None
                },
            )
        },
        Event::Inline(id) => (s.yields_inline(id), Some(s.inbox[id])),
        Event::Stored(id) => (s.yields_stored(id), Some(s.inbox2[id])),
        Event::Vacates => (s.vacated(), None),
        Event::Returns => (s.returned(), None),
        Event::Sends(t) => (t, None),
        Event::Resends(t) => (t, None),
    }
}

/// The endpoint after all that has happened, and what it has handed out, in
/// order.
pub open spec fn history(s: State, events: Seq<Event>) -> (State, Seq<Letter>)
    decreases events.len(),
{
    if events.len() == 0 {
        (s, seq![])
    } else {
        let (t, out) = history(s, events.drop_last());
        let (u, handed_out) = happens(t, events.last());
        (
            u,
            match handed_out {
                Some(letter) => out.push(letter),
                None => out,
            },
        )
    }
}

/// Every event can happen when its turn comes.
pub open spec fn possible(s: State, events: Seq<Event>) -> bool
    decreases events.len(),
{
    events.len() > 0 ==> {
        &&& possible(s, events.drop_last())
        &&& can_happen(history(s, events.drop_last()).0, events.last())
    }
}

/// The datagrams that arrive, in order.
pub open spec fn arrivals(events: Seq<Event>) -> Seq<Seq<u8>>
    decreases events.len(),
{
    if events.len() == 0 {
        seq![]
    } else {
        match events.last() {
            Event::Arrives(d) => arrivals(events.drop_last()).push(d),
            _ => arrivals(events.drop_last()),
        }
    }
}

/// The datagrams that the socket hands over, in order.
pub open spec fn heard<U>(trace: Seq<Reception<U>>) -> Seq<Seq<u8>>
    decreases trace.len(),
{
    if trace.len() == 0 {
        seq![]
    } else {
        let before = heard(trace.drop_last());
        let last = trace.last();
        match last.reply {
            Ok(bytes) => if HEADER_BYTES <= bytes <= last.filled.len() {
                before.push(last.filled.take(bytes as int))
            } else {
                before
            },
            Err(_) => before,
        }
    }
}

/// The payloads of messages.
pub open spec fn payloads(out: Seq<Letter>) -> Seq<Seq<u8>> {
    out.map_values(|letter: Letter| letter.payload)
}

/// What a call that returns `r` hands out.
pub open spec fn outcome(r: Result<Seq<u8>, Error>) -> Seq<Seq<u8>> {
    match r {
        Ok(payload) => seq![payload],
        Err(_) => seq![],
    }
}

/// The events make the endpoint `t` out of `s`, with these datagrams arriving and
/// these payloads being handed out.
pub open spec fn leads(
    s: State,
    events: Seq<Event>,
    t: State,
    arrived: Seq<Seq<u8>>,
    got: Seq<Seq<u8>>,
) -> bool {
    &&& possible(s, events)
    &&& history(s, events).0 == t
    &&& arrivals(events) == arrived
    &&& payloads(history(s, events).1) == got
}

/// Nothing happens.
proof fn lemma_nothing(s: State)
    ensures
        leads(s, seq![], s, seq![], seq![]),
{
    assert(payloads(seq![]) =~= seq![]);
}

/// One event is a history.
proof fn lemma_single(s: State, e: Event)
    requires
        can_happen(s, e),
    ensures
        leads(
            s,
            seq![e],
            happens(s, e).0,
            match e {
                Event::Arrives(d) => seq![d],
                _ => seq![],
            },
            match happens(s, e).1 {
                Some(letter) => seq![letter.payload],
                None => seq![],
            },
        ),
{
    let events = seq![e];
    assert(events.drop_last() =~= Seq::<Event>::empty());
    assert(possible(s, events.drop_last()));
    assert(history(s, events.drop_last()) == (s, Seq::<Letter>::empty()));
    assert(arrivals(events.drop_last()) =~= Seq::<Seq<u8>>::empty());
    assert(payloads(seq![]) =~= seq![]);
    if let Some(letter) = happens(s, e).1 {
        assert(payloads(Seq::<Letter>::empty().push(letter)) =~= seq![letter.payload]);
    }
    if let Event::Arrives(d) = e {
        assert(Seq::<Seq<u8>>::empty().push(d) =~= seq![d]);
    }
}

/// What happens in two parts happens in one.
pub proof fn law_histories_chain(s: State, first: Seq<Event>, second: Seq<Event>)
    requires
        possible(s, first),
        possible(history(s, first).0, second),
    ensures
        possible(s, first + second),
        history(s, first + second).0 == history(history(s, first).0, second).0,
        history(s, first + second).1 == history(s, first).1 + history(
            history(s, first).0,
            second,
        ).1,
        arrivals(first + second) == arrivals(first) + arrivals(second),
    decreases second.len(),
{
    if second.len() == 0 {
        assert(first + second =~= first);
        assert(history(s, first).1 + Seq::<Letter>::empty() =~= history(s, first).1);
        assert(arrivals(first) + Seq::<Seq<u8>>::empty() =~= arrivals(first));
    } else {
        law_histories_chain(s, first, second.drop_last());
        assert((first + second).drop_last() =~= first + second.drop_last());
        assert((first + second).last() == second.last());
        assert(history(s, first + second).1 =~= history(s, first).1 + history(
            history(s, first).0,
            second,
        ).1);
        assert(arrivals(first + second) =~= arrivals(first) + arrivals(second));
    }
}

/// What leads somewhere in two parts leads there in one.
pub proof fn lemma_leads_chain(
    s: State,
    first: Seq<Event>,
    t: State,
    arrived: Seq<Seq<u8>>,
    got: Seq<Seq<u8>>,
    second: Seq<Event>,
    u: State,
    more: Seq<Seq<u8>>,
    got_more: Seq<Seq<u8>>,
)
    requires
        leads(s, first, t, arrived, got),
        leads(t, second, u, more, got_more),
    ensures
        leads(s, first + second, u, arrived + more, got + got_more),
{
    law_histories_chain(s, first, second);
    assert(payloads(history(s, first).1 + history(t, second).1) =~= got + got_more);
}

/// The events of asking the socket again and again.
proof fn lemma_hearing<U: UdpLike>(
    s: State,
    trace: Seq<Reception<U>>,
    from: U,
    to: U,
) -> (events: Seq<Event>)
    requires
        receptions(s, trace, from, to),
        trace.len() > 0 ==> hears_all(s, trace.drop_last()).1 is Again,
    ensures
        leads(
            s,
            events,
            hears_all(s, trace).0,
            heard(trace),
            match hears_all(s, trace).1 {
                Verdict::Yield(payload) => seq![payload],
                _ => seq![],
            },
        ),
    decreases trace.len(),
{
    if trace.len() == 0 {
        lemma_nothing(s);
        seq![]
    } else {
        let fewer = trace.drop_last();
        let last = trace.last();
        if fewer.len() > 0 {
            lemma_again_before(s, fewer);
        }
        let events = lemma_hearing(s, fewer, from, last.from);
        let t = hears_all(s, fewer).0;
        let u = t.with_room();
        let roomy = if t.cramped() {
            lemma_single(t, Event::Vacates);
            lemma_leads_chain(
                s,
                events,
                t,
                heard(fewer),
                seq![],
                seq![Event::Vacates],
                u,
                seq![],
                seq![],
            );
            events + seq![Event::Vacates]
        } else {
            events
        };
        assert(heard(fewer) + Seq::<Seq<u8>>::empty() =~= heard(fewer));
        assert(Seq::<Seq<u8>>::empty() + Seq::<Seq<u8>>::empty() =~= Seq::<Seq<u8>>::empty());
        assert(leads(s, roomy, u, heard(fewer), seq![]));
        match last.reply {
            Ok(bytes) if HEADER_BYTES <= bytes <= last.filled.len() => {
                let d = last.filled.take(bytes as int);
                let e = Event::Arrives(d);
                lemma_single(u, e);
                let got = match happens(u, e).1 {
                    Some(letter) => seq![letter.payload],
                    None => seq![],
                };
                lemma_leads_chain(
                    s,
                    roomy,
                    u,
                    heard(fewer),
                    seq![],
                    seq![e],
                    happens(u, e).0,
                    seq![d],
                    got,
                );
                assert(heard(fewer) + seq![d] =~= heard(trace));
                assert(Seq::<Seq<u8>>::empty() + got =~= got);
                roomy + seq![e]
            },
            _ => roomy,
        }
    }
}

/// If the last reply is waited for, there was nothing to hand out before.
proof fn lemma_again_before<U>(s: State, trace: Seq<Reception<U>>)
    requires
        trace.len() > 0,
        hears_all(s, trace).1 is Again,
    ensures
        hears_all(s, trace.drop_last()).1 is Again,
{
}

/// A call of `recv` makes events happen, and hands out what they hand out. What
/// arrives is what the socket hands over, datagram by datagram.
pub proof fn law_recv_makes_history<U: UdpLike>(
    s: State,
    from: U,
    trace: Seq<Reception<U>>,
    t: State,
    to: U,
    r: Result<Seq<u8>, Error>,
) -> (events: Seq<Event>)
    requires
        s.wf(),
        hearing(s, from, trace, t, to, r),
    ensures
        leads(s, events, t, heard(trace), outcome(r)),
{
    s.lemma_returned_wf();
    let none = Seq::<Seq<u8>>::empty();
    if some_ready(s.inbox, s.n) {
        let id = choose|id: u32| #[trigger]
            is_ready(s.inbox, id, s.n) && t == s.yields_inline(id) && r == Ok::<Seq<u8>, Error>(
                s.inbox[id].payload,
            );
        lemma_single(s, Event::Inline(id));
        seq![Event::Inline(id)]
    } else {
        lemma_single(s, Event::Returns);
        let u = s.returned();
        let more = if some_ready(u.inbox2, s.n) {
            let id = choose|id: u32| #[trigger]
                is_ready(s.returned().inbox2, id, s.n) && t == s.returned().yields_stored(id) && r
                    == Ok::<Seq<u8>, Error>(s.inbox2[id].payload);
            lemma_single(u, Event::Stored(id));
            seq![Event::Stored(id)]
        } else {
            lemma_hearing(u, trace, from, to)
        };
        lemma_leads_chain(s, seq![Event::Returns], u, none, none, more, t, heard(trace), outcome(r));
        assert(none + heard(trace) =~= heard(trace));
        assert(none + outcome(r) =~= outcome(r));
        seq![Event::Returns] + more
    }
}

/// Sending a message makes events happen that hand out nothing, and nothing
/// arrives.
pub proof fn law_send_makes_history<U: UdpLike>(
    s: State,
    from: U,
    set_id: ModOrd,
    wait_until: ModOrd,
    count: u32,
    ord_count: u32,
    guarantee: Guarantee,
    payload: Seq<u8>,
    t: State,
    to: U,
    r: Result<usize, Error>,
) -> (events: Seq<Event>)
    requires
        s.wf(),
        set_id.ordinary(),
        posts_in_set(
            s,
            from,
            set_id,
            wait_until,
            count,
            ord_count,
            guarantee,
            payload,
            t,
            to,
            r,
        ),
    ensures
        t.wf(),
        leads(s, events, t, seq![], seq![]),
{
    s.lemma_vacated_wf();
    let h = set_header(s, set_id, wait_until, count, guarantee);
    let posted = choose|posted: State| #[trigger]
        posts(s, from, h, payload, posted, to, r) && t == if r is Ok && guarantee
            != Guarantee::Nothing {
            posted.after_set(
                set_id,
                counted(count, guarantee, true),
                ord_counted(ord_count, guarantee, true),
            )
        } else {
            posted
        };
    let none = Seq::<Seq<u8>>::empty();
    assert(none + none =~= none);
    let room = s.with_room();
    let first = if s.cramped() {
        lemma_single(s, Event::Vacates);
        seq![Event::Vacates]
    } else {
        lemma_nothing(s);
        seq![]
    };
    assert(posted.wf());
    assert(t.wf());
    lemma_single(room, Event::Sends(t));
    lemma_leads_chain(s, first, room, none, none, seq![Event::Sends(t)], t, none, none);
    first + seq![Event::Sends(t)]
}

/// Resending makes events happen that hand out nothing, and nothing arrives.
pub proof fn law_resend_makes_history<U: UdpLike>(
    s: State,
    from: U,
    trace: Seq<Visit<U>>,
    now: Instant,
    t: State,
    to: U,
    r: Result<(), Error>,
) -> (events: Seq<Event>)
    requires
        s.wf(),
        resends(s, from, trace, now, t, to, r),
    ensures
        t.wf(),
        leads(s, events, t, seq![], seq![]),
{
    let kept = s.forgets_acked();
    lemma_after_visits(kept, from, trace, now, to);
    assert(t.kept(true).dom() == kept.kept(true).dom());
    assert(t.kept(false).dom() == kept.kept(false).dom());
    lemma_single(s, Event::Resends(t));
    seq![Event::Resends(t)]
}

/// A call on an endpoint, with what it was given, how the socket was called, and
/// what it returned.
pub ghost enum Call<U> {
    Recv { asked: Seq<Reception<U>>, received: Result<Seq<u8>, Error> },
    Send {
        set_id: ModOrd,
        wait_until: ModOrd,
        count: u32,
        ord_count: u32,
        guarantee: Guarantee,
        payload: Seq<u8>,
        sent: Result<usize, Error>,
    },
    Resend { visited: Seq<Visit<U>>, now: Instant, resent: Result<(), Error> },
}

/// A call, with the endpoint and its socket before and after it.
pub ghost struct Step<U> {
    pub call: Call<U>,
    pub s: State,
    pub from: U,
    pub t: State,
    pub to: U,
}

/// Whether the call does this.
pub open spec fn is_step<U: UdpLike>(step: Step<U>) -> bool {
    match step.call {
        Call::Recv { asked: trace, received: r } => hearing(step.s, step.from, trace, step.t, step.to, r),
        Call::Send { set_id, wait_until, count, ord_count, guarantee, payload, sent: r } => {
            set_id.ordinary() && posts_in_set(
                step.s,
                step.from,
                set_id,
                wait_until,
                count,
                ord_count,
                guarantee,
                payload,
                step.t,
                step.to,
                r,
            )
        },
        Call::Resend { visited: trace, now, resent: r } => resends(
            step.s,
            step.from,
            trace,
            now,
            step.t,
            step.to,
            r,
        ),
    }
}

/// Calls, one after the other, that lead from one endpoint and socket to another.
pub open spec fn calls<U: UdpLike>(steps: Seq<Step<U>>, s: State, from: U, t: State, to: U) -> bool
    decreases steps.len(),
{
    if steps.len() == 0 {
        s == t && from == to
    } else {
        let last = steps.last();
        &&& calls(steps.drop_last(), s, from, last.s, last.from)
        &&& is_step(last)
        &&& last.t == t
        &&& last.to == to
    }
}

/// The datagrams that the socket hands over in the calls, in order.
pub open spec fn all_heard<U>(steps: Seq<Step<U>>) -> Seq<Seq<u8>>
    decreases steps.len(),
{
    if steps.len() == 0 {
        seq![]
    } else {
        let before = all_heard(steps.drop_last());
        match steps.last().call {
            Call::Recv { asked: trace, .. } => before + heard(trace),
            _ => before,
        }
    }
}

/// The payloads that the calls return, in order.
pub open spec fn all_got<U>(steps: Seq<Step<U>>) -> Seq<Seq<u8>>
    decreases steps.len(),
{
    if steps.len() == 0 {
        seq![]
    } else {
        let before = all_got(steps.drop_last());
        match steps.last().call {
            Call::Recv { received: r, .. } => before + outcome(r),
            _ => before,
        }
    }
}

/// Any calls make events happen, and return what they hand out. What arrives is
/// what the socket hands over, datagram by datagram.
pub proof fn law_calls_make_history<U: UdpLike>(
    steps: Seq<Step<U>>,
    s: State,
    from: U,
    t: State,
    to: U,
) -> (events: Seq<Event>)
    requires
        s.wf(),
        calls(steps, s, from, t, to),
    ensures
        t.wf(),
        leads(s, events, t, all_heard(steps), all_got(steps)),
    decreases steps.len(),
{
    if steps.len() == 0 {
        lemma_nothing(s);
        seq![]
    } else {
        let none = Seq::<Seq<u8>>::empty();
        let fewer = steps.drop_last();
        let last = steps.last();
        let u = last.s;
        let first = law_calls_make_history(fewer, s, from, u, last.from);
        assert(all_heard(fewer) + none =~= all_heard(fewer));
        assert(all_got(fewer) + none =~= all_got(fewer));
        match last.call {
            Call::Recv { asked: trace, received: r } => {
                let second = law_recv_makes_history(u, last.from, trace, t, to, r);
                lemma_leads_chain(
                    s,
                    first,
                    u,
                    all_heard(fewer),
                    all_got(fewer),
                    second,
                    t,
                    heard(trace),
                    outcome(r),
                );
                lemma_history_wf(s, first + second);
                first + second
            },
            Call::Send { set_id, wait_until, count, ord_count, guarantee, payload, sent: r } => {
                let second = law_send_makes_history(
                    u,
                    last.from,
                    set_id,
                    wait_until,
                    count,
                    ord_count,
                    guarantee,
                    payload,
                    t,
                    to,
                    r,
                );
                lemma_leads_chain(
                    s,
                    first,
                    u,
                    all_heard(fewer),
                    all_got(fewer),
                    second,
                    t,
                    none,
                    none,
                );
                first + second
            },
            Call::Resend { visited: trace, now, resent: r } => {
                let second = law_resend_makes_history(u, last.from, trace, now, t, to, r);
                lemma_leads_chain(
                    s,
                    first,
                    u,
                    all_heard(fewer),
                    all_got(fewer),
                    second,
                    t,
                    none,
                    none,
                );
                first + second
            },
        }
    }
}

/// Whatever happens, the endpoint stays well-formed.
pub proof fn lemma_history_wf(s: State, events: Seq<Event>)
    requires
        s.wf(),
        possible(s, events),
    ensures
        history(s, events).0.wf(),
    decreases events.len(),
{
    if events.len() > 0 {
        lemma_history_wf(s, events.drop_last());
        lemma_event_wf(history(s, events.drop_last()).0, events.last());
    }
}

/// Whatever happens, the sizes stay as they are.
pub proof fn lemma_sizes_stay(s: State, events: Seq<Event>)
    requires
        possible(s, events),
    ensures
        history(s, events).0.capacity == s.capacity,
        history(s, events).0.buf_min_space == s.buf_min_space,
        history(s, events).0.window_size == s.window_size,
    decreases events.len(),
{
    if events.len() > 0 {
        lemma_sizes_stay(s, events.drop_last());
    }
}

/// One event keeps the endpoint well-formed.
pub proof fn lemma_event_wf(s: State, e: Event)
    requires
        s.wf(),
        can_happen(s, e),
    ensures
        happens(s, e).0.wf(),
{
    match e {
        Event::Arrives(d) => s.lemma_takes_in_wf(d),
        Event::Inline(id) => s.lemma_yields_inline_wf(id),
        Event::Stored(id) => s.lemma_yields_stored_wf(id),
        Event::Vacates => s.lemma_vacated_wf(),
        Event::Returns => s.lemma_returned_wf(),
        _ => {},
    }
}

} // verus!
