//! No message with a sequence number is handed out twice, over any calls and any
//! socket.

use crate::history::{
    all_got, all_heard, arrivals, calls, can_happen, happens, history, law_calls_make_history,
    lemma_event_wf, lemma_history_wf, opened, payloads, possible, Event, Step,
};
use crate::laws::settled;
use crate::mod_ord::{ModOrd, HALF};
use crate::state::{header_of, Letter, State};
use crate::udp::UdpLike;
use vstd::prelude::*;

verus! {

/// Whether a message waits to be handed out.
pub open spec fn waits(s: State, id: u32) -> bool {
    s.inbox.contains_key(id) || (s.inbox2.contains_key(id) && s.inbox2_to_remove != Some(id))
}

/// The message that waits under the number `id`.
pub open spec fn waiting(s: State, id: u32) -> Letter {
    if s.inbox.contains_key(id) {
        s.inbox[id]
    } else {
        s.inbox2[id]
    }
}

/// Whether a message is of the set that `sets` gives for its number.
pub open spec fn fits(sets: spec_fn(u32) -> ModOrd, letter: Letter) -> bool {
    letter.h.id.ordinary() ==> letter.h.set_id == sets(letter.h.id.value)
}

/// Whether what the endpoint knows of messages goes with the sets that `sets`
/// gives for their numbers: what waits is of these sets, and what is remembered
/// as yielded is of the last set yielded.
pub open spec fn agrees(s: State, sets: spec_fn(u32) -> ModOrd) -> bool {
    &&& forall|id: u32| #[trigger] waits(s, id) ==> fits(sets, waiting(s, id))
    &&& forall|id: u32| #[trigger]
        s.seen_before.contains(id) ==> sets(id) == s.largest_set_id_yielded
}

/// Whether every message that arrives is of the set that `sets` gives for its
/// number.
pub open spec fn all_fit(sets: spec_fn(u32) -> ModOrd, arrived: Seq<Seq<u8>>) -> bool {
    forall|k: int| 0 <= k < arrived.len() ==> fits(sets, opened(#[trigger] arrived[k]))
}

/// A new endpoint agrees with any sets.
pub proof fn law_new_endpoint_agrees(
    max_msg_size: int,
    buffer_grow_space: int,
    window_size: u32,
    sets: spec_fn(u32) -> ModOrd,
)
    ensures
        agrees(State::initial(max_msg_size, buffer_grow_space, window_size), sets),
{
}

/// The numbers that are remembered as yielded are those of messages of the last
/// set yielded, after any calls, where messages with the same number are of the
/// same set.
pub proof fn law_seen_before_is_of_last_set<U: UdpLike>(
    steps: Seq<Step<U>>,
    s: State,
    from: U,
    t: State,
    to: U,
    sets: spec_fn(u32) -> ModOrd,
)
    requires
        s.wf(),
        calls(steps, s, from, t, to),
        agrees(s, sets),
        all_fit(sets, all_heard(steps)),
    ensures
        agrees(t, sets),
{
    let events = law_calls_make_history(steps, s, from, t, to);
    lemma_agrees(s, events, sets);
}

proof fn lemma_agrees(s: State, events: Seq<Event>, sets: spec_fn(u32) -> ModOrd)
    requires
        s.wf(),
        possible(s, events),
        agrees(s, sets),
        all_fit(sets, arrivals(events)),
    ensures
        agrees(history(s, events).0, sets),
    decreases events.len(),
{
    if events.len() > 0 {
        let fewer = events.drop_last();
        lemma_fewer_arrivals(events);
        assert forall|k: int| 0 <= k < arrivals(fewer).len() implies fits(
            sets,
            opened(#[trigger] arrivals(fewer)[k]),
        ) by {
            assert(arrivals(fewer)[k] == arrivals(events)[k]);
        }
        lemma_agrees(s, fewer, sets);
        lemma_history_wf(s, fewer);
        lemma_agrees_step(history(s, fewer).0, events.last(), sets);
    }
}

/// What has arrived before the last event.
proof fn lemma_fewer_arrivals(events: Seq<Event>)
    requires
        events.len() > 0,
    ensures
        arrivals(events.drop_last()).len() <= arrivals(events).len(),
        forall|k: int|
            0 <= k < arrivals(events.drop_last()).len() ==> #[trigger] arrivals(
                events.drop_last(),
            )[k] == arrivals(events)[k],
        events.last() matches Event::Arrives(d) ==> arrivals(events).len() > 0 && arrivals(
            events,
        )[arrivals(events).len() - 1] == d,
{
}

proof fn lemma_agrees_step(s: State, e: Event, sets: spec_fn(u32) -> ModOrd)
    requires
        s.wf(),
        can_happen(s, e),
        agrees(s, sets),
        e matches Event::Arrives(d) ==> fits(sets, opened(d)),
    ensures
        agrees(happens(s, e).0, sets),
{
    lemma_waits_step(s, e);
    match e {
        Event::Inline(id) => {
            assert(waits(s, id));
        },
        Event::Stored(id) => {
            assert(waits(s, id));
        },
        _ => {},
    }
}

/// What waits after an event has waited before, or is what arrived.
proof fn lemma_waits_step(s: State, e: Event)
    requires
        s.wf(),
        can_happen(s, e),
    ensures
        forall|id: u32| #[trigger]
            waits(happens(s, e).0, id) ==> {
                ||| waits(s, id) && waiting(happens(s, e).0, id) == waiting(s, id)
                ||| {
                    &&& e matches Event::Arrives(d)
                    &&& id == header_of(d).id.value
                    &&& header_of(d).id.ordinary()
                    &&& waiting(happens(s, e).0, id) == opened(d)
                    &&& !waits(s, id)
                    &&& happens(s, e).1 is None
                    &&& !header_of(d).set_id.before(s.largest_set_id_yielded)
                    &&& !s.seen_before.contains(id)
                }
            },
        happens(s, e).1 matches Some(letter) ==> {
            &&& !waits(happens(s, e).0, letter.h.id.value)
            &&& e matches Event::Arrives(d) ==> letter == opened(d) && (letter.h.id.ordinary()
                ==> !waits(s, letter.h.id.value) && !letter.h.set_id.before(
                s.largest_set_id_yielded,
            ) && !s.seen_before.contains(letter.h.id.value))
            &&& !(e is Arrives) ==> waits(s, letter.h.id.value) && letter == waiting(
                s,
                letter.h.id.value,
            ) && letter.h.id.ordinary()
        },
{
}

/// Whether a set lies at most half of all sequence numbers ahead of `base`.
pub open spec fn in_reach(base: ModOrd, set_id: ModOrd) -> bool {
    base.ordinary() && set_id.ordinary() && base.steps_to(set_id) <= HALF
}

/// Whether no set wraps around: neither the last one yielded, nor that of a message
/// that waits, nor that of a numbered message that arrives.
pub open spec fn nothing_wraps(base: ModOrd, s: State, arrived: Seq<Seq<u8>>) -> bool {
    &&& in_reach(base, s.largest_set_id_yielded)
    &&& forall|id: u32| #[trigger] waits(s, id) ==> in_reach(base, waiting(s, id).h.set_id)
    &&& forall|k: int|
        0 <= k < arrived.len() && header_of(#[trigger] arrived[k]).id.ordinary() ==> in_reach(
            base,
            header_of(arrived[k]).set_id,
        )
}

/// No sequence number occurs twice.
pub open spec fn numbers_differ(out: Seq<Letter>) -> bool {
    forall|k: int, l: int|
        0 <= k < l < out.len() && (#[trigger] out[k]).h.id.ordinary() ==> out[k].h.id != (
        #[trigger] out[l]).h.id
}

/// Whether a message has waited in `s`, or is one of those that arrived.
pub open spec fn came(s: State, arrived: Seq<Seq<u8>>, letter: Letter) -> bool {
    ||| waits(s, letter.h.id.value) && letter == waiting(s, letter.h.id.value)
    ||| exists|j: int| 0 <= j < arrived.len() && letter == opened(#[trigger] arrived[j])
}

/// Over any calls, and over a socket that may lose, repeat and reorder, no sequence
/// number is handed out twice, and nothing that did not come from the socket, where
/// messages with the same number are of the same set and no set wraps around. The
/// calls return the payloads of the messages `out`.
pub proof fn law_numbers_are_handed_out_once<U: UdpLike>(
    steps: Seq<Step<U>>,
    s: State,
    from: U,
    t: State,
    to: U,
    base: ModOrd,
    sets: spec_fn(u32) -> ModOrd,
) -> (out: Seq<Letter>)
    requires
        s.wf(),
        calls(steps, s, from, t, to),
        agrees(s, sets),
        all_fit(sets, all_heard(steps)),
        nothing_wraps(base, s, all_heard(steps)),
    ensures
        payloads(out) == all_got(steps),
        numbers_differ(out),
        forall|k: int| 0 <= k < out.len() ==> came(s, all_heard(steps), #[trigger] out[k]),
        exists|events: Seq<Event>|
            {
                &&& #[trigger] possible(s, events)
                &&& history(s, events) == (t, out)
                &&& arrivals(events) == all_heard(steps)
            },
{
    let events = law_calls_make_history(steps, s, from, t, to);
    lemma_once(s, events, base, sets);
    history(s, events).1
}

/// What holds after all that has happened: what was handed out is done with.
spec fn is_done(
    s: State,
    arrived: Seq<Seq<u8>>,
    t: State,
    out: Seq<Letter>,
    base: ModOrd,
    sets: spec_fn(u32) -> ModOrd,
) -> bool {
    &&& t.wf()
    &&& agrees(t, sets)
    &&& in_reach(base, t.largest_set_id_yielded)
    &&& forall|id: u32| #[trigger]
        waits(t, id) ==> in_reach(base, waiting(t, id).h.set_id) && came(s, arrived, waiting(t, id))
    &&& forall|k: int|
        0 <= k < out.len() ==> came(s, arrived, #[trigger] out[k]) && is_past(
            t,
            out[k],
            base,
            sets,
        )
    &&& numbers_differ(out)
}

/// A message with a sequence number is done with.
spec fn is_past(t: State, letter: Letter, base: ModOrd, sets: spec_fn(u32) -> ModOrd) -> bool {
    letter.h.id.ordinary() ==> {
        &&& fits(sets, letter)
        &&& in_reach(base, letter.h.set_id)
        &&& settled(t, letter.h.set_id, letter.h.id)
        &&& !waits(t, letter.h.id.value)
    }
}

proof fn lemma_once(s: State, events: Seq<Event>, base: ModOrd, sets: spec_fn(u32) -> ModOrd)
    requires
        s.wf(),
        possible(s, events),
        agrees(s, sets),
        all_fit(sets, arrivals(events)),
        nothing_wraps(base, s, arrivals(events)),
    ensures
        is_done(s, arrivals(events), history(s, events).0, history(s, events).1, base, sets),
    decreases events.len(),
{
    let arrived = arrivals(events);
    if events.len() == 0 {
        assert forall|id: u32| #[trigger] waits(s, id) implies came(s, arrived, waiting(s, id)) by {
            assert(waiting(s, id).h.id.value == id);
        }
    } else {
        let fewer = events.drop_last();
        let e = events.last();
        lemma_fewer_arrivals(events);
        assert forall|k: int| 0 <= k < arrivals(fewer).len() implies fits(
            sets,
            opened(#[trigger] arrivals(fewer)[k]),
        ) && (header_of(arrivals(fewer)[k]).id.ordinary() ==> in_reach(
            base,
            header_of(arrivals(fewer)[k]).set_id,
        )) by {
            assert(arrivals(fewer)[k] == arrived[k]);
        }
        lemma_once(s, fewer, base, sets);
        let (t, out) = history(s, fewer);
        if let Event::Arrives(d) = e {
            assert(opened(arrived[arrived.len() - 1]) == opened(d));
        }
        assert forall|letter: Letter| came(s, arrivals(fewer), letter) implies #[trigger] came(
            s,
            arrived,
            letter,
        ) by {
            if !(waits(s, letter.h.id.value) && letter == waiting(s, letter.h.id.value)) {
                let j = choose|j: int|
                    0 <= j < arrivals(fewer).len() && letter == opened(
                        #[trigger] arrivals(fewer)[j],
                    );
                assert(arrivals(fewer)[j] == arrived[j]);
            }
        }
        lemma_once_step(s, arrived, t, out, e, base, sets);
    }
}

proof fn lemma_once_step(
    s: State,
    arrived: Seq<Seq<u8>>,
    t: State,
    out: Seq<Letter>,
    e: Event,
    base: ModOrd,
    sets: spec_fn(u32) -> ModOrd,
)
    requires
        is_done(s, arrived, t, out, base, sets),
        can_happen(t, e),
        e matches Event::Arrives(d) ==> {
            &&& fits(sets, opened(d))
            &&& header_of(d).id.ordinary() ==> in_reach(base, header_of(d).set_id)
            &&& came(s, arrived, opened(d))
        },
    ensures
        is_done(
            s,
            arrived,
            happens(t, e).0,
            match happens(t, e).1 {
                Some(letter) => out.push(letter),
                None => out,
            },
            base,
            sets,
        ),
{
    let (u, handed_out) = happens(t, e);
    lemma_event_wf(t, e);
    lemma_waits_step(t, e);
    lemma_agrees_step(t, e, sets);
    lemma_reach_step(t, e, base);
    assert forall|id: u32| #[trigger] waits(u, id) implies in_reach(base, waiting(u, id).h.set_id)
        && came(s, arrived, waiting(u, id)) by {
        assert(waits(t, id) || e is Arrives);
    }
    assert forall|letter: Letter|
        #[trigger] is_past(t, letter, base, sets) implies is_past(u, letter, base, sets) && (
    handed_out matches Some(new) ==> letter.h.id.ordinary() ==> letter.h.id != new.h.id) by {
        if letter.h.id.ordinary() {
            lemma_settled_step(t, e, base, letter.h.set_id, letter.h.id);
        }
    }
    if let Some(new) = handed_out {
        assert(is_past(u, new, base, sets) && came(s, arrived, new)) by {
            if !(e is Arrives) {
                assert(waits(t, new.h.id.value));
            }
        }
        let longer = out.push(new);
        assert forall|k: int| 0 <= k < longer.len() implies came(s, arrived, #[trigger] longer[k])
            && is_past(u, longer[k], base, sets) by {
            if k < out.len() {
                assert(longer[k] == out[k]);
                assert(is_past(t, out[k], base, sets));
            }
        }
        assert forall|k: int, l: int|
            0 <= k < l < longer.len() && (#[trigger] longer[k]).h.id.ordinary() implies longer[k].h.id
            != (#[trigger] longer[l]).h.id by {
            assert(longer[k] == out[k]);
            assert(is_past(t, out[k], base, sets));
            if l < out.len() {
                assert(longer[l] == out[l]);
            }
        }
    } else {
        assert forall|k: int| 0 <= k < out.len() implies came(s, arrived, #[trigger] out[k])
            && is_past(u, out[k], base, sets) by {
            assert(is_past(t, out[k], base, sets));
        }
    }
}

/// The last set yielded stays in reach, and only moves ahead. What is handed out is
/// done with.
proof fn lemma_reach_step(t: State, e: Event, base: ModOrd)
    requires
        t.wf(),
        can_happen(t, e),
        in_reach(base, t.largest_set_id_yielded),
        forall|id: u32| #[trigger] waits(t, id) ==> in_reach(base, waiting(t, id).h.set_id),
        e matches Event::Arrives(d) ==> header_of(d).id.ordinary() ==> in_reach(
            base,
            header_of(d).set_id,
        ),
    ensures
        ({
            let (u, handed_out) = happens(t, e);
            &&& in_reach(base, u.largest_set_id_yielded)
            &&& base.steps_to(t.largest_set_id_yielded) <= base.steps_to(u.largest_set_id_yielded)
            &&& u.largest_set_id_yielded == t.largest_set_id_yielded ==> t.seen_before.subset_of(
                u.seen_before,
            )
            &&& handed_out matches Some(letter) ==> letter.h.id.ordinary() ==> settled(
                u,
                letter.h.set_id,
                letter.h.id,
            ) && in_reach(base, letter.h.set_id)
        }),
{
    match e {
        Event::Inline(id) => {
            assert(waits(t, id));
        },
        Event::Stored(id) => {
            assert(waits(t, id));
        },
        _ => {},
    }
}

/// What is done with stays so.
proof fn lemma_settled_step(t: State, e: Event, base: ModOrd, set_id: ModOrd, id: ModOrd)
    requires
        in_reach(base, set_id),
        in_reach(base, t.largest_set_id_yielded),
        in_reach(base, happens(t, e).0.largest_set_id_yielded),
        base.steps_to(t.largest_set_id_yielded) <= base.steps_to(
            happens(t, e).0.largest_set_id_yielded,
        ),
        happens(t, e).0.largest_set_id_yielded == t.largest_set_id_yielded
            ==> t.seen_before.subset_of(happens(t, e).0.seen_before),
        settled(t, set_id, id),
    ensures
        settled(happens(t, e).0, set_id, id),
{
}

} // verus!
