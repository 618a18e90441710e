//! The mathematical model of an endpoint: what it holds, and what each event
//! makes of that.

use crate::clock::Age;
use crate::config::Guarantee;
use crate::error::Error;
use crate::header::{Header, HEADER_BYTES};
use crate::mod_ord::ModOrd;
use crate::udp::UdpLike;
use std::time::Instant;
use vstd::prelude::*;

verus! {

/// A message that was received and not yet handed out.
pub ghost struct Letter {
    pub h: Header,
    pub payload: Seq<u8>,
}

/// A datagram that was sent and not yet acknowledged.
pub ghost struct Parcel {
    pub at: Instant,
    pub bytes: Seq<u8>,
}

/// What an endpoint holds. Messages and datagrams are found by the value of
/// their sequence number.
#[verifier::ext_equal]
pub ghost struct State {
    /// The length of the buffer.
    pub capacity: int,
    /// Where the unused part of the buffer starts.
    pub buf_free_start: int,
    /// The buffer is vacated where less than this is unused.
    pub buf_min_space: int,
    /// How far the set of a message may be from the last set yielded.
    pub window_size: u32,
    /// The last sequence number yielded, which is acknowledged to the peer.
    pub max_yielded: ModOrd,
    /// The sequence number that the next set starts with.
    pub next_id: ModOrd,
    /// What the messages of the next set wait for.
    pub wait_until: ModOrd,
    /// The last sequence number that the peer has acknowledged.
    pub peer_acked: ModOrd,
    /// How far the messages that were received count.
    pub n: ModOrd,
    /// The last set that a message was yielded of.
    pub largest_set_id_yielded: ModOrd,
    /// The messages of that set that were yielded.
    pub seen_before: Set<u32>,
    /// Messages that wait in the buffer.
    pub inbox: Map<u32, Letter>,
    /// Messages that wait outside of the buffer.
    pub inbox2: Map<u32, Letter>,
    /// The message in `inbox2` that was yielded, but is still lent out.
    pub inbox2_to_remove: Option<u32>,
    /// Datagrams in the buffer.
    pub outbox: Map<u32, Parcel>,
    /// Datagrams outside of the buffer.
    pub outbox2: Map<u32, Parcel>,
}

/// How a datagram is dealt with.
pub ghost enum Verdict {
    /// There is nothing to hand out: go on to the next datagram.
    Again,
    /// This payload is handed out.
    Yield(Seq<u8>),
    /// Receiving ends with this error.
    Fail(Error),
}

/// Every message stands under its own sequence number.
pub open spec fn filed(m: Map<u32, Letter>) -> bool {
    forall|id: u32| #[trigger] m.contains_key(id) ==> m[id].h.id.value == id && m[id].h.id.ordinary()
}

/// Every datagram stands under a sequence number.
pub open spec fn numbered(m: Map<u32, Parcel>) -> bool {
    forall|id: u32| #[trigger] m.contains_key(id) ==> (ModOrd { value: id }).ordinary()
}

/// Whether a message that waits for `wait_until` may be handed out by a receiver
/// that has counted up to `n`.
pub open spec fn is_ready(m: Map<u32, Letter>, id: u32, n: ModOrd) -> bool {
    m.contains_key(id) && m[id].h.wait_until.up_to(n)
}

/// Whether one of the messages may be handed out.
pub open spec fn some_ready(m: Map<u32, Letter>, n: ModOrd) -> bool {
    exists|id: u32| is_ready(m, id, n)
}

/// Whether a datagram of the given age, whose sequence number is `distance` away
/// from how far the peer's messages count, is to be sent again: after a second
/// in any case, and each step of distance takes eight milliseconds off.
pub open spec fn is_stale(distance: int, age_nanos: int) -> bool {
    age_nanos >= 1_000_000_000 || age_nanos / 1_000_000 + distance * 8 > 1000
}

/// The datagrams that `acked` does not cover.
pub open spec fn unacknowledged(m: Map<u32, Parcel>, acked: ModOrd) -> Map<u32, Parcel> {
    m.restrict(Set::new(|id: u32| acked.before(ModOrd { value: id })))
}

/// The bytes of a message: the payload, followed by the header.
pub open spec fn datagram(h: Header, payload: Seq<u8>) -> Seq<u8> {
    payload + h.encoded()
}

/// The header of a datagram.
pub open spec fn header_of(d: Seq<u8>) -> Header {
    Header::decoded(d.skip(d.len() - HEADER_BYTES))
}

/// The payload of a datagram.
pub open spec fn payload_of(d: Seq<u8>) -> Seq<u8> {
    d.take(d.len() - HEADER_BYTES)
}

impl State {
    /// What holds of the state between any two operations.
    pub open spec fn wf(self) -> bool {
        &&& HEADER_BYTES <= self.buf_min_space <= self.capacity <= usize::MAX
        &&& 0 <= self.buf_free_start <= self.capacity
        // The cursors are sequence numbers.
        &&& self.max_yielded.ordinary()
        &&& self.next_id.ordinary()
        &&& self.wait_until.ordinary()
        &&& self.peer_acked.ordinary()
        &&& self.n.ordinary()
        &&& self.largest_set_id_yielded.ordinary()
        &&& filed(self.inbox)
        &&& filed(self.inbox2)
        &&& numbered(self.outbox)
        &&& numbered(self.outbox2)
        // A message waits in one place only, ...
        &&& forall|id: u32| #[trigger] self.inbox.contains_key(id) ==> !self.inbox2.contains_key(id)
        // ... and not once it was yielded.
        &&& forall|id: u32| #[trigger] self.seen_before.contains(id) ==> {
            &&& (ModOrd { value: id }).ordinary()
            &&& !self.inbox.contains_key(id)
            &&& self.inbox2.contains_key(id) ==> self.inbox2_to_remove == Some(id)
        }
        &&& self.inbox2_to_remove matches Some(id) ==> self.inbox2.contains_key(id)
    }

    /// A new endpoint.
    pub open spec fn initial(
        max_msg_size: int,
        buffer_grow_space: int,
        window_size: u32,
    ) -> State {
        State {
            capacity: max_msg_size + buffer_grow_space + HEADER_BYTES,
            buf_free_start: 0,
            buf_min_space: max_msg_size + HEADER_BYTES,
            window_size,
            max_yielded: ModOrd::before_zero(),
            next_id: ModOrd::zero(),
            wait_until: ModOrd::zero(),
            peer_acked: ModOrd::before_zero(),
            n: ModOrd::zero(),
            largest_set_id_yielded: ModOrd::zero(),
            seen_before: Set::empty(),
            inbox: Map::empty(),
            inbox2: Map::empty(),
            inbox2_to_remove: None,
            outbox: Map::empty(),
            outbox2: Map::empty(),
        }
    }

    /// How much of the buffer is unused.
    pub open spec fn room(self) -> int {
        self.capacity - self.buf_free_start
    }

    /// Whether the buffer may be too small for another message.
    pub open spec fn cramped(self) -> bool {
        self.room() < self.buf_min_space
    }

    /// Everything that lies in the buffer has moved out of it.
    pub open spec fn vacated(self) -> State {
        State {
            buf_free_start: 0,
            inbox: Map::empty(),
            inbox2: self.inbox2.union_prefer_right(self.inbox),
            outbox: Map::empty(),
            outbox2: self.outbox2.union_prefer_right(self.outbox),
            ..self
        }
    }

    /// There is room for another message.
    pub open spec fn with_room(self) -> State {
        if self.cramped() {
            self.vacated()
        } else {
            self
        }
    }

    /// Whether the message is known to have arrived before.
    pub open spec fn knows(self, id: ModOrd) -> bool {
        ||| self.seen_before.contains(id.value)
        ||| self.inbox.contains_key(id.value)
        ||| self.inbox2.contains_key(id.value)
    }

    /// A message with this header is about to be yielded.
    pub open spec fn yielding(self, set_id: ModOrd, id: ModOrd, del: bool) -> State {
        let newer = self.largest_set_id_yielded.before(set_id);
        let n = if self.n.before(set_id) {
            set_id
        } else {
            self.n
        };
        State {
            largest_set_id_yielded: if newer {
                set_id
            } else {
                self.largest_set_id_yielded
            },
            seen_before: if newer {
                set![id.value]
            } else if set_id == self.largest_set_id_yielded {
                self.seen_before.insert(id.value)
            } else {
                self.seen_before
            },
            n: if del {
                n.plus(1)
            } else {
                n
            },
            max_yielded: if self.max_yielded.before(id) {
                id
            } else {
                self.max_yielded
            },
            ..self
        }
    }

    /// The message has left the buffer. If nothing is left in the buffer, all of
    /// it is unused.
    pub open spec fn taken_out(self, id: u32) -> State {
        let s = State { inbox: self.inbox.remove(id), ..self };
        if s.inbox.is_empty() && s.outbox.is_empty() {
            s.vacated()
        } else {
            s
        }
    }

    /// A message of `inbox` is yielded.
    pub open spec fn yields_inline(self, id: u32) -> State {
        let h = self.inbox[id].h;
        self.taken_out(id).yielding(h.set_id, h.id, h.del)
    }

    /// The message that was lent out is gone.
    pub open spec fn returned(self) -> State {
        match self.inbox2_to_remove {
            Some(id) => State { inbox2: self.inbox2.remove(id), inbox2_to_remove: None, ..self },
            None => self,
        }
    }

    /// A message of `inbox2` is yielded.
    pub open spec fn yields_stored(self, id: u32) -> State {
        let h = self.inbox2[id].h;
        State { inbox2_to_remove: Some(id), ..self.yielding(h.set_id, h.id, h.del) }
    }

    /// The peer has acknowledged everything up to `ack`.
    pub open spec fn acknowledged(self, ack: ModOrd) -> State {
        if self.peer_acked.before(ack) {
            State { peer_acked: ack, ..self }
        } else {
            self
        }
    }

    /// What becomes of the state, and what is handed out, when the datagram `d`
    /// arrives.
    pub open spec fn takes_in(self, d: Seq<u8>) -> (State, Option<Seq<u8>>) {
        let h = header_of(d);
        let payload = payload_of(d);
        let s = self.acknowledged(h.ack);
        if s.largest_set_id_yielded.distance(h.set_id) > s.window_size || s.knows(h.id) {
            (s, None)
        } else {
            let t = State { buf_free_start: s.buf_free_start + payload.len(), ..s };
            if !h.id.ordinary() {
                (t, Some(payload))
            } else if h.set_id.before(t.largest_set_id_yielded) {
                (t, None)
            } else if t.n.before(h.wait_until) {
                (State { inbox: t.inbox.insert(h.id.value, Letter { h, payload }), ..t }, None)
            } else {
                (t.yielding(h.set_id, h.id, h.del), Some(payload))
            }
        }
    }

    /// What becomes of the state when the socket answers `reply` and has left the
    /// unused part of the buffer as `filled`.
    pub open spec fn hears(self, filled: Seq<u8>, reply: Result<usize, Error>) -> (State, Verdict) {
        match reply {
            Err(e) => (self, Verdict::Fail(e)),
            Ok(bytes) => if bytes < HEADER_BYTES || bytes - HEADER_BYTES > filled.len() {
                (self, Verdict::Fail(Error::BadDatagram(bytes)))
            } else if bytes > filled.len() {
                (self, Verdict::Fail(Error::UnexpectedEof))
            } else {
                let (s, handed_out) = self.takes_in(filled.take(bytes as int));
                (
                    s,
                    match handed_out {
                        Some(payload) => Verdict::Yield(payload),
                        None => Verdict::Again,
                    },
                )
            },
        }
    }

    /// A datagram with the sequence number `id` is kept for resending.
    pub open spec fn keeps(self, id: ModOrd, at: Instant, bytes: Seq<u8>) -> State {
        State {
            outbox: self.outbox.insert(id.value, Parcel { at, bytes }),
            buf_free_start: self.buf_free_start + bytes.len(),
            ..self
        }
    }

    /// A set that started with `set_id` has `count` messages with sequence
    /// numbers, `ord_count` of them without a promise of delivery.
    pub open spec fn after_set(self, set_id: ModOrd, count: u32, ord_count: u32) -> State {
        if count == 0 {
            self
        } else {
            let next_id = set_id.plus(count as int);
            State {
                next_id,
                wait_until: if ord_count < count {
                    next_id.plus(-(ord_count as int))
                } else {
                    self.wait_until
                },
                ..self
            }
        }
    }

    /// What the peer has acknowledged is no longer kept.
    pub open spec fn forgets_acked(self) -> State {
        State {
            outbox: unacknowledged(self.outbox, self.peer_acked),
            outbox2: unacknowledged(self.outbox2, self.peer_acked),
            ..self
        }
    }

    /// Whether a datagram with sequence number `id` and of that age is to be sent
    /// again.
    pub open spec fn finds_stale(self, id: u32, age_nanos: u128) -> bool {
        is_stale((ModOrd { value: id }).distance(self.n), age_nanos as int)
    }

    /// The datagrams in the buffer, or those outside of it.
    pub open spec fn kept(self, inline: bool) -> Map<u32, Parcel> {
        if inline {
            self.outbox
        } else {
            self.outbox2
        }
    }

    /// A datagram was sent again.
    pub open spec fn stamps(self, inline: bool, id: u32, now: Instant) -> State {
        if inline {
            State {
                outbox: self.outbox.insert(id, Parcel { at: now, bytes: self.outbox[id].bytes }),
                ..self
            }
        } else {
            State {
                outbox2: self.outbox2.insert(id, Parcel { at: now, bytes: self.outbox2[id].bytes }),
                ..self
            }
        }
    }
}

impl State {
    /// Vacating the buffer keeps the state well-formed.
    pub proof fn lemma_vacated_wf(self)
        requires
            self.wf(),
        ensures
            self.vacated().wf(),
    {
    }

    /// Removing a message from the buffer keeps the state well-formed.
    pub proof fn lemma_taken_out_wf(self, id: u32)
        requires
            self.wf(),
        ensures
            self.taken_out(id).wf(),
    {
    }

    /// Yielding a message that waits nowhere keeps the state well-formed.
    pub proof fn lemma_yielding_wf(self, set_id: ModOrd, id: ModOrd, del: bool)
        requires
            self.wf(),
            id.ordinary(),
            !self.inbox.contains_key(id.value),
            !self.inbox2.contains_key(id.value),
        ensures
            self.yielding(set_id, id, del).wf(),
    {
    }

    /// Yielding a message of the buffer keeps the state well-formed.
    pub proof fn lemma_yields_inline_wf(self, id: u32)
        requires
            self.wf(),
            self.inbox.contains_key(id),
        ensures
            self.yields_inline(id).wf(),
    {
        self.lemma_taken_out_wf(id);
        let h = self.inbox[id].h;
        self.taken_out(id).lemma_yielding_wf(h.set_id, h.id, h.del);
    }

    /// Taking back the message that was lent out keeps the state well-formed.
    pub proof fn lemma_returned_wf(self)
        requires
            self.wf(),
        ensures
            self.returned().wf(),
            self.returned().inbox2_to_remove is None,
    {
    }

    /// Yielding a message from outside of the buffer keeps the state well-formed.
    pub proof fn lemma_yields_stored_wf(self, id: u32)
        requires
            self.wf(),
            self.inbox2_to_remove is None,
            self.inbox2.contains_key(id),
        ensures
            self.yields_stored(id).wf(),
    {
    }

    /// Taking in a datagram that fits into the buffer keeps the state
    /// well-formed.
    pub proof fn lemma_takes_in_wf(self, d: Seq<u8>)
        requires
            self.wf(),
            HEADER_BYTES <= d.len() <= self.room(),
        ensures
            self.takes_in(d).0.wf(),
    {
        let h = header_of(d);
        let s = self.acknowledged(h.ack);
        let t = State { buf_free_start: s.buf_free_start + payload_of(d).len(), ..s };
        assert(s.wf());
        if !s.knows(h.id) && h.id.ordinary() {
            assert(t.wf());
            t.lemma_yielding_wf(h.set_id, h.id, h.del);
        }
    }
}

/// One call of the socket's `recv`.
pub ghost struct Reception<U> {
    pub from: U,
    pub to: U,
    pub before: Seq<u8>,
    pub filled: Seq<u8>,
    pub reply: Result<usize, Error>,
}

/// What becomes of the state when the socket is asked again and again. Before
/// each call, room is made for a message.
pub open spec fn hears_all<U>(s: State, trace: Seq<Reception<U>>) -> (State, Verdict)
    decreases trace.len(),
{
    if trace.len() == 0 {
        (s, Verdict::Again)
    } else {
        let (t, verdict) = hears_all(s, trace.drop_last());
        if verdict is Again {
            t.with_room().hears(trace.last().filled, trace.last().reply)
        } else {
            (t, verdict)
        }
    }
}

/// The receptions lead from one state of the socket to another, one after the
/// other. Each time, the socket is given all of the buffer that is unused.
pub open spec fn receptions<U: UdpLike>(
    s: State,
    trace: Seq<Reception<U>>,
    from: U,
    to: U,
) -> bool
    decreases trace.len(),
{
    if trace.len() == 0 {
        from == to
    } else {
        let last = trace.last();
        &&& receptions(s, trace.drop_last(), from, last.from)
        &&& last.before.len() == hears_all(s, trace.drop_last()).0.with_room().room()
        &&& last.filled.len() == last.before.len()
        &&& last.from.receives(&last.to, last.before, last.filled, last.reply)
        &&& last.to == to
    }
}

/// How many datagrams one call goes through at most.
pub const RECV_LIMIT: u64 = u64::MAX;

/// The socket is asked, until there is something to hand out or an error.
pub open spec fn listens<U: UdpLike>(
    s: State,
    from: U,
    trace: Seq<Reception<U>>,
    t: State,
    to: U,
    r: Result<Seq<u8>, Error>,
) -> bool {
    let (heard, verdict) = hears_all(s, trace);
    &&& 0 < trace.len() <= RECV_LIMIT
    &&& receptions(s, trace, from, to)
    &&& hears_all(s, trace.drop_last()).1 is Again
    &&& t == heard
    &&& match verdict {
        Verdict::Yield(payload) => r == Ok::<Seq<u8>, Error>(payload),
        Verdict::Fail(e) => r == Err::<Seq<u8>, Error>(e),
        Verdict::Again => trace.len() == RECV_LIMIT && r == Err::<Seq<u8>, Error>(
            Error::Interrupted,
        ),
    }
}

/// What `recv` does: it leads from state `s` and socket `from` to state `t` and
/// socket `to`, and returns `r`. A message that waits in the buffer and may be
/// handed out comes first, then one that waits outside of it, and then the
/// socket is asked. Which one of several messages is handed out is left open.
pub open spec fn receives<U: UdpLike>(
    s: State,
    from: U,
    t: State,
    to: U,
    r: Result<Seq<u8>, Error>,
) -> bool {
    exists|trace: Seq<Reception<U>>| #[trigger] hearing(s, from, trace, t, to, r)
}

/// What `recv` does where the socket is called as in `trace`.
pub open spec fn hearing<U: UdpLike>(
    s: State,
    from: U,
    trace: Seq<Reception<U>>,
    t: State,
    to: U,
    r: Result<Seq<u8>, Error>,
) -> bool {
    if some_ready(s.inbox, s.n) {
        &&& trace.len() == 0
        &&& to == from
        &&& exists|id: u32| #[trigger]
            is_ready(s.inbox, id, s.n) && t == s.yields_inline(id) && r == Ok::<Seq<u8>, Error>(
                s.inbox[id].payload,
            )
    } else if some_ready(s.returned().inbox2, s.n) {
        &&& trace.len() == 0
        &&& to == from
        &&& exists|id: u32| #[trigger]
            is_ready(s.returned().inbox2, id, s.n) && t == s.returned().yields_stored(id) && r
                == Ok::<Seq<u8>, Error>(s.inbox2[id].payload)
    } else {
        listens(s.returned(), from, trace, t, to, r)
    }
}

/// What handing a message to the socket does: it leads from state `s` and socket
/// `from` to state `t` and socket `to`, and returns `r`. Room is made first. If
/// the datagram still does not fit, the socket is not called. A message with a
/// promise of delivery is kept once the socket has taken it.
pub open spec fn posts<U: UdpLike>(
    s: State,
    from: U,
    h: Header,
    payload: Seq<u8>,
    t: State,
    to: U,
    r: Result<usize, Error>,
) -> bool {
    let bytes = datagram(h, payload);
    let room = s.with_room();
    if bytes.len() > room.room() {
        t == room && to == from && r == Err::<usize, Error>(Error::WriteZero)
    } else {
        exists|reply: Result<usize, Error>| #[trigger]
            from.sends(&to, bytes, reply) && match reply {
                Err(e) => t == room && r == Err::<usize, Error>(e),
                Ok(_) => {
                    &&& r == Ok::<usize, Error>(bytes.len() as usize)
                    &&& if h.del {
                        exists|at: Instant| t == #[trigger] room.keeps(h.id, at, bytes)
                    } else {
                        t == room
                    }
                },
            }
    }
}

/// Handing a message to the socket does not touch the numbering of messages.
pub proof fn lemma_posts_keeps_numbering<U: UdpLike>(
    s: State,
    from: U,
    h: Header,
    payload: Seq<u8>,
    t: State,
    to: U,
    r: Result<usize, Error>,
)
    requires
        posts(s, from, h, payload, t, to, r),
    ensures
        t.next_id == s.next_id,
        t.wait_until == s.wait_until,
{
}

/// The header of the next message of a set that started with `set_id`, has
/// `count` messages with sequence numbers so far, and waits for `wait_until`.
pub open spec fn set_header(
    s: State,
    set_id: ModOrd,
    wait_until: ModOrd,
    count: u32,
    guarantee: Guarantee,
) -> Header {
    Header {
        ack: s.max_yielded,
        set_id,
        id: if guarantee == Guarantee::Nothing {
            ModOrd::unnumbered()
        } else {
            set_id.plus(count as int)
        },
        wait_until,
        del: guarantee == Guarantee::Delivery,
    }
}

/// `count`, and one more for a message with that guarantee that was sent.
pub open spec fn counted(count: u32, guarantee: Guarantee, sent: bool) -> u32 {
    if sent && guarantee != Guarantee::Nothing {
        (count + 1) as u32
    } else {
        count
    }
}

/// `ord_count`, and one more for a message with that guarantee that was sent.
pub open spec fn ord_counted(ord_count: u32, guarantee: Guarantee, sent: bool) -> u32 {
    if sent && guarantee == Guarantee::Order {
        (ord_count + 1) as u32
    } else {
        ord_count
    }
}

/// What sending the next message of a set does: it leads from state `s` and
/// socket `from` to state `t` and socket `to`, and returns `r`.
pub open spec fn posts_in_set<U: UdpLike>(
    s: State,
    from: U,
    set_id: ModOrd,
    wait_until: ModOrd,
    count: u32,
    ord_count: u32,
    guarantee: Guarantee,
    payload: Seq<u8>,
    t: State,
    to: U,
    r: Result<usize, Error>,
) -> bool {
    let h = set_header(s, set_id, wait_until, count, guarantee);
    exists|posted: State| #[trigger]
        posts(s, from, h, payload, posted, to, r) && t == if r is Ok && guarantee
            != Guarantee::Nothing {
            posted.after_set(
                set_id,
                counted(count, guarantee, true),
                ord_counted(ord_count, guarantee, true),
            )
        } else {
            posted
        }
}

/// One datagram that `resend_lost` has looked at, when it had the given age.
/// `reply` is what the socket answered where it was called.
pub ghost struct Visit<U> {
    pub inline: bool,
    pub id: u32,
    pub age: Age,
    pub from: U,
    pub to: U,
    pub reply: Result<usize, Error>,
}

/// Looking at a datagram calls the socket with its bytes if it is stale, and does
/// nothing otherwise. Its age is measured from when it was last sent.
pub open spec fn visits<U: UdpLike>(s: State, v: Visit<U>) -> bool {
    &&& s.kept(v.inline).contains_key(v.id)
    &&& v.age.since() == s.kept(v.inline)[v.id].at
    &&& if s.finds_stale(v.id, v.age.nanos()) {
        v.from.sends(&v.to, s.kept(v.inline)[v.id].bytes, v.reply)
    } else {
        v.to == v.from
    }
}

/// The socket was called for the datagram and failed.
pub open spec fn visit_fails<U>(s: State, v: Visit<U>) -> bool {
    s.finds_stale(v.id, v.age.nanos()) && v.reply is Err
}

/// What looking at a datagram makes of the state.
pub open spec fn after_visit<U>(s: State, v: Visit<U>, now: Instant) -> State {
    if s.finds_stale(v.id, v.age.nanos()) && v.reply is Ok {
        s.stamps(v.inline, v.id, now)
    } else {
        s
    }
}

/// What looking at datagrams, one after the other, makes of the state.
pub open spec fn after_visits<U>(s: State, trace: Seq<Visit<U>>, now: Instant) -> State
    decreases trace.len(),
{
    if trace.len() == 0 {
        s
    } else {
        after_visit(after_visits(s, trace.drop_last(), now), trace.last(), now)
    }
}

/// The visits lead from one state of the socket to another, one after the other,
/// and none but the last can have failed.
pub open spec fn visits_all<U: UdpLike>(
    s: State,
    from: U,
    trace: Seq<Visit<U>>,
    now: Instant,
    to: U,
) -> bool
    decreases trace.len(),
{
    if trace.len() == 0 {
        from == to
    } else {
        let last = trace.last();
        let before = after_visits(s, trace.drop_last(), now);
        &&& visits_all(s, from, trace.drop_last(), now, last.from)
        &&& none_fails(s, trace.drop_last())
        &&& visits(before, last)
        &&& last.to == to
    }
}

/// No call of the socket has failed. Whether a datagram is stale does not depend
/// on what was sent before.
pub open spec fn none_fails<U>(s: State, trace: Seq<Visit<U>>) -> bool {
    forall|i: int| 0 <= i < trace.len() ==> !visit_fails(s, #[trigger] trace[i])
}

/// No datagram is looked at twice.
pub open spec fn visits_differ<U>(trace: Seq<Visit<U>>) -> bool {
    forall|i: int, j: int|
        0 <= i < j < trace.len() && (#[trigger] trace[i]).inline == (#[trigger] trace[j]).inline
            ==> trace[i].id != trace[j].id
}

/// The datagrams in the buffer are looked at before those outside of it.
pub open spec fn inline_first<U>(trace: Seq<Visit<U>>) -> bool {
    forall|i: int, j: int|
        0 <= i < j < trace.len() && (#[trigger] trace[j]).inline ==> (#[trigger] trace[i]).inline
}

/// Whether a datagram was looked at.
pub open spec fn visited<U>(trace: Seq<Visit<U>>, inline: bool, id: u32) -> bool {
    exists|i: int| 0 <= i < trace.len() && (#[trigger] trace[i]).inline == inline && trace[i].id == id
}

/// Looking at the datagrams in the buffer, or at those outside of it: at all of
/// them, unless a call of the socket fails.
pub open spec fn sweeps<U: UdpLike>(
    s: State,
    from: U,
    inline: bool,
    trace: Seq<Visit<U>>,
    now: Instant,
    t: State,
    to: U,
    r: Result<(), Error>,
) -> bool {
    &&& visits_all(s, from, trace, now, to)
    &&& visits_differ(trace)
    &&& forall|i: int| 0 <= i < trace.len() ==> (#[trigger] trace[i]).inline == inline
    &&& t == after_visits(s, trace, now)
    &&& match r {
        Ok(()) => {
            &&& none_fails(s, trace)
            &&& forall|id: u32| #[trigger]
                s.kept(inline).contains_key(id) ==> visited(trace, inline, id)
        },
        Err(e) => {
            &&& trace.len() > 0
            &&& visit_fails(s, trace.last())
            &&& trace.last().reply == Err::<usize, Error>(e)
        },
    }
}

/// Looking at datagrams changes when they were sent, and nothing else.
pub proof fn lemma_after_visits<U: UdpLike>(
    s: State,
    from: U,
    trace: Seq<Visit<U>>,
    now: Instant,
    to: U,
)
    requires
        visits_all(s, from, trace, now, to),
    ensures
        ({
            let t = after_visits(s, trace, now);
            &&& t == State { outbox: t.outbox, outbox2: t.outbox2, ..s }
            &&& forall|inline: bool| #[trigger] t.kept(inline).dom() == s.kept(inline).dom()
            &&& forall|inline: bool, id: u32| #[trigger]
                s.kept(inline).contains_key(id) ==> t.kept(inline)[id].bytes == s.kept(
                    inline,
                )[id].bytes
        }),
    decreases trace.len(),
{
    if trace.len() > 0 {
        lemma_after_visits(s, from, trace.drop_last(), now, trace.last().from);
        let before = after_visits(s, trace.drop_last(), now);
        let t = after_visits(s, trace, now);
        assert(before.kept(trace.last().inline).dom() == s.kept(trace.last().inline).dom());
        assert forall|inline: bool| #[trigger] t.kept(inline).dom() == s.kept(inline).dom() by {
            assert(before.kept(inline).dom() == s.kept(inline).dom());
            assert(t.kept(inline).dom() =~= before.kept(inline).dom());
        }
    }
}

/// One sequence of visits can follow another.
pub proof fn lemma_visits_chain<U: UdpLike>(
    s: State,
    from: U,
    first: Seq<Visit<U>>,
    mid: U,
    second: Seq<Visit<U>>,
    now: Instant,
    to: U,
)
    requires
        visits_all(s, from, first, now, mid),
        none_fails(s, first),
        visits_all(after_visits(s, first, now), mid, second, now, to),
    ensures
        visits_all(s, from, first + second, now, to),
        after_visits(s, first + second, now) == after_visits(
            after_visits(s, first, now),
            second,
            now,
        ),
    decreases second.len(),
{
    if second.len() == 0 {
        assert(first + second =~= first);
    } else {
        let last = second.last();
        lemma_after_visits(s, from, first, now, mid);
        lemma_visits_chain(s, from, first, mid, second.drop_last(), now, last.from);
        assert((first + second).drop_last() =~= first + second.drop_last());
        assert((first + second).last() == last);
        let all = first + second.drop_last();
        assert forall|i: int| 0 <= i < all.len() implies !visit_fails(s, #[trigger] all[i]) by {
            if i < first.len() {
                assert(all[i] == first[i]);
            } else {
                assert(all[i] == second.drop_last()[i - first.len()]);
            }
        }
    }
}

/// What `resend_lost` does: it leads from state `s` and socket `from` to state
/// `t` and socket `to`, and returns `r`. What was acknowledged is forgotten. What
/// is left is looked at, first in the buffer and then outside of it, until a call
/// of the socket fails. Which of several datagrams comes first is left open.
pub open spec fn resends<U: UdpLike>(
    s: State,
    from: U,
    trace: Seq<Visit<U>>,
    now: Instant,
    t: State,
    to: U,
    r: Result<(), Error>,
) -> bool {
    let kept = s.forgets_acked();
    &&& visits_all(kept, from, trace, now, to)
    &&& visits_differ(trace)
    &&& inline_first(trace)
    &&& t == after_visits(kept, trace, now)
    &&& match r {
        Ok(()) => {
            &&& none_fails(kept, trace)
            &&& forall|inline: bool, id: u32| #[trigger]
                kept.kept(inline).contains_key(id) ==> visited(trace, inline, id)
        },
        Err(e) => {
            &&& trace.len() > 0
            &&& visit_fails(kept, trace.last())
            &&& trace.last().reply == Err::<usize, Error>(e)
        },
    }
}

/// Sweeping the buffer and then what lies outside of it is what resending does.
pub proof fn lemma_sweeps_resend<U: UdpLike>(
    s: State,
    from: U,
    first: Seq<Visit<U>>,
    mid_state: State,
    mid: U,
    second: Seq<Visit<U>>,
    now: Instant,
    t: State,
    to: U,
    r: Result<(), Error>,
)
    requires
        sweeps(s.forgets_acked(), from, true, first, now, mid_state, mid, Ok(())),
        sweeps(mid_state, mid, false, second, now, t, to, r),
    ensures
        resends(s, from, first + second, now, t, to, r),
{
    let kept = s.forgets_acked();
    let all = first + second;
    lemma_after_visits(kept, from, first, now, mid);
    lemma_visits_chain(kept, from, first, mid, second, now, to);
    assert forall|i: int| 0 <= i < all.len() implies #[trigger] all[i] == (if i < first.len() {
        first[i]
    } else {
        second[i - first.len()]
    }) by {}
    if r is Ok {
        assert forall|inline: bool, id: u32| #[trigger]
            kept.kept(inline).contains_key(id) implies visited(all, inline, id) by {
            if inline {
                assert(visited(first, true, id));
                let i = choose|i: int|
                    0 <= i < first.len() && (#[trigger] first[i]).inline == true && first[i].id
                        == id;
                assert(all[i] == first[i]);
            } else {
                assert(mid_state.kept(false).dom() == kept.kept(false).dom());
                assert(mid_state.kept(false).contains_key(id));
                assert(visited(second, false, id));
                let i = choose|i: int|
                    0 <= i < second.len() && (#[trigger] second[i]).inline == false && second[i].id
                        == id;
                assert(all[first.len() + i] == second[i]);
            }
        }
    } else {
        assert(all.last() == second.last());
    }
}

} // verus!
