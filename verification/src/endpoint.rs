//! One end of a connection.

use crate::clock::{age_of, Age};
use crate::config::{EndpointConfig, Guarantee};
use crate::error::Error;
use crate::header::{law_header_round_trip, Header, HEADER_BYTES};
use crate::message::{Message, OwnedMessage, OwnedSent, Sent};
use crate::mod_ord::ModOrd;
use crate::set_sender::SetSender;
use crate::state::{
    after_visit, after_visits, datagram, header_of, hearing, hears_all, is_ready, is_stale,
    lemma_after_visits, lemma_sweeps_resend, none_fails, payload_of, posts, posts_in_set, receives,
    receptions, resends, some_ready, sweeps, visit_fails, visited, visits, visits_all,
    visits_differ, Letter, Parcel, Reception, State, Verdict, Visit, RECV_LIMIT,
};
use crate::udp::UdpLike;
use crate::wire::copy_into;
use std::collections::{HashMap, HashSet};
use std::time::Instant;
use vstd::prelude::*;

verus! {

broadcast use vstd::std_specs::hash::group_hash_axioms;

/// One end of a connection: a socket, and what was received or sent through it
/// and is not done with.
#[derive(Debug)]
pub struct Endpoint<U: UdpLike> {
    socket: U,
    buf: Vec<u8>,
    buf_free_start: usize,
    buf_min_space: usize,
    max_yielded: ModOrd,
    next_id: ModOrd,
    wait_until: ModOrd,
    outbox: HashMap<u32, Sent>,
    outbox2: HashMap<u32, OwnedSent>,
    peer_acked: ModOrd,
    n: ModOrd,
    largest_set_id_yielded: ModOrd,
    seen_before: HashSet<u32>,
    inbox: HashMap<u32, Message>,
    inbox2: HashMap<u32, OwnedMessage>,
    inbox2_to_remove: Option<u32>,
    window_size: u32,
}

spec fn letters(m: Map<u32, Message>, buf: Seq<u8>) -> Map<u32, Letter> {
    m.map_values(
        |x: Message| Letter { h: x.h, payload: buf.subrange(x.start as int, x.end as int) },
    )
}

spec fn owned_letters(m: Map<u32, OwnedMessage>) -> Map<u32, Letter> {
    m.map_values(|x: OwnedMessage| Letter { h: x.h, payload: x.payload@ })
}

spec fn parcels(m: Map<u32, Sent>, buf: Seq<u8>) -> Map<u32, Parcel> {
    m.map_values(
        |x: Sent| Parcel { at: x.at, bytes: buf.subrange(x.start as int, x.end as int) },
    )
}

spec fn owned_parcels(m: Map<u32, OwnedSent>) -> Map<u32, Parcel> {
    m.map_values(|x: OwnedSent| Parcel { at: x.at, bytes: x.bytes@ })
}

/// All keys of a map, each once.
fn keys_of<V>(m: &HashMap<u32, V>) -> (r: Vec<u32>)
    ensures
        r@.no_duplicates(),
        r@.to_set() == m@.dom(),
{
    let mut r: Vec<u32> = Vec::new();
    for id in it: m.keys()
        invariant
            r@.len() == it.index(),
            forall|i: int| 0 <= i < r@.len() ==> r@[i] == *it.seq()[i],
    {
        r.push(*id);
    }
    assert(r@ =~= vstd::std_specs::iter::IteratorSpec::remaining(
        &vstd::std_specs::hash::spec_keys_iter(m),
    ).unref());
    r
}

impl<U: UdpLike> View for Endpoint<U> {
    type V = State;

    closed spec fn view(&self) -> State {
        State {
            capacity: self.buf@.len() as int,
            buf_free_start: self.buf_free_start as int,
            buf_min_space: self.buf_min_space as int,
            window_size: self.window_size,
            max_yielded: self.max_yielded,
            next_id: self.next_id,
            wait_until: self.wait_until,
            peer_acked: self.peer_acked,
            n: self.n,
            largest_set_id_yielded: self.largest_set_id_yielded,
            seen_before: self.seen_before@,
            inbox: letters(self.inbox@, self.buf@),
            inbox2: owned_letters(self.inbox2@),
            inbox2_to_remove: self.inbox2_to_remove,
            outbox: parcels(self.outbox@, self.buf@),
            outbox2: owned_parcels(self.outbox2@),
        }
    }
}

impl<U: UdpLike> Endpoint<U> {
    /// What holds of an endpoint between any two calls.
    pub open spec fn wf(&self) -> bool {
        &&& self@.wf()
        &&& self.spans_are_used()
    }

    /// What is known to lie in the buffer lies in its used part.
    pub closed spec fn spans_are_used(&self) -> bool {
        &&& forall|id: u32| #[trigger] self.inbox@.contains_key(id) ==> self.inbox@[id].start
            <= self.inbox@[id].end <= self.buf_free_start
        &&& forall|id: u32| #[trigger] self.outbox@.contains_key(id) ==> self.outbox@[id].start
            <= self.outbox@[id].end <= self.buf_free_start
    }

    /// The socket of the endpoint.
    pub closed spec fn socket(&self) -> U {
        self.socket
    }

    /// What the unused part of the buffer holds.
    pub closed spec fn unused(&self) -> Seq<u8> {
        self.buf@.skip(self.buf_free_start as int)
    }

    /// An endpoint with the given sizes. Its buffer is filled with zeros.
    pub fn new_with_config(socket: U, config: EndpointConfig) -> (r: Endpoint<U>)
        requires
            config.max_msg_size + config.buffer_grow_space + HEADER_BYTES <= isize::MAX,
        ensures
            r.wf(),
            r.socket() == socket,
            r@ == State::initial(
                config.max_msg_size as int,
                config.buffer_grow_space as int,
                config.window_size,
            ),
            r.unused() == Seq::new(
                (config.max_msg_size + config.buffer_grow_space + HEADER_BYTES) as nat,
                |i: int| 0u8,
            ),
    {
        let r = Endpoint {
            buf_min_space: config.max_msg_size + HEADER_BYTES,
            socket,
            buf: vec![0u8; config.max_msg_size + config.buffer_grow_space + HEADER_BYTES],
            buf_free_start: 0,
            next_id: ModOrd::zero(),
            wait_until: ModOrd::zero(),
            n: ModOrd::zero(),
            largest_set_id_yielded: ModOrd::zero(),
            inbox: HashMap::new(),
            inbox2: HashMap::new(),
            seen_before: HashSet::new(),
            inbox2_to_remove: None,
            max_yielded: ModOrd::before_zero(),
            outbox: HashMap::new(),
            outbox2: HashMap::new(),
            peer_acked: ModOrd::before_zero(),
            window_size: config.window_size,
        };
        assert(r@ =~= State::initial(
            config.max_msg_size as int,
            config.buffer_grow_space as int,
            config.window_size,
        ));
        r
    }

    /// An endpoint with the default sizes.
    pub fn new(socket: U) -> (r: Endpoint<U>)
        ensures
            r.wf(),
            r.socket() == socket,
            r@ == State::initial(2048, 1024, 64),
            r.unused() == Seq::new((2048 + 1024 + HEADER_BYTES) as nat, |i: int| 0u8),
    {
        Self::new_with_config(socket, EndpointConfig::default())
    }

    /// Whether the unused part of the buffer may be too small for another
    /// message.
    pub fn buf_cant_take_another(&self) -> (r: bool)
        requires
            self.wf(),
        ensures
            r == self@.cramped(),
    {
        self.buf.len() - self.buf_free_start < self.buf_min_space
    }

    /// Whether the message with this header is known to have arrived before.
    pub fn known_duplicate(&mut self, header: &Header) -> (r: bool)
        requires
            old(self).wf(),
        ensures
            r == old(self)@.knows(header.id),
            *final(self) == *old(self),
    {
        let id: u32 = header.id.value;
        self.seen_before.contains(&id) || self.inbox.contains_key(&id) || self.inbox2.contains_key(
            &id,
        )
    }

    /// Whether a datagram of that age is to be sent again, where its sequence
    /// number is `seq_difference` away from how far the peer's messages count.
    pub fn too_stale_func(seq_difference: u32, age_nanos: u128) -> (r: bool)
        ensures
            r == is_stale(seq_difference as int, age_nanos as int),
    {
        if age_nanos >= 1_000_000_000 {
            true
        } else {
            let millis: u64 = (age_nanos / 1_000_000) as u64;
            millis + seq_difference as u64 * 8 > 1000
        }
    }

    /// Updates what was yielded, for a message that is about to be.
    fn pre_yield(&mut self, set_id: ModOrd, id: ModOrd, del: bool)
        ensures
            final(self)@ == old(self)@.yielding(set_id, id, del),
            final(self).socket == old(self).socket,
            final(self).buf@ == old(self).buf@,
            final(self).inbox == old(self).inbox,
            final(self).inbox2 == old(self).inbox2,
            final(self).outbox == old(self).outbox,
            final(self).buf_free_start == old(self).buf_free_start,
    {
        if set_id > self.largest_set_id_yielded {
            self.largest_set_id_yielded = set_id;
            self.seen_before.clear();
        }
        if set_id == self.largest_set_id_yielded {
            self.seen_before.insert(id.value);
        }
        if self.n < set_id {
            self.n = set_id;
        }
        if del {
            self.n = self.n.new_plus(1);
        }
        if self.max_yielded < id {
            self.max_yielded = id;
        }
        assert(self@ =~= old(self)@.yielding(set_id, id, del));
    }

    /// A message in the buffer that may be handed out.
    fn ready_from_inbox(&self) -> (r: Option<u32>)
        ensures
            match r {
                Some(id) => is_ready(self@.inbox, id, self.n),
                None => forall|id: u32| !is_ready(self@.inbox, id, self.n),
            },
    {
        for (id, msg) in it: self.inbox.iter()
            invariant
                forall|i: int|
                    0 <= i < it.index() ==> !(#[trigger] it.seq()[i]).1.h.wait_until.up_to(self.n),
        {
            if msg.h.wait_until <= self.n {
                return Some(*id);
            }
        }
        None
    }

    /// A message outside of the buffer that may be handed out.
    fn ready_from_inbox2(&self) -> (r: Option<u32>)
        ensures
            match r {
                Some(id) => is_ready(self@.inbox2, id, self.n),
                None => forall|id: u32| !is_ready(self@.inbox2, id, self.n),
            },
    {
        for (id, msg) in it: self.inbox2.iter()
            invariant
                forall|i: int|
                    0 <= i < it.index() ==> !(#[trigger] it.seq()[i]).1.h.wait_until.up_to(self.n),
        {
            if msg.h.wait_until <= self.n {
                return Some(*id);
            }
        }
        None
    }

    /// Moves everything that lies in the buffer out of it, so that all of the
    /// buffer is unused.
    fn vacate_buffer(&mut self)
        requires
            old(self).wf(),
        ensures
            final(self)@ == old(self)@.vacated(),
            final(self).wf(),
            final(self).socket == old(self).socket,
            final(self).buf@ == old(self).buf@,
            final(self).inbox@.is_empty(),
            final(self).outbox@.is_empty(),
    {
        let ids = keys_of(&self.inbox);
        let mut i: usize = 0;
        while i < ids.len()
            invariant
                i <= ids@.len(),
                ids@.to_set() == old(self).inbox@.dom(),
                old(self).wf(),
                *self == (Endpoint { inbox2: self.inbox2, ..*old(self) }),
                owned_letters(self.inbox2@) == owned_letters(
                    old(self).inbox2@,
                ).union_prefer_right(
                    letters(
                        old(self).inbox@.restrict(ids@.take(i as int).to_set()),
                        old(self).buf@,
                    ),
                ),
            decreases ids.len() - i,
        {
            let ghost before = self.inbox2@;
            let ghost done = ids@.take(i as int).to_set();
            let id: u32 = ids[i];
            assert(ids@.to_set().contains(id));
            let msg: Message = *self.inbox.get(&id).unwrap();
            let payload: Vec<u8> = vstd::slice::slice_to_vec(
                vstd::slice::slice_subrange(self.buf.as_slice(), msg.start, msg.end),
            );
            let ghost letter = Letter { h: msg.h, payload: payload@ };
            self.inbox2.insert(id, OwnedMessage { h: msg.h, payload });
            i += 1;
            proof {
                assert(ids@.take(i as int) =~= ids@.take(i - 1).push(id));
                ids@.take(i - 1).lemma_push_to_set_commute(id);
                let old_letters = letters(old(self).inbox@.restrict(done), old(self).buf@);
                let new_letters = letters(
                    old(self).inbox@.restrict(done.insert(id)),
                    old(self).buf@,
                );
                assert(new_letters =~= old_letters.insert(id, letter));
                assert(owned_letters(self.inbox2@) =~= owned_letters(before).insert(id, letter));
                assert(owned_letters(self.inbox2@) =~= owned_letters(
                    old(self).inbox2@,
                ).union_prefer_right(new_letters));
            }
        }
        assert(ids@.take(ids@.len() as int) =~= ids@);
        assert(old(self).inbox@.restrict(ids@.to_set()) =~= old(self).inbox@);
        self.inbox.clear();

        let ids = keys_of(&self.outbox);
        let ghost mid = *self;
        let mut i: usize = 0;
        while i < ids.len()
            invariant
                i <= ids@.len(),
                ids@.to_set() == mid.outbox@.dom(),
                mid.outbox == old(self).outbox,
                mid.buf@ == old(self).buf@,
                mid.buf_free_start == old(self).buf_free_start,
                old(self).wf(),
                *self == (Endpoint { outbox2: self.outbox2, ..mid }),
                owned_parcels(self.outbox2@) == owned_parcels(
                    mid.outbox2@,
                ).union_prefer_right(
                    parcels(mid.outbox@.restrict(ids@.take(i as int).to_set()), mid.buf@),
                ),
            decreases ids.len() - i,
        {
            let ghost before = self.outbox2@;
            let ghost done = ids@.take(i as int).to_set();
            let id: u32 = ids[i];
            assert(ids@.to_set().contains(id));
            let sent: Sent = *self.outbox.get(&id).unwrap();
            let bytes: Vec<u8> = vstd::slice::slice_to_vec(
                vstd::slice::slice_subrange(self.buf.as_slice(), sent.start, sent.end),
            );
            let ghost parcel = Parcel { at: sent.at, bytes: bytes@ };
            self.outbox2.insert(id, OwnedSent { at: sent.at, bytes });
            i += 1;
            proof {
                assert(ids@.take(i as int) =~= ids@.take(i - 1).push(id));
                ids@.take(i - 1).lemma_push_to_set_commute(id);
                let old_parcels = parcels(mid.outbox@.restrict(done), mid.buf@);
                let new_parcels = parcels(mid.outbox@.restrict(done.insert(id)), mid.buf@);
                assert(new_parcels =~= old_parcels.insert(id, parcel));
                assert(owned_parcels(self.outbox2@) =~= owned_parcels(before).insert(id, parcel));
                assert(owned_parcels(self.outbox2@) =~= owned_parcels(
                    mid.outbox2@,
                ).union_prefer_right(new_parcels));
            }
        }
        assert(ids@.take(ids@.len() as int) =~= ids@);
        assert(mid.outbox@.restrict(ids@.to_set()) =~= mid.outbox@);
        self.outbox.clear();
        self.buf_free_start = 0;
        assert(self@ =~= old(self)@.vacated());
        proof {
            old(self)@.lemma_vacated_wf();
        }
    }

    /// Makes room for another message.
    fn make_room(&mut self)
        requires
            old(self).wf(),
        ensures
            final(self)@ == old(self)@.with_room(),
            final(self).wf(),
            final(self).socket == old(self).socket,
    {
        if self.buf_cant_take_another() {
            self.vacate_buffer();
        }
    }

    /// Whether `span` lies in the buffer.
    pub closed spec fn holds(&self, span: Span) -> bool {
        span.start <= span.end <= self.buf@.len()
    }

    /// What the buffer holds at `span`.
    pub closed spec fn at(&self, span: Span) -> Seq<u8> {
        self.buf@.subrange(span.start as int, span.end as int)
    }

    /// The bytes of the buffer at `span`.
    pub fn lent(&self, span: Span) -> (r: &[u8])
        requires
            self.holds(span),
        ensures
            r@ == self.at(span),
    {
        vstd::slice::slice_subrange(self.buf.as_slice(), span.start, span.end)
    }

    /// Takes in the datagram that makes up the first `bytes` bytes of the unused
    /// part of the buffer. Returns where the payload lies, if it is to be handed
    /// out.
    pub fn take_in(&mut self, bytes: usize) -> (r: Option<Span>)
        requires
            old(self).wf(),
            HEADER_BYTES <= bytes <= old(self).unused().len(),
        ensures
            final(self).wf(),
            final(self).socket() == old(self).socket(),
            ({
                let (t, handed_out) = old(self)@.takes_in(old(self).unused().take(bytes as int));
                &&& final(self)@ == t
                &&& match r {
                    Some(span) => final(self).holds(span) && handed_out == Some(
                        final(self).at(span),
                    ),
                    None => handed_out is None,
                }
            }),
    {
        let ghost d = self.unused().take(bytes as int);
        let start: usize = self.buf_free_start;
        let end: usize = start + bytes - HEADER_BYTES;
        proof {
            old(self)@.lemma_takes_in_wf(d);
            assert(self.buf@.subrange(end as int, self.buf@.len() as int).take(17) =~= d.skip(
                d.len() - HEADER_BYTES,
            ));
            assert(self.buf@.subrange(start as int, end as int) =~= payload_of(d));
        }
        let h: Header = match Header::read_from(
            vstd::slice::slice_subrange(self.buf.as_slice(), end, start + bytes),
        ) {
            Ok(h) => h,
            Err(_) => {
                return None;
            },
        };
        assert(h == header_of(d)) by {
            assert(self.buf@.subrange(end as int, start + bytes) =~= d.skip(
                d.len() - HEADER_BYTES,
            ));
        }
        if self.peer_acked < h.ack {
            self.peer_acked = h.ack;
        }
        if self.largest_set_id_yielded.abs_difference(h.set_id) > self.window_size {
            return None;
        }
        if self.known_duplicate(&h) {
            return None;
        }
        let span = Span { start, end };
        self.buf_free_start = end;
        if h.id.special() {
            Some(span)
        } else if h.set_id < self.largest_set_id_yielded {
            None
        } else if h.wait_until > self.n {
            let ghost before = self.inbox@;
            self.inbox.insert(h.id.value, Message { h, start, end });
            assert(letters(self.inbox@, self.buf@) =~= letters(before, self.buf@).insert(
                h.id.value,
                Letter { h, payload: payload_of(d) },
            ));
            None
        } else {
            self.pre_yield(h.set_id, h.id, h.del);
            Some(span)
        }
    }

    /// Writes over the unused part of the buffer do not show.
    proof fn lemma_unused_is_free(self, other: Endpoint<U>)
        requires
            self.wf(),
            other == (Endpoint { buf: other.buf, socket: other.socket, ..self }),
            other.buf@.len() == self.buf@.len(),
            other.buf@.take(self.buf_free_start as int) == self.buf@.take(
                self.buf_free_start as int,
            ),
        ensures
            other@ == self@,
            other.wf(),
    {
        lemma_letters_prefix(self.inbox@, self.buf@, other.buf@, self.buf_free_start as int);
        lemma_parcels_prefix(self.outbox@, self.buf@, other.buf@, self.buf_free_start as int);
    }

    /// Asks the socket for a datagram, into the unused part of the buffer.
    fn ask_socket(&mut self) -> (r: Result<usize, Error>)
        requires
            old(self).wf(),
        ensures
            final(self).wf(),
            final(self)@ == old(self)@,
            final(self).unused().len() == old(self).unused().len(),
            old(self).socket.receives(
                &final(self).socket,
                old(self).unused(),
                final(self).unused(),
                r,
            ),
    {
        let ghost mut filled: Seq<u8> = seq![];
        let r = {
            let (_, unused) = self.buf.as_mut_slice().split_at_mut(self.buf_free_start);
            let r = self.socket.recv(unused);
            proof {
                filled = unused@;
            }
            r
        };
        proof {
            let free = self.buf_free_start as int;
            assert(self.buf@.take(free) =~= old(self).buf@.take(free));
            assert(old(self).unused() =~= old(self).buf@.subrange(
                free,
                old(self).buf@.len() as int,
            ));
            assert(self.unused() =~= filled);
            old(self).lemma_unused_is_free(*self);
        }
        r
    }

    /// Returns the payload of a message that may be handed out: of one that
    /// waits, or else of the first that the socket delivers.
    pub fn recv(&mut self) -> (r: Result<&[u8], Error>)
        requires
            old(self).wf(),
        ensures
            final(self).wf(),
            receives(old(self)@, old(self).socket(), final(self)@, final(self).socket(), viewed(r)),
    {
        // First, what waits in the buffer.
        if let Some(id) = self.ready_from_inbox() {
            let ghost s = old(self)@;
            let msg: Message = self.inbox.remove(&id).unwrap();
            assert(letters(self.inbox@, self.buf@) =~= s.inbox.remove(id));
            assert(self@ =~= State { inbox: s.inbox.remove(id), ..s });
            let span = Span { start: msg.start, end: msg.end };
            if self.inbox.is_empty() && self.outbox.is_empty() {
                self.vacate_buffer();
            }
            proof {
                assert(s.inbox.remove(id).is_empty() <==> old(self).inbox@.remove(id).is_empty());
                assert(s.outbox.is_empty() <==> old(self).outbox@.is_empty());
                s.lemma_yields_inline_wf(id);
            }
            assert(self@ == s.taken_out(id));
            self.pre_yield(msg.h.set_id, msg.h.id, msg.h.del);
            assert(is_ready(s.inbox, id, s.n));
            assert(hearing(s, self.socket, seq![], self@, self.socket, Ok(self.at(span))));
            return Ok(self.lent(span));
        }
        // What was lent out before is not needed any more.
        if let Some(id) = self.inbox2_to_remove {
            self.inbox2.remove(&id);
            self.inbox2_to_remove = None;
            assert(owned_letters(self.inbox2@) =~= old(self)@.inbox2.remove(id));
        }
        let ghost s = old(self)@.returned();
        proof {
            old(self)@.lemma_returned_wf();
            assert(self@ =~= s);
        }
        // Next, what waits outside of the buffer.
        if let Some(id) = self.ready_from_inbox2() {
            let h: Header = self.inbox2.get(&id).unwrap().h;
            self.pre_yield(h.set_id, h.id, h.del);
            self.inbox2_to_remove = Some(id);
            proof {
                s.lemma_yields_stored_wf(id);
                assert(self@ =~= s.yields_stored(id));
                assert(is_ready(s.inbox2, id, s.n));
                assert(hearing(
                    old(self)@,
                    self.socket,
                    seq![],
                    self@,
                    self.socket,
                    Ok(s.inbox2[id].payload),
                ));
            }
            return Ok(self.inbox2.get(&id).unwrap().payload.as_slice());
        }
        // Nothing is ready: receive until there is something to hand out.
        let ghost mut trace: Seq<Reception<U>> = seq![];
        let mut count: u64 = 0;
        while count < RECV_LIMIT
            invariant
                self.wf(),
                trace.len() == count,
                receptions(s, trace, old(self).socket, self.socket),
                hears_all(s, trace) == (self@, Verdict::Again),
                s == old(self)@.returned(),
                !some_ready(old(self)@.inbox, old(self)@.n),
                !some_ready(s.inbox2, old(self)@.n),
                0 < count ==> hears_all(s, trace.drop_last()).1 is Again,
            decreases RECV_LIMIT - count,
        {
            let ghost from = self.socket;
            self.make_room();
            let ghost before = self.unused();
            let reply = self.ask_socket();
            proof {
                let last = Reception {
                    from,
                    to: self.socket,
                    before,
                    filled: self.unused(),
                    reply,
                };
                let longer = trace.push(last);
                assert(longer.drop_last() =~= trace);
                trace = longer;
            }
            match reply {
                Ok(bytes) => {
                    let room: usize = self.buf.len() - self.buf_free_start;
                    if bytes < HEADER_BYTES || bytes - HEADER_BYTES > room {
                        let r: Result<&[u8], Error> = Err(Error::BadDatagram(bytes));
                        assert(hearing(
                            old(self)@,
                            old(self).socket,
                            trace,
                            self@,
                            self.socket,
                            viewed(r),
                        ));
                        return r;
                    }
                    if bytes > room {
                        let r: Result<&[u8], Error> = Err(Error::UnexpectedEof);
                        assert(hearing(
                            old(self)@,
                            old(self).socket,
                            trace,
                            self@,
                            self.socket,
                            viewed(r),
                        ));
                        return r;
                    }
                    if let Some(span) = self.take_in(bytes) {
                        assert(hearing(
                            old(self)@,
                            old(self).socket,
                            trace,
                            self@,
                            self.socket,
                            Ok(self.at(span)),
                        ));
                        return Ok(self.lent(span));
                    }
                },
                Err(e) => {
                    let r: Result<&[u8], Error> = Err(e);
                    assert(hearing(
                            old(self)@,
                            old(self).socket,
                            trace,
                            self@,
                            self.socket,
                            viewed(r),
                        ));
                    return r;
                },
            }
            count += 1;
        }
        let r: Result<&[u8], Error> = Err(Error::Interrupted);
        assert(hearing(
                            old(self)@,
                            old(self).socket,
                            trace,
                            self@,
                            self.socket,
                            viewed(r),
                        ));
        r
    }

    /// Hands a message to the socket, and keeps it for resending if its header
    /// promises delivery. Returns the length of the datagram.
    pub(crate) fn post(&mut self, header: Header, payload: &[u8]) -> (r: Result<usize, Error>)
        requires
            old(self).wf(),
            header.del ==> header.id.ordinary(),
        ensures
            final(self).wf(),
            posts(
                old(self)@,
                old(self).socket(),
                header,
                payload@,
                final(self)@,
                final(self).socket(),
                r,
            ),
    {
        self.make_room();
        let ghost room = *self;
        let start: usize = self.buf_free_start;
        let ghost bytes = datagram(header, payload@);
        proof {
            law_header_round_trip(header, seq![]);
        }
        let (len, put) = {
            let (_, unused) = self.buf.as_mut_slice().split_at_mut(start);
            let len: usize = copy_into(unused, payload);
            let (_, rest) = unused.split_at_mut(len);
            let put = header.write_to(rest);
            (len, put)
        };
        proof {
            assert(self.buf@.take(start as int) =~= room.buf@.take(start as int));
            room.lemma_unused_is_free(*self);
        }
        if let Err(e) = put {
            return Err(e);
        }
        let end: usize = start + len + HEADER_BYTES;
        assert(self.buf@.subrange(start as int, end as int) =~= bytes);
        let msg: &[u8] = vstd::slice::slice_subrange(self.buf.as_slice(), start, end);
        let reply = self.socket.send(msg);
        assert(room.socket.sends(&self.socket, bytes, reply));
        if let Err(e) = reply {
            return Err(e);
        }
        if header.del {
            let at = Instant::now();
            let ghost before = self.outbox@;
            self.outbox.insert(header.id.value, Sent { at, start, end });
            self.buf_free_start = end;
            assert(parcels(self.outbox@, self.buf@) =~= parcels(before, self.buf@).insert(
                header.id.value,
                Parcel { at, bytes },
            ));
            assert(self@ =~= room@.keeps(header.id, at, bytes));
        }
        Ok(len + HEADER_BYTES)
    }

    /// Accounts for a set that started with `set_id` and has `count` messages
    /// with sequence numbers, `ord_count` of them without a promise of delivery.
    pub(crate) fn end_set(&mut self, set_id: ModOrd, count: u32, ord_count: u32)
        requires
            old(self).wf(),
            set_id.ordinary(),
        ensures
            final(self).wf(),
            final(self).socket() == old(self).socket(),
            final(self)@ == old(self)@.after_set(set_id, count, ord_count),
    {
        if count == 0 {
            // no need to use up a sequence number
            return;
        }
        self.next_id = set_id.new_plus(count);
        if ord_count < count {
            self.wait_until = self.next_id.new_minus(ord_count);
        }
    }

    /// What the messages of the next set wait for.
    pub(crate) fn awaited(&self) -> (r: ModOrd)
        ensures
            r == self@.wait_until,
    {
        self.wait_until
    }

    /// The last sequence number yielded.
    pub(crate) fn last_yielded(&self) -> (r: ModOrd)
        ensures
            r == self@.max_yielded,
    {
        self.max_yielded
    }

    /// Looks at the kept datagram `id`, which has the given age: sends it again
    /// if it is stale.
    fn revisit(&mut self, inline: bool, id: u32, age: Age, now: Instant) -> (r: Result<
        (),
        Error,
    >)
        requires
            old(self).wf(),
            old(self)@.kept(inline).contains_key(id),
            age.since() == old(self)@.kept(inline)[id].at,
        ensures
            final(self).wf(),
            final(self).unused() == old(self).unused(),
            exists|reply: Result<usize, Error>|
                ({
                    let v = #[trigger] old(self).visit(inline, id, age, *final(self), reply);
                    &&& visits(old(self)@, v)
                    &&& final(self)@ == after_visit(old(self)@, v, now)
                    &&& match r {
                        Ok(()) => !visit_fails(old(self)@, v),
                        Err(e) => visit_fails(old(self)@, v) && reply == Err::<usize, Error>(e),
                    }
                }),
    {
        if !Self::too_stale_func((ModOrd { value: id }).abs_difference(self.n), age.as_nanos()) {
            assert(old(self).visit(inline, id, age, *self, Ok(0)).to == old(self).socket);
            return Ok(());
        }
        let reply = if inline {
            let sent: Sent = *self.outbox.get(&id).unwrap();
            self.socket.send(
                vstd::slice::slice_subrange(self.buf.as_slice(), sent.start, sent.end),
            )
        } else {
            self.socket.send(self.outbox2.get(&id).unwrap().bytes.as_slice())
        };
        let ghost v = old(self).visit(inline, id, age, *self, reply);
        if let Err(e) = reply {
            return Err(e);
        }
        if inline {
            let sent: Sent = *self.outbox.get(&id).unwrap();
            self.outbox.insert(id, Sent { at: now, start: sent.start, end: sent.end });
            assert(parcels(self.outbox@, self.buf@) =~= old(self)@.stamps(true, id, now).outbox);
        } else {
            let sent: OwnedSent = self.outbox2.remove(&id).unwrap();
            self.outbox2.insert(id, OwnedSent { at: now, bytes: sent.bytes });
            assert(owned_parcels(self.outbox2@) =~= old(self)@.stamps(false, id, now).outbox2);
        }
        assert(self@ =~= old(self)@.stamps(inline, id, now));
        assert(v == old(self).visit(inline, id, age, *self, reply));
        Ok(())
    }

    /// The record of looking at a datagram.
    spec fn visit(
        self,
        inline: bool,
        id: u32,
        age: Age,
        after: Self,
        reply: Result<usize, Error>,
    ) -> Visit<U> {
        Visit { inline, id, age, from: self.socket, to: after.socket, reply }
    }

    /// Looks at the datagrams in the buffer, or at those outside of it.
    fn sweep(&mut self, inline: bool, now: Instant) -> (r: Result<(), Error>)
        requires
            old(self).wf(),
        ensures
            final(self).wf(),
            final(self).unused() == old(self).unused(),
            exists|trace: Seq<Visit<U>>|
                sweeps(
                    old(self)@,
                    old(self).socket,
                    inline,
                    trace,
                    now,
                    final(self)@,
                    final(self).socket,
                    r,
                ),
    {
        let ghost s = self@;
        let ids = if inline {
            keys_of(&self.outbox)
        } else {
            keys_of(&self.outbox2)
        };
        assert(ids@.to_set() =~= s.kept(inline).dom());
        let ghost mut trace: Seq<Visit<U>> = seq![];
        let mut i: usize = 0;
        while i < ids.len()
            invariant
                i <= ids@.len(),
                i == trace.len(),
                s == old(self)@,
                self.wf(),
                self.unused() == old(self).unused(),
                ids@.no_duplicates(),
                ids@.to_set() == s.kept(inline).dom(),
                visits_all(s, old(self).socket, trace, now, self.socket),
                none_fails(s, trace),
                self@ == after_visits(s, trace, now),
                forall|k: int|
                    0 <= k < trace.len() ==> (#[trigger] trace[k]).inline == inline && trace[k].id
                        == ids@[k],
            decreases ids.len() - i,
        {
            let ghost before = *self;
            let id: u32 = ids[i];
            proof {
                lemma_after_visits(s, old(self).socket, trace, now, self.socket);
                assert(ids@.to_set().contains(id));
                assert(self@.kept(inline).dom() == s.kept(inline).dom());
                assert(self@.kept(inline).contains_key(id));
            }
            let age: Age = if inline {
                age_of(&self.outbox.get(&id).unwrap().at)
            } else {
                age_of(&self.outbox2.get(&id).unwrap().at)
            };
            let r = self.revisit(inline, id, age, now);
            proof {
                let reply = choose|reply: Result<usize, Error>|
                    ({
                        let v = #[trigger] before.visit(inline, id, age, *self, reply);
                        &&& visits(before@, v)
                        &&& self@ == after_visit(before@, v, now)
                        &&& match r {
                            Ok(()) => !visit_fails(before@, v),
                            Err(e) => visit_fails(before@, v) && reply == Err::<usize, Error>(e),
                        }
                    });
                let v = before.visit(inline, id, age, *self, reply);
                assert(trace.push(v).drop_last() =~= trace);
                trace = trace.push(v);
                assert(visit_fails(s, v) == visit_fails(before@, v));
                assert(visits_differ(trace));
            }
            if let Err(e) = r {
                assert(sweeps(
                    s,
                    old(self).socket,
                    inline,
                    trace,
                    now,
                    self@,
                    self.socket,
                    Err::<(), Error>(e),
                ));
                return Err(e);
            }
            i += 1;
        }
        proof {
            assert forall|id: u32| #[trigger] s.kept(inline).contains_key(id) implies visited(
                trace,
                inline,
                id,
            ) by {
                assert(ids@.to_set().contains(id));
                let k = choose|k: int| 0 <= k < ids@.len() && ids@[k] == id;
                assert(trace[k].id == id);
            }
            assert(sweeps(
                s,
                old(self).socket,
                inline,
                trace,
                now,
                self@,
                self.socket,
                Ok::<(), Error>(()),
            ));
        }
        Ok(())
    }

    /// Sends again what the peer has not acknowledged for too long.
    pub fn resend_lost(&mut self) -> (r: Result<(), Error>)
        requires
            old(self).wf(),
        ensures
            final(self).wf(),
            final(self).unused() == old(self).unused(),
            exists|trace: Seq<Visit<U>>, now: Instant| #[trigger]
                resends(
                    old(self)@,
                    old(self).socket(),
                    trace,
                    now,
                    final(self)@,
                    final(self).socket(),
                    r,
                ),
    {
        let acked = self.peer_acked;
        retain_after(&mut self.outbox, acked);
        retain_after(&mut self.outbox2, acked);
        let now = Instant::now();
        let ghost kept = *self;
        proof {
            let t = old(self)@.forgets_acked();
            assert(parcels(self.outbox@, self.buf@) =~= t.outbox);
            assert(owned_parcels(self.outbox2@) =~= t.outbox2);
            assert(self@ =~= t);
        }
        let first_r = self.sweep(true, now);
        let ghost first = choose|trace: Seq<Visit<U>>|
            sweeps(kept@, kept.socket, true, trace, now, self@, self.socket, first_r);
        if let Err(e) = first_r {
            assert(resends(
                old(self)@,
                old(self).socket(),
                first,
                now,
                self@,
                self.socket(),
                Err::<(), Error>(e),
            ));
            return Err(e);
        }
        let ghost mid = *self;
        let r = self.sweep(false, now);
        proof {
            let second = choose|trace: Seq<Visit<U>>|
                sweeps(mid@, mid.socket, false, trace, now, self@, self.socket, r);
            lemma_sweeps_resend(
                old(self)@,
                kept.socket,
                first,
                mid@,
                mid.socket,
                second,
                now,
                self@,
                self.socket,
                r,
            );
            assert(resends(
                old(self)@,
                old(self).socket(),
                first + second,
                now,
                self@,
                self.socket(),
                r,
            ));
        }
        r
    }

    /// Begins a set of messages.
    pub fn get_set(&mut self) -> (r: SetSender<'_, U>)
        requires
            old(self).wf(),
        ensures
            r.begins_on(*old(self)),
            *final(r.endpoint()) == *final(self),
    {
        let set_id = self.next_id;
        SetSender::new(self, set_id)
    }

    /// Lets `work` send a set of messages.
    pub fn as_set<F, R>(&mut self, work: F) -> (r: R) where F: FnOnce(SetSender<'_, U>) -> R
        requires
            old(self).wf(),
            forall|s: SetSender<'_, U>|
                s.begins_on(*old(self)) ==> #[trigger] call_requires(work, (s,)),
        ensures
            exists|s: SetSender<'_, U>|
                {
                    &&& s.begins_on(*old(self))
                    &&& #[trigger] call_ensures(work, (s,), r)
                    &&& *final(s.endpoint()) == *final(self)
                },
    {
        work(self.get_set())
    }

    /// Sends a message that is a set of its own.
    pub fn send(&mut self, guarantee: Guarantee, payload: &[u8]) -> (r: Result<usize, Error>)
        requires
            old(self).wf(),
        ensures
            final(self).wf(),
            posts_in_set(
                old(self)@,
                old(self).socket(),
                old(self)@.next_id,
                old(self)@.wait_until,
                0,
                0,
                guarantee,
                payload@,
                final(self)@,
                final(self).socket(),
                r,
            ),
    {
        let mut set = self.get_set();
        let r = set.send(guarantee, payload);
        proof {
            set.lemma_done();
        }
        r
    }
}

/// Removes the entries up to `acked`.
fn retain_after<V>(m: &mut HashMap<u32, V>, acked: ModOrd)
    ensures
        final(m)@ == old(m)@.restrict(Set::new(|id: u32| acked.before(ModOrd { value: id }))),
{
    let ids = keys_of(m);
    let mut i: usize = 0;
    while i < ids.len()
        invariant
            i <= ids@.len(),
            ids@.to_set() == old(m)@.dom(),
            forall|id: u32| #[trigger]
                m@.contains_key(id) <==> {
                    &&& old(m)@.contains_key(id)
                    &&& ids@.take(i as int).contains(id) ==> acked.before(ModOrd { value: id })
                },
            forall|id: u32| #[trigger] m@.contains_key(id) ==> m@[id] == old(m)@[id],
        decreases ids.len() - i,
    {
        let id: u32 = ids[i];
        if !(ModOrd { value: id } > acked) {
            m.remove(&id);
        }
        i += 1;
        assert(ids@.take(i as int) =~= ids@.take(i - 1).push(id));
        assert forall|x: u32| #[trigger] ids@.take(i as int).contains(x) <==> ids@.take(
            i - 1,
        ).contains(x) || x == id by {
            ids@.take(i - 1).lemma_push_to_set_commute(id);
            assert(ids@.take(i as int).contains(x) <==> ids@.take(i as int).to_set().contains(x));
        }
    }
    assert(ids@.take(ids@.len() as int) =~= ids@);
    assert forall|id: u32| old(m)@.contains_key(id) implies ids@.contains(id) by {
        assert(ids@.to_set().contains(id));
    }
    assert(m@ =~= old(m)@.restrict(Set::new(|id: u32| acked.before(ModOrd { value: id }))));
}

/// A result, with the bytes that it borrows taken by their contents.
pub open spec fn viewed(r: Result<&[u8], Error>) -> Result<Seq<u8>, Error> {
    match r {
        Ok(bytes) => Ok(bytes@),
        Err(e) => Err(e),
    }
}

/// Where in the buffer of an endpoint some bytes lie.
#[derive(Clone, Copy, Debug)]
pub struct Span {
    start: usize,
    end: usize,
}

/// What lies in the used part of the buffer does not depend on the rest of it.
proof fn lemma_letters_prefix(m: Map<u32, Message>, a: Seq<u8>, b: Seq<u8>, free: int)
    requires
        0 <= free <= a.len(),
        a.len() == b.len(),
        a.take(free) == b.take(free),
        forall|id: u32| #[trigger] m.contains_key(id) ==> m[id].start <= m[id].end <= free,
    ensures
        letters(m, a) == letters(m, b),
{
    assert forall|id: u32| #[trigger] m.contains_key(id) implies a.subrange(
        m[id].start as int,
        m[id].end as int,
    ) == b.subrange(m[id].start as int, m[id].end as int) by {
        assert(a.subrange(m[id].start as int, m[id].end as int) =~= a.take(free).subrange(
            m[id].start as int,
            m[id].end as int,
        ));
        assert(b.subrange(m[id].start as int, m[id].end as int) =~= b.take(free).subrange(
            m[id].start as int,
            m[id].end as int,
        ));
    }
    assert(letters(m, a) =~= letters(m, b));
}

/// What lies in the used part of the buffer does not depend on the rest of it.
proof fn lemma_parcels_prefix(m: Map<u32, Sent>, a: Seq<u8>, b: Seq<u8>, free: int)
    requires
        0 <= free <= a.len(),
        a.len() == b.len(),
        a.take(free) == b.take(free),
        forall|id: u32| #[trigger] m.contains_key(id) ==> m[id].start <= m[id].end <= free,
    ensures
        parcels(m, a) == parcels(m, b),
{
    assert forall|id: u32| #[trigger] m.contains_key(id) implies a.subrange(
        m[id].start as int,
        m[id].end as int,
    ) == b.subrange(m[id].start as int, m[id].end as int) by {
        assert(a.subrange(m[id].start as int, m[id].end as int) =~= a.take(free).subrange(
            m[id].start as int,
            m[id].end as int,
        ));
        assert(b.subrange(m[id].start as int, m[id].end as int) =~= b.take(free).subrange(
            m[id].start as int,
            m[id].end as int,
        ));
    }
    assert(parcels(m, a) =~= parcels(m, b));
}

/// A result with the bytes that it borrows taken by their contents says the same.
pub proof fn law_viewed_says_the_same(r: Result<&[u8], Error>)
    ensures
        r matches Ok(bytes) ==> viewed(r) == Ok::<Seq<u8>, Error>(bytes@),
        r matches Err(e) ==> viewed(r) == Err::<Seq<u8>, Error>(e),
{
}

} // verus!
