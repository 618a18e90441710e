//! Sending messages in sets.

use crate::config::Guarantee;
use crate::endpoint::Endpoint;
use crate::error::Error;
use crate::header::Header;
use crate::mod_ord::ModOrd;
use crate::state::{counted, lemma_posts_keeps_numbering, ord_counted, posts_in_set, set_header};
use crate::udp::UdpLike;
use vstd::prelude::*;

verus! {

/// Sends the messages of one set. After each message the endpoint is left as if
/// the set ended with it, so that there is nothing to do at the end.
#[derive(Debug)]
pub struct SetSender<'a, U: UdpLike> {
    endpoint: &'a mut Endpoint<U>,
    set_id: ModOrd,
    wait_until: ModOrd,
    count: u32,
    ord_count: u32,
}

impl<'a, U: UdpLike> SetSender<'a, U> {
    /// The borrowed endpoint.
    pub closed spec fn endpoint(self) -> &'a mut Endpoint<U> {
        self.endpoint
    }

    /// The sequence number that the set starts with.
    pub closed spec fn set_id(self) -> ModOrd {
        self.set_id
    }

    /// What the messages of the set wait for.
    pub closed spec fn wait_until(self) -> ModOrd {
        self.wait_until
    }

    /// How many messages with sequence numbers were sent.
    pub closed spec fn count(self) -> u32 {
        self.count
    }

    /// How many of them do not promise delivery.
    pub closed spec fn ord_count(self) -> u32 {
        self.ord_count
    }

    /// What holds of a set between any two calls: the endpoint goes on counting
    /// behind the messages that were sent.
    pub open spec fn wf(self) -> bool {
        &&& self.endpoint().wf()
        &&& self.set_id().ordinary()
        &&& self.wait_until().ordinary()
        &&& self.ord_count() <= self.count()
        &&& self.endpoint()@.next_id == self.set_id().plus(self.count() as int)
        &&& self.endpoint()@.wait_until == if self.ord_count() < self.count() {
            self.endpoint()@.next_id.plus(-(self.ord_count() as int))
        } else {
            self.wait_until()
        }
    }

    /// Whether the set has just begun on `endpoint`.
    pub open spec fn begins_on(self, endpoint: Endpoint<U>) -> bool {
        &&& self.wf()
        &&& *self.endpoint() == endpoint
        &&& self.set_id() == endpoint@.next_id
        &&& self.wait_until() == endpoint@.wait_until
        &&& self.count() == 0
        &&& self.ord_count() == 0
    }

    /// A set that is done with has left the endpoint as it last was.
    pub proof fn lemma_done(self)
        requires
            has_resolved(self),
        ensures
            *final(self.endpoint()) == *self.endpoint(),
    {
    }

    /// Begins a set with the sequence number `set_id`.
    pub(crate) fn new(endpoint: &'a mut Endpoint<U>, set_id: ModOrd) -> (r: SetSender<'a, U>)
        requires
            endpoint.wf(),
            set_id == endpoint@.next_id,
        ensures
            r.begins_on(*old(endpoint)),
            *final(r.endpoint()) == *final(endpoint),
    {
        let wait_until = endpoint.awaited();
        SetSender { endpoint, set_id, wait_until, count: 0, ord_count: 0 }
    }

    /// Sends a message with the given guarantee. Returns the length of the
    /// datagram.
    pub fn send(&mut self, guarantee: Guarantee, payload: &[u8]) -> (r: Result<usize, Error>)
        requires
            old(self).wf(),
            guarantee != Guarantee::Nothing ==> old(self).count() < u32::MAX,
        ensures
            final(self).wf(),
            *final(final(self).endpoint()) == *final(old(self).endpoint()),
            final(self).set_id() == old(self).set_id(),
            final(self).wait_until() == old(self).wait_until(),
            final(self).count() == counted(old(self).count(), guarantee, r is Ok),
            final(self).ord_count() == ord_counted(old(self).ord_count(), guarantee, r is Ok),
            // Every message with a number counts, and every one without a promise of
            // delivery counts as such.
            final(self).count() == old(self).count() + if r is Ok && guarantee
                != Guarantee::Nothing {
                1int
            } else {
                0int
            },
            final(self).ord_count() == old(self).ord_count() + if r is Ok && guarantee
                == Guarantee::Order {
                1int
            } else {
                0int
            },
            posts_in_set(
                old(self).endpoint()@,
                old(self).endpoint().socket(),
                old(self).set_id(),
                old(self).wait_until(),
                old(self).count(),
                old(self).ord_count(),
                guarantee,
                payload@,
                final(self).endpoint()@,
                final(self).endpoint().socket(),
                r,
            ),
    {
        let id = if guarantee == Guarantee::Nothing {
            ModOrd::unnumbered()
        } else {
            self.set_id.new_plus(self.count)
        };
        let header = Header {
            ack: self.endpoint.last_yielded(),
            set_id: self.set_id,
            id,
            wait_until: self.wait_until,
            del: guarantee == Guarantee::Delivery,
        };
        let r = self.endpoint.post(header, payload);
        let ghost posted = self.endpoint@;
        proof {
            assert(header == set_header(
                old(self).endpoint@,
                self.set_id,
                self.wait_until,
                self.count,
                guarantee,
            ));
            lemma_posts_keeps_numbering(
                old(self).endpoint@,
                old(self).endpoint.socket(),
                header,
                payload@,
                posted,
                self.endpoint.socket(),
                r,
            );
        }
        if let Err(e) = r {
            return Err(e);
        }
        if guarantee != Guarantee::Nothing {
            self.count += 1;
            if guarantee != Guarantee::Delivery {
                self.ord_count += 1;
            }
            self.endpoint.end_set(self.set_id, self.count, self.ord_count);
        }
        r
    }
}

/// A set begins where the numbering of its endpoint stands, waits for what the endpoint
/// says, and has no messages yet.
pub proof fn law_set_begins_where_the_numbering_stands<'a, U: UdpLike>(
    set: SetSender<'a, U>,
    endpoint: Endpoint<U>,
)
    requires
        set.begins_on(endpoint),
    ensures
        set.set_id() == endpoint@.next_id,
        set.wait_until() == endpoint@.wait_until,
        set.count() == 0,
        set.ord_count() == 0,
        *set.endpoint() == endpoint,
        endpoint.wf(),
{
}

} // verus!
