//! Messages that wait to be handed out, and datagrams that wait to be
//! acknowledged. Each comes in two forms: one that lies in the buffer of the
//! endpoint, and one that owns its bytes.

use crate::header::Header;
use std::time::Instant;
use vstd::prelude::*;

verus! {

/// A message whose payload lies in the buffer, from `start` up to `end`.
#[derive(Clone, Copy, Debug)]
pub struct Message {
    pub h: Header,
    pub start: usize,
    pub end: usize,
}

/// A message that owns its payload.
#[derive(Debug)]
pub struct OwnedMessage {
    pub h: Header,
    pub payload: Vec<u8>,
}

/// A datagram that was last sent at `at` and lies in the buffer, from `start` up
/// to `end`.
#[derive(Clone, Copy, Debug)]
pub struct Sent {
    pub at: Instant,
    pub start: usize,
    pub end: usize,
}

/// A datagram that was last sent at `at` and owns its bytes.
#[derive(Debug)]
pub struct OwnedSent {
    pub at: Instant,
    pub bytes: Vec<u8>,
}

impl Clone for OwnedMessage {
    fn clone(&self) -> (r: OwnedMessage)
        ensures
            r.h == self.h,
            r.payload@ == self.payload@,
    {
        OwnedMessage { h: self.h, payload: vstd::slice::slice_to_vec(self.payload.as_slice()) }
    }
}

impl PartialEq for Message {
    fn eq(&self, other: &Message) -> (r: bool) {
        self.h == other.h
    }
}

impl vstd::std_specs::cmp::PartialEqSpecImpl for Message {
    open spec fn obeys_eq_spec() -> bool {
        true
    }

    open spec fn eq_spec(&self, other: &Message) -> bool {
        self.h.id == other.h.id
    }
}

impl PartialEq for OwnedMessage {
    fn eq(&self, other: &OwnedMessage) -> (r: bool) {
        self.h == other.h
    }
}

impl vstd::std_specs::cmp::PartialEqSpecImpl for OwnedMessage {
    open spec fn obeys_eq_spec() -> bool {
        true
    }

    open spec fn eq_spec(&self, other: &OwnedMessage) -> bool {
        self.h.id == other.h.id
    }
}

/// Messages and headers are told apart by their sequence numbers alone.
pub proof fn law_numbers_tell_messages_apart(a: Message, b: Message, c: OwnedMessage, d: OwnedMessage)
    ensures
        vstd::std_specs::cmp::PartialEqSpec::eq_spec(&a, &b) <==> a.h.id.value == b.h.id.value,
        vstd::std_specs::cmp::PartialEqSpec::eq_spec(&c, &d) <==> c.h.id.value == d.h.id.value,
        vstd::std_specs::cmp::PartialEqSpec::eq_spec(&a.h, &b.h) <==> a.h.id.value
            == b.h.id.value,
{
}

} // verus!
