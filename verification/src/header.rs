//! The header that every datagram ends with.

use crate::error::Error;
use crate::mod_ord::ModOrd;
use crate::wire::{lemma_be_round_trip, overwritten, read_u8, write_u8};
use vstd::prelude::*;

verus! {

/// What travels with a payload. Two headers are `==` if they are of the same
/// message, that is, if their `id` is the same.
#[derive(Clone, Copy, Debug)]
pub struct Header {
    /// The sequence number of the message, or the mark that it has none.
    pub id: ModOrd,
    /// The first sequence number of the set that the message belongs to.
    pub set_id: ModOrd,
    /// The last sequence number that the sender has yielded.
    pub ack: ModOrd,
    /// The message is held back until the receiver has counted up to here.
    pub wait_until: ModOrd,
    /// Whether the sender promised to deliver the message.
    pub del: bool,
}

/// The length of an encoded header.
pub const HEADER_BYTES: usize = 17;

impl Header {
    /// The length of an encoded header.
    pub const BYTES: usize = HEADER_BYTES;

    /// The bytes that stand for the header.
    pub open spec fn encoded(self) -> Seq<u8> {
        self.ack.encoded() + self.id.encoded() + self.set_id.encoded() + self.wait_until.encoded()
            + seq![if self.del { 1u8 } else { 0u8 }]
    }

    /// The header that the first bytes of `s` stand for.
    pub open spec fn decoded(s: Seq<u8>) -> Header {
        Header {
            ack: ModOrd::decoded(s),
            id: ModOrd::decoded(s.skip(4)),
            set_id: ModOrd::decoded(s.skip(8)),
            wait_until: ModOrd::decoded(s.skip(12)),
            del: s[16] == 1,
        }
    }

    /// Writes the header to the start of `w`. This fails exactly if it does not
    /// fit.
    pub fn write_to(&self, w: &mut [u8]) -> (r: Result<(), Error>)
        ensures
            old(w)@.len() >= HEADER_BYTES ==> r is Ok && final(w)@ == overwritten(
                old(w)@,
                self.encoded(),
            ),
            old(w)@.len() < HEADER_BYTES ==> r == Err::<(), Error>(Error::WriteZero),
            final(w)@.len() == old(w)@.len(),
    {
        let ghost all = w@;
        self.ack.write_to(w)?;
        let (_, w) = w.split_at_mut(4);
        self.id.write_to(w)?;
        let (_, w) = w.split_at_mut(4);
        self.set_id.write_to(w)?;
        let (_, w) = w.split_at_mut(4);
        self.wait_until.write_to(w)?;
        let (_, w) = w.split_at_mut(4);
        let flag: u8 = if self.del { 0x01 } else { 0x00 };
        match write_u8(w, flag) {
            Ok(()) => Ok(()),
            Err(_) => Err(Error::WriteZero),
        }
    }

    /// Reads a header from the start of `r`. This fails exactly if `r` is
    /// shorter than a header.
    pub fn read_from(r: &[u8]) -> (h: Result<Header, Error>)
        ensures
            r@.len() >= HEADER_BYTES ==> h == Ok::<Header, Error>(Header::decoded(r@)),
            r@.len() < HEADER_BYTES ==> h == Err::<Header, Error>(Error::UnexpectedEof),
    {
        let ack = ModOrd::read_from(r)?;
        let (_, r) = r.split_at(4);
        let id = ModOrd::read_from(r)?;
        let (_, r) = r.split_at(4);
        let set_id = ModOrd::read_from(r)?;
        let (_, r) = r.split_at(4);
        let wait_until = ModOrd::read_from(r)?;
        let (_, r) = r.split_at(4);
        match read_u8(r) {
            Ok(flag) => Ok(Header { id, set_id, ack, wait_until, del: flag == 0x01 }),
            Err(_) => Err(Error::UnexpectedEof),
        }
    }
}

impl PartialEq for Header {
    fn eq(&self, other: &Header) -> (r: bool) {
        self.id == other.id
    }
}

impl vstd::std_specs::cmp::PartialEqSpecImpl for Header {
    open spec fn obeys_eq_spec() -> bool {
        true
    }

    open spec fn eq_spec(&self, other: &Header) -> bool {
        self.id == other.id
    }
}

/// A header is read back as it was written.
pub proof fn law_header_round_trip(h: Header, rest: Seq<u8>)
    ensures
        h.encoded().len() == HEADER_BYTES,
        Header::decoded(h.encoded() + rest) == h,
{
    let s = h.encoded() + rest;
    let flag = seq![if h.del { 1u8 } else { 0u8 }];
    h.ack.lemma_round_trip(h.id.encoded() + h.set_id.encoded() + h.wait_until.encoded() + flag + rest);
    h.id.lemma_round_trip(h.set_id.encoded() + h.wait_until.encoded() + flag + rest);
    h.set_id.lemma_round_trip(h.wait_until.encoded() + flag + rest);
    h.wait_until.lemma_round_trip(flag + rest);
    assert(s =~= h.ack.encoded() + (h.id.encoded() + h.set_id.encoded() + h.wait_until.encoded()
        + flag + rest));
    assert(s.skip(4) =~= h.id.encoded() + (h.set_id.encoded() + h.wait_until.encoded() + flag
        + rest));
    assert(s.skip(8) =~= h.set_id.encoded() + (h.wait_until.encoded() + flag + rest));
    assert(s.skip(12) =~= h.wait_until.encoded() + (flag + rest));
}

/// How a header is laid out: four numbers of four bytes each, the most significant one
/// first, and one byte that is 1 for a promise of delivery and 0 otherwise.
pub proof fn law_header_layout(h: Header, rest: Seq<u8>)
    ensures
        ({
            let s = h.encoded();
            &&& s.len() == 17
            &&& number_at(s, 0) == h.ack.value
            &&& number_at(s, 4) == h.id.value
            &&& number_at(s, 8) == h.set_id.value
            &&& number_at(s, 12) == h.wait_until.value
            &&& s[16] == if h.del {
                1u8
            } else {
                0u8
            }
        }),
        rest.len() >= 17 ==> {
            let read = Header::decoded(rest);
            &&& read.ack.value == number_at(rest, 0)
            &&& read.id.value == number_at(rest, 4)
            &&& read.set_id.value == number_at(rest, 8)
            &&& read.wait_until.value == number_at(rest, 12)
            &&& read.del <==> rest[16] == 1
        },
{
    let s = h.encoded();
    lemma_be_round_trip(h.ack.value, seq![]);
    lemma_be_round_trip(h.id.value, seq![]);
    lemma_be_round_trip(h.set_id.value, seq![]);
    lemma_be_round_trip(h.wait_until.value, seq![]);
    assert(h.ack.encoded() + Seq::<u8>::empty() =~= h.ack.encoded());
    assert(h.id.encoded() + Seq::<u8>::empty() =~= h.id.encoded());
    assert(h.set_id.encoded() + Seq::<u8>::empty() =~= h.set_id.encoded());
    assert(h.wait_until.encoded() + Seq::<u8>::empty() =~= h.wait_until.encoded());
}

/// The number that the four bytes from `i` on spell, most significant first.
pub open spec fn number_at(s: Seq<u8>, i: int) -> int {
    ((s[i] * 256 + s[i + 1]) * 256 + s[i + 2]) * 256 + s[i + 3]
}

} // verus!
