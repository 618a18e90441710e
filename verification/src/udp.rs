//! Datagram sockets.

use crate::error::Error;
use crate::wire::{copy_into, overwritten};
use rand::{thread_rng, Rng};
use vstd::prelude::*;

verus! {

/// A datagram socket that is connected to one peer. The two spec functions say
/// what a call may do; a socket that does not define them promises nothing.
pub trait UdpLike: Sized {
    /// Whether a call of `send` on `self` with `bytes` may answer `reply` and
    /// leave the socket as `next`.
    open spec fn sends(&self, next: &Self, bytes: Seq<u8>, reply: Result<usize, Error>) -> bool {
        true
    }

    /// Whether a call of `recv` on `self` with a buffer that holds `before` may
    /// answer `reply`, leave the socket as `next` and the buffer as `after`.
    open spec fn receives(
        &self,
        next: &Self,
        before: Seq<u8>,
        after: Seq<u8>,
        reply: Result<usize, Error>,
    ) -> bool {
        true
    }

    /// Sends one datagram. Returns how many bytes were sent.
    fn send(&mut self, buf: &[u8]) -> (r: Result<usize, Error>)
        ensures
            old(self).sends(final(self), buf@, r),
    ;

    /// Receives one datagram into the start of `buf`. Returns its length.
    fn recv(&mut self, buf: &mut [u8]) -> (r: Result<usize, Error>)
        ensures
            old(self).receives(final(self), old(buf)@, final(buf)@, r),
            final(buf)@.len() == old(buf)@.len(),
    ;
}

/// Calls `gen_range` of rand on the generator of the thread. It is trusted that
/// the number is below `n`; which one it is, is chance. The call panics where
/// `n` is zero.
#[verifier::external_body]
fn random_below(n: usize) -> (i: usize)
    requires
        n > 0,
    ensures
        i < n,
{
    thread_rng().gen_range(0, n)
}

/// A socket that is connected to itself. It duplicates every datagram and
/// delivers in random order, but loses nothing.
#[derive(Debug)]
pub struct BadUdp {
    messages: Vec<Vec<u8>>,
}

impl View for BadUdp {
    type V = Seq<Seq<u8>>;

    /// The datagrams under way.
    closed spec fn view(&self) -> Seq<Seq<u8>> {
        self.messages@.map_values(|m: Vec<u8>| m@)
    }
}

impl BadUdp {
    /// A socket with no datagrams under way.
    pub fn new() -> (r: BadUdp)
        ensures
            r@ == Seq::<Seq<u8>>::empty(),
    {
        let r = BadUdp { messages: Vec::new() };
        assert(r@ =~= Seq::<Seq<u8>>::empty());
        r
    }

    /// Puts two copies of a datagram under way.
    pub fn send(&mut self, buf: &[u8]) -> (r: Result<usize, Error>)
        ensures
            r == Ok::<usize, Error>(buf@.len() as usize),
            final(self)@ == old(self)@.push(buf@).push(buf@),
    {
        let m: Vec<u8> = vstd::slice::slice_to_vec(buf);
        let copy: Vec<u8> = vstd::slice::slice_to_vec(buf);
        self.messages.push(copy);
        self.messages.push(m);
        assert(self@ =~= old(self)@.push(buf@).push(buf@));
        Ok(buf.len())
    }

    /// Delivers the datagram at index `i` of those under way, cut to the length
    /// of `buf` where it is longer.
    pub fn deliver(&mut self, i: usize, buf: &mut [u8]) -> (n: usize)
        requires
            i < old(self)@.len(),
        ensures
            n == if old(self)@[i as int].len() <= old(buf)@.len() {
                old(self)@[i as int].len()
            } else {
                old(buf)@.len()
            },
            final(self)@ == old(self)@.remove(i as int),
            final(buf)@ == overwritten(old(buf)@, old(self)@[i as int]),
    {
        let m = self.messages.remove(i);
        assert(self@ =~= old(self)@.remove(i as int));
        copy_into(buf, m.as_slice())
    }

    /// Delivers one of the datagrams under way, or fails if there is none.
    pub fn recv(&mut self, buf: &mut [u8]) -> (r: Result<usize, Error>)
        ensures
            bad_udp_receives(old(self)@, final(self)@, old(buf)@, final(buf)@, r),
            final(buf)@.len() == old(buf)@.len(),
    {
        if self.messages.is_empty() {
            Err(Error::WouldBlock)
        } else {
            let i: usize = random_below(self.messages.len());
            let n: usize = self.deliver(i, buf);
            let r: Result<usize, Error> = Ok(n);
            assert(bad_udp_delivers(old(self)@, i as int, self@, old(buf)@, buf@, r->Ok_0));
            r
        }
    }
}

/// Datagram `i` of `flying` leaves, and `n` bytes of it replace the start of
/// `before`.
pub open spec fn bad_udp_delivers(
    flying: Seq<Seq<u8>>,
    i: int,
    left: Seq<Seq<u8>>,
    before: Seq<u8>,
    after: Seq<u8>,
    n: usize,
) -> bool {
    &&& 0 <= i < flying.len()
    &&& left == flying.remove(i)
    &&& after == overwritten(before, flying[i])
    &&& n == if flying[i].len() <= before.len() {
        flying[i].len()
    } else {
        before.len()
    }
}

/// What a [`BadUdp`] with the datagrams `flying` does when it is asked for one.
pub open spec fn bad_udp_receives(
    flying: Seq<Seq<u8>>,
    left: Seq<Seq<u8>>,
    before: Seq<u8>,
    after: Seq<u8>,
    reply: Result<usize, Error>,
) -> bool {
    if flying.len() == 0 {
        left == flying && after == before && reply == Err::<usize, Error>(Error::WouldBlock)
    } else {
        reply matches Ok(n) && exists|i: int| bad_udp_delivers(flying, i, left, before, after, n)
    }
}

impl UdpLike for BadUdp {
    open spec fn sends(&self, next: &BadUdp, bytes: Seq<u8>, reply: Result<usize, Error>) -> bool {
        next@ == self@.push(bytes).push(bytes) && reply == Ok::<usize, Error>(bytes.len() as usize)
    }

    open spec fn receives(
        &self,
        next: &BadUdp,
        before: Seq<u8>,
        after: Seq<u8>,
        reply: Result<usize, Error>,
    ) -> bool {
        bad_udp_receives(self@, next@, before, after, reply)
    }

    fn send(&mut self, buf: &[u8]) -> (r: Result<usize, Error>) {
        BadUdp::send(self, buf)
    }

    fn recv(&mut self, buf: &mut [u8]) -> (r: Result<usize, Error>) {
        BadUdp::recv(self, buf)
    }
}

} // verus!
