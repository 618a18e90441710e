//! Integers and byte strings in a buffer.

use byteorder::{BigEndian, ReadBytesExt, WriteBytesExt};
use std::io;
use vstd::prelude::*;

verus! {

/// The four bytes of `n`, most significant first.
pub open spec fn be_bytes(n: u32) -> Seq<u8> {
    seq![
        (n / 0x100_0000) as u8,
        (n / 0x1_0000 % 0x100) as u8,
        (n / 0x100 % 0x100) as u8,
        (n % 0x100) as u8,
    ]
}

/// The number whose four bytes, most significant first, stand at the start of
/// `s`.
pub open spec fn be_value(s: Seq<u8>) -> int {
    s[0] * 0x100_0000 + s[1] * 0x1_0000 + s[2] * 0x100 + s[3]
}

/// `dst` after as much of `src` as fits was copied to its start.
pub open spec fn overwritten(dst: Seq<u8>, src: Seq<u8>) -> Seq<u8> {
    if src.len() <= dst.len() {
        src + dst.skip(src.len() as int)
    } else {
        src.take(dst.len() as int)
    }
}

/// Calls `WriteBytesExt::write_u8` of byteorder on a slice. It is trusted that
/// the byte replaces the first one of the slice, and that the call fails, and
/// changes nothing, exactly on an empty slice.
#[verifier::external_body]
pub(crate) fn write_u8(w: &mut [u8], n: u8) -> (r: io::Result<()>)
    ensures
        r is Ok <==> old(w)@.len() >= 1,
        r is Ok ==> final(w)@ == overwritten(old(w)@, seq![n]),
        r is Err ==> final(w)@ == old(w)@,
{
    let mut w = w;
    w.write_u8(n)
}

/// Calls `WriteBytesExt::write_u32` of byteorder, with the most significant byte
/// first, on a slice. It is trusted that the four bytes of `n` replace the first
/// four of the slice, and that the call fails exactly where the slice is
/// shorter; then nothing is said of the slice but its length.
#[verifier::external_body]
pub(crate) fn write_u32(w: &mut [u8], n: u32) -> (r: io::Result<()>)
    ensures
        r is Ok <==> old(w)@.len() >= 4,
        r is Ok ==> final(w)@ == overwritten(old(w)@, be_bytes(n)),
        final(w)@.len() == old(w)@.len(),
{
    let mut w = w;
    w.write_u32::<BigEndian>(n)
}

/// Calls `ReadBytesExt::read_u8` of byteorder on a slice. It is trusted to give
/// the first byte, and to fail exactly on an empty slice.
#[verifier::external_body]
pub(crate) fn read_u8(r: &[u8]) -> (n: io::Result<u8>)
    ensures
        n is Ok <==> r@.len() >= 1,
        n matches Ok(v) ==> v == r@[0],
{
    let mut r = r;
    r.read_u8()
}

/// Calls `ReadBytesExt::read_u32` of byteorder, with the most significant byte
/// first, on a slice. It is trusted to give the number that the first four bytes
/// spell, and to fail exactly on a shorter slice.
#[verifier::external_body]
pub(crate) fn read_u32(r: &[u8]) -> (n: io::Result<u32>)
    ensures
        n is Ok <==> r@.len() >= 4,
        n matches Ok(v) ==> v == be_value(r@),
{
    let mut r = r;
    r.read_u32::<BigEndian>()
}

/// Copies as much of `src` as fits to the start of `dst`, and returns how many
/// bytes that is.
pub fn copy_into(dst: &mut [u8], src: &[u8]) -> (n: usize)
    ensures
        n == if src@.len() <= old(dst)@.len() { src@.len() } else { old(dst)@.len() },
        final(dst)@ == overwritten(old(dst)@, src@),
{
    let n: usize = if src.len() <= dst.len() { src.len() } else { dst.len() };
    let mut i: usize = 0;
    while i < n
        invariant
            i <= n,
            n <= src@.len(),
            n <= dst@.len(),
            dst@ == src@.take(i as int) + old(dst)@.skip(i as int),
            dst@.len() == old(dst)@.len(),
        decreases n - i,
    {
        dst[i] = src[i];
        i += 1;
        assert(dst@ =~= src@.take(i as int) + old(dst)@.skip(i as int));
    }
    assert(dst@ =~= overwritten(old(dst)@, src@));
    n
}

/// Reading the bytes of a number gives the number back.
pub proof fn lemma_be_round_trip(n: u32, rest: Seq<u8>)
    ensures
        be_value(be_bytes(n) + rest) == n,
{
    let s = be_bytes(n) + rest;
    assert(s[0] == be_bytes(n)[0] && s[1] == be_bytes(n)[1] && s[2] == be_bytes(n)[2] && s[3]
        == be_bytes(n)[3]);
}

/// Copying over the start of `dst` leaves its length and its rest as they are, and the
/// start is as much of `src` as fits.
pub proof fn law_only_the_start_is_overwritten(dst: Seq<u8>, src: Seq<u8>, i: int)
    requires
        0 <= i < dst.len(),
    ensures
        overwritten(dst, src).len() == dst.len(),
        i < src.len() ==> overwritten(dst, src)[i] == src[i],
        i >= src.len() ==> overwritten(dst, src)[i] == dst[i],
{
}

} // verus!
