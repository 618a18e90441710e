//! Sequence numbers that wrap around.

use crate::error::Error;
use crate::wire::{be_bytes, be_value, lemma_be_round_trip, overwritten, read_u32, write_u32};
use core::cmp::Ordering;
use vstd::prelude::*;

verus! {

/// How many sequence numbers there are before counting starts over. The one
/// remaining value of a `u32` is no sequence number: see [`ModOrd::unnumbered`].
pub const MODULUS: u32 = 0xffff_ffff;

/// The largest distance that two sequence numbers can have. The modulus is odd,
/// so of two distinct sequence numbers exactly one is at most this far ahead of
/// the other.
pub const HALF: u32 = 0x7fff_ffff;

/// A sequence number, counted modulo [`MODULUS`], or the mark that a message
/// has none.
#[derive(Clone, Copy, Debug, PartialEq, Eq, Structural, Hash)]
pub struct ModOrd {
    pub value: u32,
}

impl ModOrd {
    /// The first sequence number.
    #[verifier::allow_in_spec]
    pub fn zero() -> ModOrd
        returns
            (ModOrd { value: 0 }),
    {
        ModOrd { value: 0 }
    }

    /// The sequence number that [`ModOrd::zero`] follows.
    #[verifier::allow_in_spec]
    pub fn before_zero() -> ModOrd
        returns
            (ModOrd { value: 0xffff_fffe }),
    {
        ModOrd { value: 0xffff_fffe }
    }

    /// The mark of a message that takes no part in the numbering.
    #[verifier::allow_in_spec]
    pub fn unnumbered() -> ModOrd
        returns
            (ModOrd { value: 0xffff_ffff }),
    {
        ModOrd { value: 0xffff_ffff }
    }

    /// Whether this is a sequence number.
    pub open spec fn ordinary(self) -> bool {
        self.value < MODULUS
    }

    /// How many steps forward lead from `self` to `other`.
    pub open spec fn steps_to(self, other: ModOrd) -> int {
        if self.value <= other.value {
            other.value - self.value
        } else {
            other.value - self.value + MODULUS
        }
    }

    /// Whether `other` lies ahead of `self`: fewer steps lead forward to it than
    /// back. Nothing lies ahead of or behind [`ModOrd::unnumbered`].
    pub open spec fn before(self, other: ModOrd) -> bool {
        self.ordinary() && other.ordinary() && 0 < self.steps_to(other) <= HALF
    }

    /// Whether `other` is `self` or lies ahead of it.
    pub open spec fn up_to(self, other: ModOrd) -> bool {
        self == other || self.before(other)
    }

    /// The sequence number `k` steps ahead.
    pub open spec fn plus(self, k: int) -> ModOrd {
        if self.ordinary() {
            ModOrd { value: ((self.value + k) % (MODULUS as int)) as u32 }
        } else {
            self
        }
    }

    /// The number of steps between `self` and `other`, in the shorter
    /// direction. [`ModOrd::unnumbered`] is farther from everything than sequence
    /// numbers can be from each other.
    pub open spec fn distance(self, other: ModOrd) -> int {
        if !self.ordinary() || !other.ordinary() {
            u32::MAX as int
        } else if self.steps_to(other) <= HALF {
            self.steps_to(other)
        } else {
            other.steps_to(self)
        }
    }

    /// Whether this is [`ModOrd::unnumbered`].
    pub fn special(&self) -> (r: bool)
        ensures
            r == (*self == ModOrd::unnumbered()),
            r == !self.ordinary(),
    {
        self.value == MODULUS
    }

    /// The sequence number `count` steps ahead.
    pub fn new_plus(&self, count: u32) -> (r: ModOrd)
        ensures
            r == self.plus(count as int),
            r.ordinary() == self.ordinary(),
    {
        if self.special() {
            return *self;
        }
        let sum: u64 = self.value as u64 + count as u64;
        ModOrd { value: (sum % (MODULUS as u64)) as u32 }
    }

    /// The sequence number `count` steps back.
    pub fn new_minus(&self, count: u32) -> (r: ModOrd)
        ensures
            r == self.plus(-(count as int)),
            r.ordinary() == self.ordinary(),
    {
        if self.special() {
            return *self;
        }
        let sum: u64 = self.value as u64 + (MODULUS - count) as u64;
        assert((self.value - count + MODULUS) % (MODULUS as int) == (self.value - count) % (
        MODULUS as int)) by {
            vstd::arithmetic::div_mod::lemma_mod_add_multiples_vanish(
                self.value - count,
                MODULUS as int,
            );
        }
        ModOrd { value: (sum % (MODULUS as u64)) as u32 }
    }

    /// The number of steps between two sequence numbers.
    pub fn abs_difference(&self, other: ModOrd) -> (r: u32)
        ensures
            r == self.distance(other),
    {
        if self.special() || other.special() {
            return u32::MAX;
        }
        let ahead: u32 = if self.value <= other.value {
            other.value - self.value
        } else {
            MODULUS - (self.value - other.value)
        };
        if ahead <= HALF {
            ahead
        } else {
            MODULUS - ahead
        }
    }

    /// The bytes that stand for the sequence number.
    pub open spec fn encoded(self) -> Seq<u8> {
        be_bytes(self.value)
    }

    /// The sequence number that the first bytes of `s` stand for.
    pub open spec fn decoded(s: Seq<u8>) -> ModOrd {
        ModOrd { value: be_value(s) as u32 }
    }

    /// Writes the sequence number to the start of `w`. This fails exactly if it
    /// does not fit.
    pub fn write_to(&self, w: &mut [u8]) -> (r: Result<(), Error>)
        ensures
            old(w)@.len() >= 4 ==> r is Ok && final(w)@ == overwritten(old(w)@, self.encoded()),
            old(w)@.len() < 4 ==> r == Err::<(), Error>(Error::WriteZero),
            final(w)@.len() == old(w)@.len(),
    {
        match write_u32(w, self.value) {
            Ok(()) => Ok(()),
            Err(_) => Err(Error::WriteZero),
        }
    }

    /// Reads a sequence number from the start of `r`. This fails exactly if `r`
    /// is too short.
    pub fn read_from(r: &[u8]) -> (m: Result<ModOrd, Error>)
        ensures
            r@.len() >= 4 ==> m == Ok::<ModOrd, Error>(ModOrd::decoded(r@)),
            r@.len() < 4 ==> m == Err::<ModOrd, Error>(Error::UnexpectedEof),
    {
        match read_u32(r) {
            Ok(value) => Ok(ModOrd { value }),
            Err(_) => Err(Error::UnexpectedEof),
        }
    }

    /// A sequence number is read back as it was written.
    pub proof fn lemma_round_trip(self, rest: Seq<u8>)
        ensures
            self.encoded().len() == 4,
            ModOrd::decoded(self.encoded() + rest) == self,
    {
        lemma_be_round_trip(self.value, rest);
    }
}

impl PartialOrd for ModOrd {
    fn partial_cmp(&self, other: &ModOrd) -> (r: Option<Ordering>) {
        if self.value == other.value {
            Some(Ordering::Equal)
        } else if self.special() || other.special() {
            None
        } else if self.value < other.value {
            if other.value - self.value <= HALF {
                Some(Ordering::Less)
            } else {
                Some(Ordering::Greater)
            }
        } else {
            if self.value - other.value <= HALF {
                Some(Ordering::Greater)
            } else {
                Some(Ordering::Less)
            }
        }
    }
}

impl vstd::std_specs::cmp::PartialOrdSpecImpl for ModOrd {
    open spec fn obeys_partial_cmp_spec() -> bool {
        true
    }

    open spec fn partial_cmp_spec(&self, other: &ModOrd) -> Option<Ordering> {
        if *self == *other {
            Some(Ordering::Equal)
        } else if self.before(*other) {
            Some(Ordering::Less)
        } else if other.before(*self) {
            Some(Ordering::Greater)
        } else {
            None
        }
    }
}

/// How many steps lead forward from `a` to `b`.
pub open spec fn forward(a: ModOrd, b: ModOrd) -> int {
    (b.value - a.value) % (MODULUS as int)
}

/// Two sequence numbers are ordered and set apart by the steps between them: the other
/// lies ahead if at most [`HALF`] steps lead forward to it.
pub proof fn law_order_counts_steps(a: ModOrd, b: ModOrd)
    requires
        a.ordinary(),
        b.ordinary(),
    ensures
        a.before(b) <==> 0 < forward(a, b) <= HALF,
        a.up_to(b) <==> forward(a, b) <= HALF,
        a.plus(forward(a, b)) == b,
        a.steps_to(b) == forward(a, b),
        a.distance(b) == if forward(a, b) <= HALF {
            forward(a, b)
        } else {
            MODULUS - forward(a, b)
        },
{
}

/// Comparing two sequence numbers goes by the steps between them. The mark of a message
/// without a number compares with nothing but itself.
pub proof fn law_comparison_counts_steps(a: ModOrd, b: ModOrd)
    ensures
        ({
            let r = vstd::std_specs::cmp::PartialOrdSpec::partial_cmp_spec(&a, &b);
            &&& a.value == b.value ==> r == Some(Ordering::Equal)
            &&& a.value != b.value && (a.value == MODULUS || b.value == MODULUS) ==> r == None::<
                Ordering,
            >
            &&& a.value != b.value && a.value != MODULUS && b.value != MODULUS ==> r == Some(
                if forward(a, b) <= HALF {
                    Ordering::Less
                } else {
                    Ordering::Greater
                },
            )
        }),
{
}

} // verus!
