//! Time.

use std::time::Instant;
use vstd::prelude::*;

verus! {

/// Declares [`std::time::Instant`], a point in time that is only carried about.
#[verifier::external_type_specification]
#[verifier::external_body]
pub struct ExInstant(Instant);

/// `Instant::now` of std. Nothing is claimed of the point in time.
pub assume_specification[ Instant::now ]() -> Instant;

/// How long ago a point in time was, when it was asked for.
pub struct Age {
    nanos: u128,
    since: Ghost<Instant>,
}

impl Age {
    /// The age in nanoseconds.
    pub closed spec fn nanos(self) -> u128 {
        self.nanos
    }

    /// The point in time that the age was measured from.
    pub closed spec fn since(self) -> Instant {
        self.since@
    }

    /// The age in nanoseconds.
    pub fn as_nanos(&self) -> (r: u128)
        ensures
            r == self.nanos(),
    {
        self.nanos
    }
}

/// Calls `Instant::elapsed` of std on `since`, and hands the duration out as a
/// number of nanoseconds. It is trusted that the age was measured from `since`.
/// Nothing is claimed of the number: it depends on when it is asked for.
#[verifier::external_body]
pub(crate) fn age_of(since: &Instant) -> (age: Age)
    ensures
        age.since() == *since,
{
    Age { nanos: since.elapsed().as_nanos(), since: Ghost(*since) }
}

} // verus!
