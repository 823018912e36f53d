//! The clock against which deadlines are held: milliseconds since the clock
//! was started, read from the machine's monotonic time.

use std::time::Instant;
use vstd::prelude::*;

verus! {

/// `std::time::Instant`, carried as an opaque value.
#[verifier::external_type_specification]
#[verifier::external_body]
pub struct ExInstant(Instant);

/// A monotonic clock that counts milliseconds from the moment it was made.
pub struct Clock {
    origin: Instant,
}

/// `Instant::now`. Nothing is claimed of the moment that it returns.
#[verifier::external_body]
fn instant_now() -> Instant {
    Instant::now()
}

/// `Instant::elapsed`, in whole milliseconds. Nothing is claimed of the count.
#[verifier::external_body]
fn millis_since(origin: &Instant) -> u128 {
    origin.elapsed().as_millis()
}

impl Clock {
    /// A clock that starts now.
    pub fn new() -> Clock {
        Clock { origin: instant_now() }
    }

    /// The milliseconds that have passed since the clock was made; `u64::MAX`
    /// once they no longer fit. Which count the machine gives is not for
    /// this library to say; [`reading`] says what is made of it.
    pub fn now(&self) -> u64 {
        reading(millis_since(&self.origin))
    }
}

/// The reading that stands for a count of milliseconds: the count itself,
/// held at `u64::MAX` where it does not fit.
pub open spec fn reading_of(elapsed: u128) -> u64 {
    if elapsed > u64::MAX {
        u64::MAX
    } else {
        elapsed as u64
    }
}

/// Turns a count of milliseconds into a reading of the clock.
pub fn reading(elapsed: u128) -> (res: u64)
    ensures
        res == reading_of(elapsed),
{
    if elapsed > 0xffff_ffff_ffff_ffff {
        u64::MAX
    } else {
        elapsed as u64
    }
}

} // verus!
