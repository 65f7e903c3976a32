//! Time, as far as the store needs it.
//!
//! The store counts time in nanoseconds since a starting instant of its own.
//! The instants and durations themselves belong to the standard library; this
//! module states, without proof, what the few calls made on them return.

use vstd::prelude::*;
use std::time::{Duration, Instant};

verus! {

/// `std::time::Instant`, taken as it is: a reading of the monotonic clock.
#[verifier::external_type_specification]
#[verifier::external_body]
pub struct ExInstant(std::time::Instant);

/// The length of a duration in nanoseconds.
pub uninterp spec fn duration_nanos(d: Duration) -> nat;

/// `Duration::from_secs`: a duration of that many whole seconds.
pub assume_specification[ Duration::from_secs ](secs: u64) -> (d: Duration)
    ensures
        duration_nanos(d) == secs * 1_000_000_000,
;

/// `Duration::from_millis`: a duration of that many milliseconds.
pub assume_specification[ Duration::from_millis ](millis: u64) -> (d: Duration)
    ensures
        duration_nanos(d) == millis * 1_000_000,
;

/// `Duration::as_nanos`: the whole duration in nanoseconds.
pub assume_specification[ Duration::as_nanos ](d: &Duration) -> (n: u128)
    ensures
        n == duration_nanos(*d),
;

/// `Instant::now`: the current instant. Nothing is said of it.
pub assume_specification[ Instant::now ]() -> (t: Instant)
;

/// Copying an instant. Nothing is said of the copy.
pub assume_specification[ <Instant as Clone>::clone ](t: &Instant) -> (c: Instant)
;

/// `Instant::elapsed`: the time that has passed since the instant. Nothing is
/// said of it.
pub assume_specification[ Instant::elapsed ](t: &Instant) -> (d: Duration)
;

/// The deadline of an entry set at time `now` to live for `ttl` nanoseconds:
/// their sum, or the largest time there is where the sum is beyond it.
pub open spec fn spec_deadline(now: nat, ttl: nat) -> nat {
    if now + ttl <= u128::MAX {
        now + ttl
    } else {
        u128::MAX as nat
    }
}

/// Turns a time to live into a deadline.
pub fn deadline_after(now: u128, expiry: Option<Duration>) -> (r: Option<u128>)
    ensures
        r == match expiry {
            Some(ttl) => Some(spec_deadline(now as nat, duration_nanos(ttl)) as u128),
            None => None::<u128>,
        },
{
    match expiry {
        Some(ttl) => {
            let nanos = ttl.as_nanos();
            if nanos > u128::MAX - now {
                Some(u128::MAX)
            } else {
                Some(now + nanos)
            }
        },
        None => None,
    }
}

} // verus!
