//! Times of a clock, in nanoseconds from any fixed instant on.

use vstd::prelude::*;

verus! {

pub const NANOS_PER_SEC: u64 = 1_000_000_000;

/// The time that has passed since an instant, zero if it is still to come.
pub open spec fn passed(since: u64, now: u64) -> u64 {
    if now > since {
        (now - since) as u64
    } else {
        0
    }
}

pub fn elapsed(since: u64, now: u64) -> (r: u64)
    ensures
        r == passed(since, now),
{
    if now > since {
        now - since
    } else {
        0
    }
}

/// Whether so many seconds have passed since an instant.
pub open spec fn due(since: u64, now: u64, secs: u64) -> bool {
    passed(since, now) >= secs * NANOS_PER_SEC
}

pub fn is_due(since: u64, now: u64, secs: u64) -> (r: bool)
    ensures
        r == due(since, now, secs),
{
    elapsed(since, now) as u128 >= secs as u128 * 1_000_000_000
}

} // verus!
