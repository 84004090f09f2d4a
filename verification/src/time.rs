//! Times, as numbers of nanoseconds since some fixed moment.

use vstd::prelude::*;

verus! {

/// The time from `then` to `now`, or zero if `then` is later.
pub open spec fn elapsed(now: u64, then: u64) -> u64 {
    if now >= then {
        (now - then) as u64
    } else {
        0
    }
}

/// The time from `then` to `now`, or zero if `then` is later.
pub fn time_since(now: u64, then: u64) -> (time: u64)
    ensures
        time == elapsed(now, then),
{
    now.saturating_sub(then)
}

} // verus!
