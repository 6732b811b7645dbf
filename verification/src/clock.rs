//! Times, as nanoseconds on the caller's clock.

use vstd::prelude::*;

verus! {

/// Time between two clock readings; none where the clock went back.
pub open spec fn elapsed(since: u128, now: u128) -> int {
    if since <= now {
        now - since
    } else {
        0
    }
}

/// Nanoseconds from `since` to `now`; none where the clock went back.
pub fn nanos_since(since: u128, now: u128) -> (nanos: u128)
    ensures
        nanos == elapsed(since, now),
{
    if since <= now {
        now - since
    } else {
        0
    }
}

pub fn nanos_from_secs(secs: u64) -> (nanos: u128)
    ensures
        nanos == secs * 1_000_000_000,
{
    secs as u128 * 1_000_000_000
}

pub fn nanos_from_millis(millis: u64) -> (nanos: u128)
    ensures
        nanos == millis * 1_000_000,
{
    millis as u128 * 1_000_000
}

/// The time between two readings, added to the first, gives the second; a clock
/// that went back shows no time.
pub proof fn law_elapsed_adds_up(since: u128, now: u128)
    ensures
        since <= now ==> since + elapsed(since, now) == now,
        since >= now ==> elapsed(since, now) == 0,
{
}

} // verus!
