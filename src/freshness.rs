use vstd::prelude::*;

verus! {

/// The age, in seconds, beyond which the package index is refreshed: two days.
pub const INDEX_MAX_AGE_SECS: u64 = 3600 * 48;

/// Nanoseconds in a second, the unit of the times the freshness rule reads.
pub const NANOS_PER_SEC: u128 = 1_000_000_000;

/// The marker's time, an unreadable marker counting as the oldest instant.
pub open spec fn marker_time(modified: Option<u128>) -> int {
    match modified {
        Some(m) => m as int,
        None => 0,
    }
}

/// Whether the package index is stale: the marker is more than `max_age_secs`
/// seconds older than `now`. All times are nanoseconds since the Unix epoch;
/// a marker dated after `now` is not stale.
pub fn is_stale(modified: Option<u128>, now: u128, max_age_secs: u64) -> (r: bool)
    ensures
        r == (now - marker_time(modified) > max_age_secs * NANOS_PER_SEC),
{
    let last: u128 = match modified {
        Some(m) => m,
        None => 0,
    };
    if last > now {
        return false;
    }
    let limit: u128 = max_age_secs as u128 * NANOS_PER_SEC;
    now - last > limit
}

} // verus!
