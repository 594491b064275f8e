//! The age filter: whether a revision is recent enough to count.

use vstd::prelude::*;
use crate::commit::Commit;

verus! {

/// Seconds in one day.
pub const SECONDS_PER_DAY: i64 = 86400;

/// Whether a commit falls within the age limit: with no limit every
/// commit does; with a limit of `d` days, exactly those whose age
/// against the given current time is under `d` days.
pub fn within_time_limit(max_days: Option<i64>, now: i64, commit: &Commit) -> (r: bool)
    ensures
        r == match max_days {
            None => true,
            Some(days) => now - commit@.stamp < days * (SECONDS_PER_DAY as int),
        },
{
    match max_days {
        None => true,
        Some(days) => {
            let age: i128 = (now as i128) - (commit.timestamp as i128);
            let limit: i128 = (days as i128) * (SECONDS_PER_DAY as i128);
            age < limit
        },
    }
}

} // verus!
