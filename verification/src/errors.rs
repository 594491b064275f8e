//! What can go wrong in a whole run: the history could not be read, or
//! the configuration never made sense.

use vstd::prelude::*;
use crate::repository;

verus! {

/// A fatal condition: there is no partial-result mode, since statistics
/// over an incomplete history would mislead.
#[derive(Debug, Clone, PartialEq, Eq)]
pub enum Error {
    /// The version-history provider failed.
    Repository(repository::Error),
    /// The age filter could not be read as a number of days.
    DaysParse(String),
    /// The grouping time window is unusable: not positive, or too wide
    /// to measure in seconds.
    TimeWindow(i64),
}

} // verus!
