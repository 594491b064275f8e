//! The run configuration, built once at the boundary and validated
//! before any history is read.

use vstd::prelude::*;
use crate::errors::Error;
use crate::statistics::Strategy;

verus! {

/// Seconds in one minute.
pub const SECONDS_PER_MINUTE: i64 = 60;

/// One run's configuration: the repositories to analyse, an optional
/// maximum age in days, and an optional grouping time window in minutes
/// (absence means grouping by identity).
#[derive(Debug, Clone, PartialEq, Eq)]
pub struct Args {
    pub git_repo: Vec<String>,
    pub max_days_ago: Option<i64>,
    pub time_window_minutes: Option<i64>,
}

impl Args {
    /// The grouping strategy the configuration asks for. A missing
    /// window means grouping by identity; a window is accepted exactly
    /// when it is positive and measurable in seconds, and is otherwise
    /// a configuration error, surfaced before any history is read.
    pub fn strategy(&self) -> (r: Result<Strategy, Error>)
        ensures
            match self.time_window_minutes {
                None => r == Ok::<Strategy, Error>(Strategy::Hash),
                Some(minutes) => {
                    if 0 < minutes && minutes as int <= i64::MAX as int / (SECONDS_PER_MINUTE as int) {
                        r == Ok::<Strategy, Error>(
                            Strategy::CommitTime((minutes * SECONDS_PER_MINUTE) as i64),
                        )
                    } else {
                        r == Err::<Strategy, Error>(Error::TimeWindow(minutes))
                    }
                },
            },
            r matches Ok(s) ==> s.wf(),
    {
        match self.time_window_minutes {
            None => Ok(Strategy::Hash),
            Some(minutes) => {
                if minutes > 0 && minutes <= i64::MAX / SECONDS_PER_MINUTE {
                    Ok(Strategy::CommitTime(minutes * SECONDS_PER_MINUTE))
                } else {
                    Err(Error::TimeWindow(minutes))
                }
            },
        }
    }
}

} // verus!
