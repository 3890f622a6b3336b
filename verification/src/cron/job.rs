//! Cron jobs: a [`CronTime`] together with the work to run at it.

use vstd::prelude::*;

use super::civil::DateTime;
use super::parser::{spec_parse_cron, CronParsingError, CronTime, CronTimeView};

verus! {

/// A cron job: the combination of a [`CronTime`] and the job (function) that
/// runs at the times that the [`CronTime`] gives.
pub struct Job<F> {
    time: CronTime,
    pub(crate) func: F,
}

impl<F> Job<F> {
    /// The cron time of the job.
    pub closed spec fn cron(self) -> CronTime {
        self.time
    }

    /// The function of the job.
    pub closed spec fn function(self) -> F {
        self.func
    }

    /// Creates a new cron [`Job`] to be used in the scheduler.
    pub fn new(time: CronTime, func: F) -> (r: Self)
        ensures
            r.cron() == time,
            r.function() == func,
    {
        Self { time, func }
    }

    /// Creates a new cron [`Job`], parsing the cron string itself.
    ///
    /// # Errors
    ///
    /// Errors if the supplied cron string is invalid, see [`CronTime`].
    pub fn new_with_string(time: &str, func: F) -> (r: Result<Self, CronParsingError>)
        ensures
            match r {
                Ok(j) => spec_parse_cron(time@) == Ok::<CronTimeView, CronParsingError>(j.cron()@)
                    && j.function() == func,
                Err(e) => spec_parse_cron(time@) == Err::<CronTimeView, CronParsingError>(e),
            },
    {
        match CronTime::new(time) {
            Ok(time) => Ok(Self { time, func }),
            Err(e) => Err(e),
        }
    }

    /// The cron time of the job.
    pub fn time(&self) -> (r: CronTime)
        ensures
            r == self.cron(),
    {
        self.time
    }

    /// The function of the job.
    pub fn func(&self) -> (r: &F)
        ensures
            *r == self.function(),
    {
        &self.func
    }

    /// The next time after `curr` at which the job runs, see [`CronTime::get_next_time`].
    pub fn get_next_time(&self, curr: DateTime) -> (r: Option<DateTime>)
        requires
            curr.is_valid(),
        ensures
            r == self.cron()@.spec_get_next_time(curr),
    {
        self.time.get_next_time(curr)
    }
}

} // verus!
