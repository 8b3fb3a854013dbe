//! The steps of a job as the first runner reported them.
use vstd::prelude::*;
use crate::ci::job::job_output::JobOutput;

verus! {

/// A step in the life of a job.
#[derive(Debug, PartialEq, Eq)]
pub enum Progress {
    Available,
    Started,
    Partial(String, JobOutput),
    Terminated(bool),
}

impl Progress {
    /// Whether this step tells of a failure: a command that failed or could
    /// not run, or a job that ended in failure.
    pub fn failed(&self) -> (r: bool)
        ensures
            r == match self {
                Progress::Partial(_, out) => !(out is Success),
                Progress::Terminated(ok) => !*ok,
                _ => false,
            },
    {
        match self {
            Progress::Partial(_, out) => !out.succeeded(),
            Progress::Terminated(ok) => !*ok,
            _ => false,
        }
    }

    /// Whether the job may start.
    pub fn is_available(&self) -> (r: bool)
        ensures
            r == (self is Available),
    {
        matches!(self, Progress::Available)
    }

    /// Whether the job has not ended.
    pub fn is_pending(&self) -> (r: bool)
        ensures
            r == !(self is Terminated),
    {
        !matches!(*self, Progress::Terminated(_))
    }
}

} // verus!
