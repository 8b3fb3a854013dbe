//! How a command went, as the first runner reported it.
use vstd::prelude::*;

verus! {

/// How a command went: its standard output and error when it ran (with or
/// without success), or why it could not run.
#[derive(Debug, PartialEq, Eq)]
pub enum JobOutput {
    Success(String, String),
    JobError(String, String),
    ProcessError(String),
}

impl Clone for JobOutput {
    fn clone(&self) -> (r: Self)
        ensures
            r == *self,
    {
        match self {
            JobOutput::Success(a, b) => JobOutput::Success(a.clone(), b.clone()),
            JobOutput::JobError(a, b) => JobOutput::JobError(a.clone(), b.clone()),
            JobOutput::ProcessError(a) => JobOutput::ProcessError(a.clone()),
        }
    }
}

impl JobOutput {
    /// The command ran and succeeded.
    pub fn succeeded(&self) -> (r: bool)
        ensures
            r == (self is Success),
    {
        matches!(self, JobOutput::Success(_, _))
    }
}

} // verus!
