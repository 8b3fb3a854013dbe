//! What the job machinery needs from the world around it.
use vstd::prelude::*;
use std::sync::mpsc::Sender;
use crate::ci::job::{Job, Output};
use crate::ci::job::env_parser::EnvMap;
use crate::ci::job::inspection::{JobProgress, JobProgressTracker};

verus! {

/// The sending end of a channel.
#[verifier::external_type_specification]
#[verifier::external_body]
#[verifier::reject_recursive_types(T)]
pub struct ExSender<T>(Sender<T>);

/// Runs a shell command line and reports how it went.
pub trait CommandRunner {
    /// Whether running `command` may end in `out`: what an implementation
    /// tells of how it runs. Nothing is known of it by default.
    open spec fn runs(&self, command: Seq<char>, out: Output) -> bool {
        true
    }

    /// Runs the command line `args` and tells how it went.
    fn run(&self, args: &str) -> (r: Output)
        ensures
            self.runs(args@, r);
}

/// The system that runs jobs: it starts a job, which reports its progress
/// through `tx`, waits between two looks at the progress, and sets the
/// environment of the jobs.
pub trait SystemFacade: CommandRunner {
    fn consume_job(&mut self, jobs: Job, tx: Sender<JobProgress>);
    fn delay(&mut self) -> usize;
    fn write_env(&self, env: EnvMap);
}

/// Shows the progress of a run once it is over.
pub trait FinalCiDisplay {
    fn finish(&mut self, tracker: &JobProgressTracker);
}

/// Shows the progress of a run while it goes on, and errors.
pub trait UserFacade {
    fn set_up(&mut self, tracker: &JobProgressTracker);
    fn run(&mut self, tracker: &JobProgressTracker, elapsed: usize);
    fn tear_down(&mut self, tracker: &JobProgressTracker);

    /// Whether `error`, handed to `display_error`, is shown: what an
    /// implementation tells of its display. Nothing is known of it by default.
    open spec fn displays(&self, error: Seq<char>) -> bool {
        true
    }

    /// Shows an error to the user.
    fn display_error(&self, error: String)
        ensures
            self.displays(error@);
}

} // verus!
