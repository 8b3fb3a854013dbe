//! A job whose instructions run in bash, as first described.
use vstd::prelude::*;
use crate::ci::job::{opt_view, reports_run, run_instructions, ProgressConsumer};
use crate::ci::job::env_parser::EnvMap;
use crate::ci::job::ports::CommandRunner;
use crate::names::names_view;

verus! {

/// A job whose instructions run in bash.
#[derive(Debug, PartialEq, Eq, Hash)]
pub struct SimpleJob {
    name: String,
    group: Option<String>,
    instructions: Vec<String>,
}

impl View for SimpleJob {
    type V = (Seq<char>, Option<Seq<char>>, Seq<Seq<char>>);

    closed spec fn view(&self) -> (Seq<char>, Option<Seq<char>>, Seq<Seq<char>>) {
        (self.name@, opt_view(self.group), names_view(self.instructions@))
    }
}

impl SimpleJob {
    /// A job that runs `instructions` in bash.
    pub fn long(name: String, instructions: Vec<String>, group: Option<String>) -> (r: Self)
        ensures
            r@ == (name@, opt_view(group), names_view(instructions@)),
    {
        Self { name, instructions, group }
    }

    /// The job's name.
    pub fn name(&self) -> (r: &str)
        ensures
            r@ == self@.0,
    {
        self.name.as_str()
    }

    /// The job's group, if it has one.
    pub fn group(&self) -> (r: Option<&str>)
        ensures
            match r {
                Some(g) => self@.1 == Some(g@),
                None => self@.1 is None,
            },
    {
        match &self.group {
            Some(g) => Some(g.as_str()),
            None => None,
        }
    }

    /// The environment changes nothing of such a job.
    pub fn forward_env(&mut self, _env: &EnvMap)
        ensures
            final(self)@ == old(self)@,
    {
    }

    /// The instructions as they are written.
    pub closed spec fn instruction_texts(&self) -> Seq<String> {
        self.instructions@
    }

    /// Runs the job with `runner`, reporting its progress to `consumer`, each
    /// instruction run as it is.
    pub fn start<R: CommandRunner, C: ProgressConsumer>(&self, runner: &R, consumer: &mut C)
        ensures
            names_view(self.instruction_texts()) == self@.2,
            final(consumer).keeps_log() == old(consumer).keeps_log(),
            old(consumer).keeps_log() ==> reports_run(
                runner,
                self@.0,
                None,
                self.instruction_texts(),
                self@.2,
                old(consumer).received(),
                final(consumer).received(),
            ),
    {
        let never: Option<String> = None;
        run_instructions(self.name.as_str(), &never, &self.instructions, &self.instructions, runner, consumer);
    }
}

} // verus!
