//! A job whose instructions run directly, as first described.
use vstd::prelude::*;
use crate::ci::job::container_configuration::{ContainerConfiguration, command_of};
use crate::ci::job::{JobModel, compile_commands, opt_view, reports_run, run_instructions, ProgressConsumer};
use crate::ci::job::env_parser::EnvMap;
use crate::ci::job::ports::CommandRunner;
use crate::names::names_view;

verus! {

/// A job whose instructions run directly.
#[derive(Debug)]
pub struct Simple {
    name: String,
    group: Option<String>,
    container: ContainerConfiguration,
    instructions: Vec<String>,
    skip_if: Option<String>,
}

impl View for Simple {
    type V = JobModel;

    closed spec fn view(&self) -> JobModel {
        (self.name@, opt_view(self.group), self.container@, names_view(self.instructions@), opt_view(self.skip_if))
    }
}

impl Simple {
    /// A job that runs `instructions` directly.
    pub fn long(name: String, instructions: Vec<String>, group: Option<String>, skip_if: Option<String>) -> (r: Self)
        ensures
            r@ == (name@, opt_view(group), None::<crate::ci::job::container_configuration::DockerModel>, names_view(instructions@), opt_view(skip_if)),
    {
        Self { name, group, container: ContainerConfiguration::NoContainer, instructions, skip_if }
    }

    /// The job's name.
    pub fn name(&self) -> (r: &str)
        ensures
            r@ == self@.0,
    {
        self.name.as_str()
    }

    /// The job's group, if it has one.
    pub fn group(&self) -> (r: Option<&str>)
        ensures
            match r {
                Some(g) => self@.1 == Some(g@),
                None => self@.1 is None,
            },
    {
        match &self.group {
            Some(g) => Some(g.as_str()),
            None => None,
        }
    }

    /// Hands every variable of `env` on to the job's container, if it has one.
    pub fn forward_env(&mut self, env: &EnvMap)
        ensures
            final(self)@.0 == old(self)@.0,
            final(self)@.1 == old(self)@.1,
            final(self)@.3 == old(self)@.3,
            final(self)@.4 == old(self)@.4,
            old(self)@.2 is None ==> final(self)@.2 is None,
            old(self)@.2 is Some ==> final(self)@.2 == Some((
                old(self)@.2.unwrap().0,
                old(self)@.2.unwrap().1 + env.keys_view(),
                old(self)@.2.unwrap().2,
                old(self)@.2.unwrap().3,
                old(self)@.2.unwrap().4,
            )),
    {
        match &mut self.container {
            ContainerConfiguration::Container(container) => {
                let keys = env.keys();
                let mut i: usize = 0;
                while i < keys.len()
                    invariant
                        i <= keys.len(),
                        keys@.map_values(|s: String| s@) == env.keys_view(),
                        container@.0 == old(self).container@.unwrap().0,
                        container@.1 == old(self).container@.unwrap().1 + env.keys_view().take(i as int),
                        container@.2 == old(self).container@.unwrap().2,
                        container@.3 == old(self).container@.unwrap().3,
                        container@.4 == old(self).container@.unwrap().4,
                    decreases keys.len() - i,
                {
                    container.forward_env(keys[i].as_str());
                    proof {
                        assert(env.keys_view().take(i + 1) =~= env.keys_view().take(i as int).push(keys@[i as int]@));
                    }
                    i = i + 1;
                }
                assert(env.keys_view().take(keys.len() as int) =~= env.keys_view());
            },
            ContainerConfiguration::NoContainer => {},
        }
    }

    /// The commands that run the instructions, in order, under the job's
    /// container configuration.
    pub fn commands(&self) -> (r: Vec<String>)
        ensures
            names_view(r@) == self@.3.map_values(|i: Seq<char>| command_of(self@.2, i)),
    {
        compile_commands(&self.container, &self.instructions)
    }

    /// The instructions as they are written.
    pub closed spec fn instruction_texts(&self) -> Seq<String> {
        self.instructions@
    }

    /// Runs the job with `runner`, reporting its progress to `consumer`, each
    /// instruction run as its command (`commands`); a job whose skip condition
    /// runs with success is skipped.
    pub fn start<R: CommandRunner, C: ProgressConsumer>(&self, runner: &R, consumer: &mut C)
        ensures
            names_view(self.instruction_texts()) == self@.3,
            final(consumer).keeps_log() == old(consumer).keeps_log(),
            old(consumer).keeps_log() ==> reports_run(
                runner,
                self@.0,
                self@.4,
                self.instruction_texts(),
                self@.3.map_values(|i: Seq<char>| command_of(self@.2, i)),
                old(consumer).received(),
                final(consumer).received(),
            ),
    {
        let commands = self.commands();
        assert(names_view(commands@).len() == commands@.len());
        assert(self@.3.len() == self.instructions@.len());
        run_instructions(self.name.as_str(), &self.skip_if, &self.instructions, &commands, runner, consumer);
    }
}

} // verus!
