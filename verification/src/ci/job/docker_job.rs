//! A job whose instructions run in a container, as described at first.
use vstd::prelude::*;
use crate::ci::job::{opt_view, reports_run, run_instructions, ProgressConsumer};
use crate::ci::job::docker::{container_commands, container_line};
use crate::ci::job::env_parser::EnvMap;
use crate::ci::job::ports::CommandRunner;
use crate::names::names_view;

verus! {

/// A job whose instructions run in a container of `image`.
#[derive(Debug, PartialEq, Eq, Hash)]
pub struct DockerJob {
    name: String,
    group: Option<String>,
    image: String,
    instructions: Vec<String>,
    env: Vec<String>,
}

impl View for DockerJob {
    type V = (Seq<char>, Option<Seq<char>>, Seq<char>, Seq<Seq<char>>, Seq<Seq<char>>);

    closed spec fn view(&self) -> (Seq<char>, Option<Seq<char>>, Seq<char>, Seq<Seq<char>>, Seq<Seq<char>>) {
        (self.name@, opt_view(self.group), self.image@, names_view(self.instructions@), names_view(self.env@))
    }
}

impl DockerJob {
    /// A job that runs `instructions` in a container of `image`, with no
    /// variable handed on yet.
    pub fn long(name: String, instructions: Vec<String>, image: String, group: Option<String>) -> (r: Self)
        ensures
            r@ == (name@, opt_view(group), image@, names_view(instructions@), Seq::<Seq<char>>::empty()),
    {
        let r = Self { name, instructions, image, group, env: Vec::new() };
        assert(names_view(r.env@) =~= Seq::<Seq<char>>::empty());
        r
    }

    /// The job's name.
    pub fn name(&self) -> (r: &str)
        ensures
            r@ == self@.0,
    {
        self.name.as_str()
    }

    /// The job's group, if it has one.
    pub fn group(&self) -> (r: Option<&str>)
        ensures
            match r {
                Some(g) => self@.1 == Some(g@),
                None => self@.1 is None,
            },
    {
        match &self.group {
            Some(g) => Some(g.as_str()),
            None => None,
        }
    }

    /// Hands every variable of `env` on to the container, after those
    /// handed on already.
    pub fn forward_env(&mut self, env: &EnvMap)
        ensures
            final(self)@ == (old(self)@.0, old(self)@.1, old(self)@.2, old(self)@.3, old(self)@.4 + env.keys_view()),
    {
        let keys = env.keys();
        let mut i: usize = 0;
        while i < keys.len()
            invariant
                i <= keys.len(),
                names_view(keys@) == env.keys_view(),
                self@ == (old(self)@.0, old(self)@.1, old(self)@.2, old(self)@.3, old(self)@.4 + env.keys_view().take(i as int)),
            decreases keys.len() - i,
        {
            let ghost before = self.env@;
            self.env.push(keys[i].clone());
            proof {
                assert(names_view(self.env@) =~= names_view(before).push(keys@[i as int]@));
                assert(env.keys_view().take(i + 1) =~= env.keys_view().take(i as int).push(keys@[i as int]@));
            }
            i = i + 1;
        }
        assert(env.keys_view().take(keys.len() as int) =~= env.keys_view());
    }

    /// The commands that run the instructions, in order, in a container of
    /// the image with the variables handed on.
    pub fn commands(&self) -> (r: Vec<String>)
        ensures
            names_view(r@) == self@.3.map_values(|i: Seq<char>| container_line(self@.4, self@.2, i)),
    {
        container_commands(&self.env, self.image.as_str(), &self.instructions)
    }

    /// The instructions as they are written.
    pub closed spec fn instruction_texts(&self) -> Seq<String> {
        self.instructions@
    }

    /// Runs the job with `runner`, reporting its progress to `consumer`, each
    /// instruction run as its command (`commands`).
    pub fn start<R: CommandRunner, C: ProgressConsumer>(&self, runner: &R, consumer: &mut C)
        ensures
            names_view(self.instruction_texts()) == self@.3,
            final(consumer).keeps_log() == old(consumer).keeps_log(),
            old(consumer).keeps_log() ==> reports_run(
                runner,
                self@.0,
                None,
                self.instruction_texts(),
                self@.3.map_values(|i: Seq<char>| container_line(self@.4, self@.2, i)),
                old(consumer).received(),
                final(consumer).received(),
            ),
    {
        let commands = self.commands();
        assert(names_view(commands@).len() == commands@.len());
        assert(self@.3.len() == self.instructions@.len());
        let never: Option<String> = None;
        run_instructions(self.name.as_str(), &never, &self.instructions, &commands, runner, consumer);
    }
}

} // verus!
