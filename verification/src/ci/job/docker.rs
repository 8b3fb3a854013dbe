//! A job whose instructions run in a container, as first described.
use vstd::prelude::*;
use crate::ci::job::{opt_view, reports_run, run_instructions, ProgressConsumer};
use crate::ci::job::env_parser::EnvMap;
use crate::ci::job::ports::CommandRunner;
use crate::names::names_view;
use crate::text::{copy_str, join, join_strings};

verus! {

/// The start of a command that runs in a fresh container as the calling
/// user, in the current directory, which is mounted.
pub open spec fn docker_run() -> Seq<char> {
    "docker run --rm --user \"$USER_ID:$GROUP_ID\" --volume \"$PWD:$PWD\" --workdir \"$PWD\""@
}

/// `--env "KEY=$KEY"` for each variable, separated by spaces.
pub open spec fn env_options(keys: Seq<Seq<char>>) -> Seq<char> {
    join(keys.map_values(|k: Seq<char>| "--env \""@ + k + "=$"@ + k + "\""@), " "@)
}

/// The command that runs `instruction` in a container of `image`, with the
/// variables `keys` handed on to it.
pub open spec fn container_line(keys: Seq<Seq<char>>, image: Seq<char>, instruction: Seq<char>) -> Seq<char> {
    docker_run() + " "@ + env_options(keys) + " "@ + image + " "@ + instruction
}

/// The options that hand the variables `keys` on to a container.
pub fn env_line(keys: &Vec<String>) -> (r: String)
    ensures
        r@ == env_options(names_view(keys@)),
{
    let mut options: Vec<String> = Vec::new();
    let mut i: usize = 0;
    while i < keys.len()
        invariant
            i <= keys.len(),
            names_view(options@) == names_view(keys@).take(i as int).map_values(|k: Seq<char>|
                "--env \""@ + k + "=$"@ + k + "\""@),
        decreases keys.len() - i,
    {
        let mut option = copy_str("--env \"");
        option.append(keys[i].as_str());
        option.append("=$");
        option.append(keys[i].as_str());
        option.append("\"");
        let ghost before = options@;
        options.push(option);
        proof {
            reveal_strlit("--env \"");
            reveal_strlit("=$");
            reveal_strlit("\"");
            assert(names_view(options@) =~= names_view(before).push("--env \""@ + keys@[i as int]@ + "=$"@ + keys@[i as int]@ + "\""@));
            assert(names_view(keys@).take(i + 1) =~= names_view(keys@).take(i as int).push(keys@[i as int]@));
        }
        i = i + 1;
    }
    assert(names_view(keys@).take(keys.len() as int) =~= names_view(keys@));
    assert(options@.map_values(|s: String| s@) =~= names_view(options@));
    join_strings(&options, " ")
}

/// The commands that run `instructions` in a container of `image`, with the
/// variables `keys` handed on to it.
pub(crate) fn container_commands(keys: &Vec<String>, image: &str, instructions: &Vec<String>) -> (r: Vec<String>)
    ensures
        names_view(r@) == names_view(instructions@).map_values(|i: Seq<char>| container_line(names_view(keys@), image@, i)),
{
    let env = env_line(keys);
    let mut r: Vec<String> = Vec::new();
    let mut i: usize = 0;
    while i < instructions.len()
        invariant
            i <= instructions.len(),
            env@ == env_options(names_view(keys@)),
            names_view(r@) == names_view(instructions@).take(i as int).map_values(|x: Seq<char>|
                container_line(names_view(keys@), image@, x)),
        decreases instructions.len() - i,
    {
        let mut line = copy_str("docker run --rm --user \"$USER_ID:$GROUP_ID\" --volume \"$PWD:$PWD\" --workdir \"$PWD\"");
        line.append(" ");
        line.append(env.as_str());
        line.append(" ");
        line.append(image);
        line.append(" ");
        line.append(instructions[i].as_str());
        let ghost before = r@;
        r.push(line);
        proof {
            reveal_strlit(" ");
            assert(names_view(r@) =~= names_view(before).push(container_line(names_view(keys@), image@, instructions@[i as int]@)));
            assert(names_view(instructions@).take(i + 1) =~= names_view(instructions@).take(i as int).push(instructions@[i as int]@));
        }
        i = i + 1;
    }
    assert(names_view(instructions@).take(instructions.len() as int) =~= names_view(instructions@));
    r
}

/// A job whose instructions run in a container of `image`, with the
/// variables named in `env` handed on to it.
#[derive(Debug, PartialEq, Eq, Hash)]
pub struct Docker {
    name: String,
    group: Option<String>,
    image: String,
    instructions: Vec<String>,
    env: Vec<String>,
    skip_if: Option<String>,
}

/// What such a job is made of: its name, group, image, instructions,
/// variables and skip condition.
pub type DockerJobModel = (Seq<char>, Option<Seq<char>>, Seq<char>, Seq<Seq<char>>, Seq<Seq<char>>, Option<Seq<char>>);

impl View for Docker {
    type V = DockerJobModel;

    closed spec fn view(&self) -> DockerJobModel {
        (self.name@, opt_view(self.group), self.image@, names_view(self.instructions@), names_view(self.env@), opt_view(self.skip_if))
    }
}

impl Docker {
    /// A job that runs `instructions` in a container of `image`, with no
    /// variable handed on yet.
    pub fn long(name: String, instructions: Vec<String>, image: String, group: Option<String>, skip_if: Option<String>) -> (r: Self)
        ensures
            r@ == (name@, opt_view(group), image@, names_view(instructions@), Seq::<Seq<char>>::empty(), opt_view(skip_if)),
    {
        let r = Self { name, instructions, image, group, env: Vec::new(), skip_if };
        assert(names_view(r.env@) =~= Seq::<Seq<char>>::empty());
        r
    }

    /// The job's name.
    pub fn name(&self) -> (r: &str)
        ensures
            r@ == self@.0,
    {
        self.name.as_str()
    }

    /// The job's group, if it has one.
    pub fn group(&self) -> (r: Option<&str>)
        ensures
            match r {
                Some(g) => self@.1 == Some(g@),
                None => self@.1 is None,
            },
    {
        match &self.group {
            Some(g) => Some(g.as_str()),
            None => None,
        }
    }

    /// Hands every variable of `env` on to the container, after those
    /// handed on already.
    pub fn forward_env(&mut self, env: &EnvMap)
        ensures
            final(self)@ == (old(self)@.0, old(self)@.1, old(self)@.2, old(self)@.3, old(self)@.4 + env.keys_view(), old(self)@.5),
    {
        let keys = env.keys();
        let mut i: usize = 0;
        while i < keys.len()
            invariant
                i <= keys.len(),
                names_view(keys@) == env.keys_view(),
                self@ == (old(self)@.0, old(self)@.1, old(self)@.2, old(self)@.3, old(self)@.4 + env.keys_view().take(i as int), old(self)@.5),
            decreases keys.len() - i,
        {
            let ghost before = self.env@;
            self.env.push(keys[i].clone());
            proof {
                assert(names_view(self.env@) =~= names_view(before).push(keys@[i as int]@));
                assert(env.keys_view().take(i + 1) =~= env.keys_view().take(i as int).push(keys@[i as int]@));
            }
            i = i + 1;
        }
        assert(env.keys_view().take(keys.len() as int) =~= env.keys_view());
    }

    /// The commands that run the instructions, in order, in a container of
    /// the image with the variables handed on.
    pub fn commands(&self) -> (r: Vec<String>)
        ensures
            names_view(r@) == self@.3.map_values(|i: Seq<char>| container_line(self@.4, self@.2, i)),
    {
        container_commands(&self.env, self.image.as_str(), &self.instructions)
    }

    /// The instructions as they are written.
    pub closed spec fn instruction_texts(&self) -> Seq<String> {
        self.instructions@
    }

    /// Runs the job with `runner`, reporting its progress to `consumer`, each
    /// instruction run as its command (`commands`); a job whose skip condition
    /// runs with success is skipped.
    pub fn start<R: CommandRunner, C: ProgressConsumer>(&self, runner: &R, consumer: &mut C)
        ensures
            names_view(self.instruction_texts()) == self@.3,
            final(consumer).keeps_log() == old(consumer).keeps_log(),
            old(consumer).keeps_log() ==> reports_run(
                runner,
                self@.0,
                self@.5,
                self.instruction_texts(),
                self@.3.map_values(|i: Seq<char>| container_line(self@.4, self@.2, i)),
                old(consumer).received(),
                final(consumer).received(),
            ),
    {
        let commands = self.commands();
        assert(names_view(commands@).len() == commands@.len());
        assert(self@.3.len() == self.instructions@.len());
        run_instructions(self.name.as_str(), &self.skip_if, &self.instructions, &commands, runner, consumer);
    }
}

} // verus!
