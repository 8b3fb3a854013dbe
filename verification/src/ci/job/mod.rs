//! Jobs, the outputs of their commands, and the progress they report.
use vstd::prelude::*;
use crate::ci::job::container_configuration::{ContainerConfiguration, DockerModel, command_of};
use crate::names::names_view;
use crate::ci::job::env_parser::EnvMap;
use crate::ci::job::inspection::JobProgress;
use crate::ci::job::ports::CommandRunner;

pub mod constraint_matrix;
pub mod container_configuration;
pub mod dag;
pub mod docker;
pub mod docker_job;
pub mod env_bag;
pub mod env_parser;
pub mod inspection;
pub mod instruction_interpreter;
pub mod instruction_parser;
pub mod job_output;
pub mod ports;
pub mod schedule;
pub mod shell_interpreter;
pub mod simple;
pub mod simple_job;
pub mod state;

verus! {

/// How a command went: its standard output and error when it ran (with or
/// without success), or why it could not run.
#[derive(Debug, PartialEq, Eq)]
pub enum Output {
    Success(String, String),
    JobError(String, String),
    ProcessError(String),
}

impl Clone for Output {
    fn clone(&self) -> (r: Self)
        ensures
            r == *self,
    {
        match self {
            Output::Success(a, b) => Output::Success(a.clone(), b.clone()),
            Output::JobError(a, b) => Output::JobError(a.clone(), b.clone()),
            Output::ProcessError(a) => Output::ProcessError(a.clone()),
        }
    }
}

impl Output {
    /// The command ran and succeeded.
    pub fn succeeded(&self) -> (r: bool)
        ensures
            r == (self is Success),
    {
        matches!(self, Output::Success(_, _))
    }
}

/// Receives the progress that jobs report.
pub trait ProgressConsumer {
    /// Whether the consumer keeps a log of the steps it receives
    /// (`received`); none is kept unless an implementation says so.
    open spec fn keeps_log(&self) -> bool {
        false
    }

    /// The steps received so far, in order, each with the name of its job,
    /// when a log is kept.
    open spec fn received(&self) -> Seq<(Seq<char>, Progress)> {
        Seq::empty()
    }

    /// Receives a step of a job: a consumer that keeps a log adds it at the
    /// end.
    fn consume(&mut self, job_progress: JobProgress)
        ensures
            final(self).keeps_log() == old(self).keeps_log(),
            old(self).keeps_log() ==> final(self).received() == old(self).received().push(
                (job_progress.name_view(), job_progress.progress_view()),
            );
}

/// A consumer that keeps each step it receives, in order.
pub struct ProgressLog {
    pub steps: Vec<JobProgress>,
}

impl ProgressLog {
    /// A log with no step yet.
    pub fn new() -> (r: Self)
        ensures
            r.received() == Seq::<(Seq<char>, Progress)>::empty(),
    {
        let r = ProgressLog { steps: Vec::new() };
        assert(r.received() =~= Seq::<(Seq<char>, Progress)>::empty());
        r
    }
}

impl ProgressConsumer for ProgressLog {
    open spec fn keeps_log(&self) -> bool {
        true
    }

    open spec fn received(&self) -> Seq<(Seq<char>, Progress)> {
        self.steps@.map_values(|p: JobProgress| (p.name_view(), p.progress_view()))
    }

    fn consume(&mut self, job_progress: JobProgress) {
        let ghost before = self.steps@;
        self.steps.push(job_progress);
        assert(self.received() =~= before.map_values(|p: JobProgress| (p.name_view(), p.progress_view())).push(
            (job_progress.name_view(), job_progress.progress_view()),
        ));
    }
}

/// A step in the life of a job.
#[derive(Debug, PartialEq, Eq)]
pub enum Progress {
    Available,
    Blocked(Vec<String>),
    Cancelled,
    Started(String),
    Partial(String, Output),
    Skipped,
    Terminated(bool),
}

impl Progress {
    /// This step tells of a failure: a command that failed or could not run,
    /// or a job that ended in failure.
    pub open spec fn is_failure(&self) -> bool {
        match self {
            Progress::Partial(_, out) => !(out is Success),
            Progress::Terminated(ok) => !*ok,
            _ => false,
        }
    }

    /// Whether this step tells of a failure.
    pub fn failed(&self) -> (r: bool)
        ensures
            r == self.is_failure(),
    {
        match self {
            Progress::Partial(_, out) => !out.succeeded(),
            Progress::Terminated(ok) => !*ok,
            _ => false,
        }
    }
}

/// What a job is made of: its name, group, container, instructions and the
/// condition under which it is skipped.
pub type JobModel = (
    Seq<char>,
    Option<Seq<char>>,
    Option<DockerModel>,
    Seq<Seq<char>>,
    Option<Seq<char>>,
);

/// The characters of an optional string.
pub open spec fn opt_view(o: Option<String>) -> Option<Seq<char>> {
    match o {
        Some(s) => Some(s@),
        None => None,
    }
}

/// The commands that run `instructions`, in order, under `container`.
pub(crate) fn compile_commands(container: &ContainerConfiguration, instructions: &Vec<String>) -> (r: Vec<String>)
    ensures
        names_view(r@) == names_view(instructions@).map_values(|i: Seq<char>| command_of(container@, i)),
{
    let mut r: Vec<String> = Vec::new();
    let mut i: usize = 0;
    while i < instructions.len()
        invariant
            i <= instructions.len(),
            names_view(r@) == names_view(instructions@).take(i as int).map_values(|x: Seq<char>| command_of(container@, x)),
        decreases instructions.len() - i,
    {
        let ghost before = r@;
        r.push(container.compile(instructions[i].as_str()));
        proof {
            assert(names_view(r@) =~= names_view(before).push(command_of(container@, instructions@[i as int]@)));
            assert(names_view(instructions@).take(i + 1) =~= names_view(instructions@).take(i as int).push(instructions@[i as int]@));
        }
        i = i + 1;
    }
    assert(names_view(instructions@).take(instructions.len() as int) =~= names_view(instructions@));
    r
}

/// The steps that the job `name` tells when its instructions, from the
/// first, gave `outputs`: each one started and its output, up to the first
/// that did not succeed; then the end, a success when none failed.
pub open spec fn run_steps(name: Seq<char>, instructions: Seq<String>, outputs: Seq<Output>) -> Seq<(Seq<char>, Progress)>
    decreases outputs.len(),
{
    if outputs.len() == 0 {
        seq![(name, Progress::Terminated(true))]
    } else {
        let told = seq![
            (name, Progress::Started(instructions[0])),
            (name, Progress::Partial(instructions[0], outputs[0])),
        ];
        if outputs[0] is Success {
            told + run_steps(name, instructions.drop_first(), outputs.drop_first())
        } else {
            told.push((name, Progress::Terminated(false)))
        }
    }
}

/// The steps that the job `name` tells: skipped when its skip condition ran
/// with success (`condition`), else those of its instructions.
pub open spec fn job_steps(
    name: Seq<char>,
    instructions: Seq<String>,
    condition: Option<Output>,
    outputs: Seq<Output>,
) -> Seq<(Seq<char>, Progress)> {
    if condition matches Some(o) && o is Success {
        seq![(name, Progress::Skipped), (name, Progress::Terminated(true))]
    } else {
        run_steps(name, instructions, outputs)
    }
}

/// `outputs` are those of the commands run out of `count`, when a run stops
/// at the first that does not succeed.
pub open spec fn stops_at_failure(count: int, outputs: Seq<Output>) -> bool {
    &&& outputs.len() <= count
    &&& forall|k: int| 0 <= k < outputs.len() - 1 ==> (#[trigger] outputs[k]) is Success
    &&& outputs.len() < count ==> outputs.len() > 0 && !(outputs.last() is Success)
}

/// How a run of a job may have gone with `runner`: its skip condition run,
/// if it has one, with the output `condition`; then, unless that succeeded,
/// its `commands` run in order until the first failure, with `outputs`.
pub open spec fn job_went<R: CommandRunner>(
    runner: &R,
    skip_if: Option<Seq<char>>,
    commands: Seq<Seq<char>>,
    condition: Option<Output>,
    outputs: Seq<Output>,
) -> bool {
    &&& match skip_if {
        None => condition is None,
        Some(c) => condition matches Some(o) && runner.runs(c, o),
    }
    &&& if condition matches Some(o) && o is Success {
        outputs.len() == 0
    } else {
        &&& stops_at_failure(commands.len() as int, outputs)
        &&& forall|k: int| 0 <= k < outputs.len() ==> #[trigger] runner.runs(commands[k], outputs[k])
    }
}

/// The steps received went from `before` to `after` by one run of the job
/// `name` with `runner`: its skip condition `skip_if`, its `instructions`,
/// run as `commands`.
pub open spec fn reports_run<R: CommandRunner>(
    runner: &R,
    name: Seq<char>,
    skip_if: Option<Seq<char>>,
    instructions: Seq<String>,
    commands: Seq<Seq<char>>,
    before: Seq<(Seq<char>, Progress)>,
    after: Seq<(Seq<char>, Progress)>,
) -> bool {
    exists|condition: Option<Output>, outputs: Seq<Output>|
        #[trigger] job_went(runner, skip_if, commands, condition, outputs)
        && after == before + job_steps(name, instructions, condition, outputs)
}

/// The started and told steps of the instructions that gave `outputs`.
spec fn told_steps(name: Seq<char>, instructions: Seq<String>, outputs: Seq<Output>) -> Seq<(Seq<char>, Progress)>
    decreases outputs.len(),
{
    if outputs.len() == 0 {
        Seq::empty()
    } else {
        seq![
            (name, Progress::Started(instructions[0])),
            (name, Progress::Partial(instructions[0], outputs[0])),
        ] + told_steps(name, instructions.drop_first(), outputs.drop_first())
    }
}

proof fn lemma_told_push(name: Seq<char>, instructions: Seq<String>, outputs: Seq<Output>, o: Output)
    requires
        outputs.len() < instructions.len(),
    ensures
        told_steps(name, instructions, outputs.push(o)) == told_steps(name, instructions, outputs) + seq![
            (name, Progress::Started(instructions[outputs.len() as int])),
            (name, Progress::Partial(instructions[outputs.len() as int], o)),
        ],
    decreases outputs.len(),
{
    if outputs.len() == 0 {
        assert(outputs.push(o).drop_first() =~= Seq::<Output>::empty());
        assert(told_steps(name, instructions.drop_first(), Seq::<Output>::empty()) == Seq::<(Seq<char>, Progress)>::empty());
    } else {
        lemma_told_push(name, instructions.drop_first(), outputs.drop_first(), o);
        assert(outputs.push(o).drop_first() =~= outputs.drop_first().push(o));
        assert(outputs.push(o)[0] == outputs[0]);
        let a = seq![
            (name, Progress::Started(instructions[0])),
            (name, Progress::Partial(instructions[0], outputs[0])),
        ];
        let rest = told_steps(name, instructions.drop_first(), outputs.drop_first());
        let b = seq![
            (name, Progress::Started(instructions[outputs.len() as int])),
            (name, Progress::Partial(instructions[outputs.len() as int], o)),
        ];
        assert(instructions.drop_first()[outputs.drop_first().len() as int] == instructions[outputs.len() as int]);
        assert(a + (rest + b) =~= (a + rest) + b);
    }
}

proof fn lemma_run_steps_end(name: Seq<char>, instructions: Seq<String>, outputs: Seq<Output>)
    requires
        forall|k: int| 0 <= k < outputs.len() - 1 ==> (#[trigger] outputs[k]) is Success,
    ensures
        run_steps(name, instructions, outputs) == told_steps(name, instructions, outputs).push(
            (name, Progress::Terminated(outputs.len() == 0 || outputs.last() is Success)),
        ),
    decreases outputs.len(),
{
    if outputs.len() == 0 {
        assert(told_steps(name, instructions, outputs).push((name, Progress::Terminated(true))) =~= seq![(name, Progress::Terminated(true))]);
    } else {
        let a = seq![
            (name, Progress::Started(instructions[0])),
            (name, Progress::Partial(instructions[0], outputs[0])),
        ];
        let rest = outputs.drop_first();
        if outputs[0] is Success {
            assert forall|k: int| 0 <= k < rest.len() - 1 implies (#[trigger] rest[k]) is Success by {
                assert(rest[k] == outputs[k + 1]);
            }
            lemma_run_steps_end(name, instructions.drop_first(), rest);
            if rest.len() > 0 {
                assert(rest.last() == outputs.last());
            }
            let t = told_steps(name, instructions.drop_first(), rest);
            let end = (name, Progress::Terminated(outputs.len() == 0 || outputs.last() is Success));
            assert(a + t.push(end) =~= (a + t).push(end));
        } else {
            assert(outputs.len() == 1);
            assert(rest.len() == 0);
            assert(a + told_steps(name, instructions.drop_first(), rest) =~= a);
        }
    }
}

/// Runs the instructions of the job `name` with `runner`, reporting its
/// progress to `consumer`: when the skip condition runs with success, the job
/// is skipped; otherwise each instruction is started, its command run and
/// reported, until one fails, and the job ends with the result of the last
/// one run.
pub(crate) fn run_instructions<R: CommandRunner, C: ProgressConsumer>(
    name: &str,
    skip_if: &Option<String>,
    instructions: &Vec<String>,
    commands: &Vec<String>,
    runner: &R,
    consumer: &mut C,
)
    requires
        commands@.len() == instructions@.len(),
    ensures
        final(consumer).keeps_log() == old(consumer).keeps_log(),
        old(consumer).keeps_log() ==> reports_run(
            runner,
            name@,
            opt_view(*skip_if),
            instructions@,
            names_view(commands@),
            old(consumer).received(),
            final(consumer).received(),
        ),
{
    let ghost before = consumer.received();
    let ghost cmds = names_view(commands@);
    let ghost mut condition: Option<Output> = None;
    if let Some(c) = skip_if {
        let out = runner.run(c.as_str());
        proof {
            condition = Some(out);
        }
        if out.succeeded() {
            consumer.consume(JobProgress::new(name, Progress::Skipped));
            consumer.consume(JobProgress::new(name, Progress::Terminated(true)));
            assert(job_went(runner, opt_view(*skip_if), cmds, condition, Seq::<Output>::empty()));
            proof {
                if old(consumer).keeps_log() {
                    assert(consumer.received() =~= before + job_steps(name@, instructions@, condition, Seq::<Output>::empty()));
                }
            }
            return;
        }
    }
    let ghost mut outputs: Seq<Output> = Seq::empty();
    let mut success = true;
    let mut i: usize = 0;
    while i < instructions.len() && success
        invariant
            i <= instructions.len(),
            commands@.len() == instructions@.len(),
            cmds == names_view(commands@),
            outputs.len() == i,
            forall|k: int| 0 <= k < outputs.len() - 1 ==> (#[trigger] outputs[k]) is Success,
            success == (outputs.len() == 0 || outputs.last() is Success),
            forall|k: int| 0 <= k < outputs.len() ==> #[trigger] runner.runs(cmds[k], outputs[k]),
            consumer.keeps_log() == old(consumer).keeps_log(),
            old(consumer).keeps_log() ==> consumer.received() == before + told_steps(name@, instructions@, outputs),
        decreases instructions.len() - i,
    {
        let instruction = &instructions[i];
        consumer.consume(JobProgress::new(name, Progress::Started(instruction.clone())));
        let output = runner.run(commands[i].as_str());
        success = output.succeeded();
        let ghost o = output;
        consumer.consume(JobProgress::new(name, Progress::Partial(instruction.clone(), output)));
        proof {
            lemma_told_push(name@, instructions@, outputs, o);
            let ghost prev = outputs;
            outputs = outputs.push(o);
            assert(cmds[i as int] == commands@[i as int]@);
            assert forall|k: int| 0 <= k < outputs.len() - 1 implies (#[trigger] outputs[k]) is Success by {
                assert(outputs[k] == prev[k]);
                if k < prev.len() - 1 {
                    assert(prev[k] is Success);
                } else {
                    assert(k == prev.len() - 1);
                    assert(prev.last() is Success);
                }
            }
            assert forall|k: int| 0 <= k < outputs.len() implies #[trigger] runner.runs(cmds[k], outputs[k]) by {
                if k < prev.len() {
                    assert(outputs[k] == prev[k]);
                }
            }
        }
        i = i + 1;
    }
    consumer.consume(JobProgress::new(name, Progress::Terminated(success)));
    proof {
        lemma_run_steps_end(name@, instructions@, outputs);
        assert(stops_at_failure(instructions@.len() as int, outputs));
        assert(job_went(runner, opt_view(*skip_if), cmds, condition, outputs));
        if old(consumer).keeps_log() {
            assert(consumer.received() =~= before + job_steps(name@, instructions@, condition, outputs));
        }
    }
}

/// A job: instructions run one after the other, maybe in a container.
#[derive(Debug)]
pub struct Job {
    name: String,
    group: Option<String>,
    container: ContainerConfiguration,
    instructions: Vec<String>,
    skip_if: Option<String>,
}

impl View for Job {
    type V = JobModel;

    closed spec fn view(&self) -> JobModel {
        (
            self.name@,
            opt_view(self.group),
            self.container@,
            self.instructions@.map_values(|s: String| s@),
            opt_view(self.skip_if),
        )
    }
}

fn clone_opt(o: &Option<String>) -> (r: Option<String>)
    ensures
        opt_view(r) == opt_view(*o),
{
    match o {
        Some(s) => Some(s.clone()),
        None => None,
    }
}

impl Clone for Job {
    fn clone(&self) -> (r: Self)
        ensures
            r@ == self@,
    {
        let r = Job {
            name: self.name.clone(),
            group: clone_opt(&self.group),
            container: self.container.clone(),
            instructions: self.instructions.clone(),
            skip_if: clone_opt(&self.skip_if),
        };
        assert(r.instructions@ =~= self.instructions@);
        r
    }
}

impl Job {
    /// The job's name.
    pub open spec fn name_view(&self) -> Seq<char> {
        self@.0
    }

    /// The job's group.
    pub open spec fn group_view(&self) -> Option<Seq<char>> {
        self@.1
    }

    /// The job's name.
    pub fn name(&self) -> (r: &str)
        ensures
            r@ == self.name_view(),
    {
        self.name.as_str()
    }

    /// Hands every variable of `env` on to the job's container, if it has one.
    pub fn forward_env(&mut self, env: &EnvMap)
        ensures
            final(self)@.0 == old(self)@.0,
            final(self)@.1 == old(self)@.1,
            final(self)@.3 == old(self)@.3,
            final(self)@.4 == old(self)@.4,
            old(self)@.2 is None ==> final(self)@.2 is None,
            old(self)@.2 is Some ==> final(self)@.2 == Some((
                old(self)@.2.unwrap().0,
                old(self)@.2.unwrap().1 + env.keys_view(),
                old(self)@.2.unwrap().2,
                old(self)@.2.unwrap().3,
                old(self)@.2.unwrap().4,
            )),
    {
        match &mut self.container {
            ContainerConfiguration::Container(container) => {
                let keys = env.keys();
                let mut i: usize = 0;
                while i < keys.len()
                    invariant
                        i <= keys.len(),
                        keys@.map_values(|s: String| s@) == env.keys_view(),
                        container@.0 == old(self).container@.unwrap().0,
                        container@.1 == old(self).container@.unwrap().1 + env.keys_view().take(i as int),
                        container@.2 == old(self).container@.unwrap().2,
                        container@.3 == old(self).container@.unwrap().3,
                        container@.4 == old(self).container@.unwrap().4,
                    decreases keys.len() - i,
                {
                    container.forward_env(keys[i].as_str());
                    proof {
                        assert(env.keys_view().take(i + 1) =~= env.keys_view().take(i as int).push(keys@[i as int]@));
                    }
                    i = i + 1;
                }
                assert(env.keys_view().take(keys.len() as int) =~= env.keys_view());
            },
            ContainerConfiguration::NoContainer => {},
        }
    }

    /// The job's group, if it has one.
    pub fn group(&self) -> (r: Option<&str>)
        ensures
            match r {
                Some(g) => self.group_view() == Some(g@),
                None => self.group_view() is None,
            },
    {
        match &self.group {
            Some(g) => Some(g.as_str()),
            None => None,
        }
    }

    /// The commands that run the instructions, in order, under the job's
    /// container configuration.
    pub fn commands(&self) -> (r: Vec<String>)
        ensures
            names_view(r@) == self@.3.map_values(|i: Seq<char>| command_of(self@.2, i)),
    {
        compile_commands(&self.container, &self.instructions)
    }

    /// The instructions as they are written.
    pub closed spec fn instruction_texts(&self) -> Seq<String> {
        self.instructions@
    }

    /// Runs the job with `runner`, reporting its progress to `consumer` (see
    /// `run_instructions`), each instruction run as its command (`commands`).
    pub fn start<R: CommandRunner, C: ProgressConsumer>(&self, runner: &R, consumer: &mut C)
        ensures
            names_view(self.instruction_texts()) == self@.3,
            final(consumer).keeps_log() == old(consumer).keeps_log(),
            old(consumer).keeps_log() ==> reports_run(
                runner,
                self.name_view(),
                self@.4,
                self.instruction_texts(),
                self@.3.map_values(|i: Seq<char>| command_of(self@.2, i)),
                old(consumer).received(),
                final(consumer).received(),
            ),
    {
        let commands = self.commands();
        assert(names_view(commands@).len() == commands@.len());
        assert(self@.3.len() == self.instructions@.len());
        run_instructions(self.name.as_str(), &self.skip_if, &self.instructions, &commands, runner, consumer);
    }

    /// A job that runs its instructions directly.
    pub fn long(
        name: String,
        instructions: Vec<String>,
        group: Option<String>,
        skip_if: Option<String>,
    ) -> (r: Self)
        ensures
            r@ == (
                name@,
                opt_view(group),
                None::<DockerModel>,
                instructions@.map_values(|s: String| s@),
                opt_view(skip_if),
            ),
    {
        Self { name, group, container: ContainerConfiguration::NoContainer, instructions, skip_if }
    }

    /// A job whose instructions run under `container`.
    pub fn new(
        name: String,
        instructions: Vec<String>,
        container: ContainerConfiguration,
        group: Option<String>,
        skip_if: Option<String>,
    ) -> (r: Self)
        ensures
            r@ == (
                name@,
                opt_view(group),
                container@,
                instructions@.map_values(|s: String| s@),
                opt_view(skip_if),
            ),
    {
        Self { name, group, container, instructions, skip_if }
    }
}

} // verus!
