//! A pipeline of named jobs, each one instruction, handed to a scheduler.
use vstd::prelude::*;

verus! {

/// How a job went: its output when it ran, with or without success, or
/// why it could not run.
#[derive(Debug, PartialEq, Eq)]
pub enum JobOutput {
    Success(String),
    JobError(String),
    ProcessError(String),
}

impl Clone for JobOutput {
    fn clone(&self) -> (r: Self)
        ensures
            r == *self,
    {
        match self {
            JobOutput::Success(s) => JobOutput::Success(s.clone()),
            JobOutput::JobError(s) => JobOutput::JobError(s.clone()),
            JobOutput::ProcessError(s) => JobOutput::ProcessError(s.clone()),
        }
    }
}

impl JobOutput {
    /// The job did not succeed.
    pub fn failed(&self) -> (r: bool)
        ensures
            r == !(self is Success),
    {
        !matches!(self, JobOutput::Success(_))
    }
}

/// Runs the instruction of a job.
pub trait JobRunner {
    /// Whether running the instruction `job` may end in `out`: what an
    /// implementation tells of how it runs. Nothing is known of it by
    /// default.
    open spec fn runs(&self, job: Seq<char>, out: JobOutput) -> bool {
        true
    }

    /// Runs the instruction `job` and tells how it went.
    fn run(&self, job: &str) -> (r: JobOutput)
        ensures
            self.runs(job@, r);
}

/// A job: a name and one instruction.
#[derive(Debug, PartialEq, Eq, Hash)]
pub struct Job {
    pub name: String,
    instruction: String,
}

impl Clone for Job {
    fn clone(&self) -> (r: Self)
        ensures
            r.name_view() == self.name_view(),
            r.instruction() == self.instruction(),
    {
        Job { name: self.name.clone(), instruction: self.instruction.clone() }
    }
}

impl Job {
    /// The name.
    pub closed spec fn name_view(&self) -> Seq<char> {
        self.name@
    }

    /// The instruction.
    pub closed spec fn instruction(&self) -> Seq<char> {
        self.instruction@
    }

    /// Runs the instruction with `runner`, which tells how it went.
    pub fn start<R: JobRunner>(&self, runner: &R) -> (r: JobOutput)
        ensures
            runner.runs(self.instruction(), r),
    {
        runner.run(self.instruction.as_str())
    }
}

/// Where a job stands.
#[derive(Debug, PartialEq, Eq)]
pub enum Progress {
    Awaiting,
    Started,
    Terminated(JobOutput),
}

impl Progress {
    /// The job ended without success.
    pub fn failed(&self) -> (r: bool)
        ensures
            r == match self {
                Progress::Terminated(out) => !(out is Success),
                _ => false,
            },
    {
        match self {
            Progress::Terminated(job_output) => job_output.failed(),
            _ => false,
        }
    }

    /// The job waits or runs.
    pub fn is_pending(&self) -> (r: bool)
        ensures
            r == (self is Awaiting || self is Started),
    {
        matches!(*self, Progress::Awaiting | Progress::Started)
    }
}

/// The jobs of a pipeline, in order.
pub struct Pipeline {
    jobs: Vec<Job>,
}

/// The jobs of a pipeline, by name and instruction.
pub type JobsView = Seq<(Seq<char>, Seq<char>)>;

/// The jobs handed to a scheduler, by name and instruction.
pub open spec fn jobs_view(jobs: Seq<Job>) -> JobsView {
    jobs.map_values(|j: Job| (j.name_view(), j.instruction()))
}

/// Runs the jobs of a pipeline; fails when some job failed.
pub trait JobScheduler {
    /// Whether the scheduler keeps a log of what it was handed
    /// (`scheduled`); none is kept unless an implementation says so.
    open spec fn keeps_log(&self) -> bool {
        false
    }

    /// Each set of jobs handed to the scheduler so far, in order, with what
    /// the scheduling of it answered, when a log is kept.
    open spec fn scheduled(&self) -> Seq<(JobsView, Result<(), ()>)> {
        Seq::empty()
    }

    /// Runs `jobs`; fails when some job failed. A scheduler that keeps a log
    /// adds the jobs and its answer at the end.
    fn schedule(&mut self, jobs: &[Job]) -> (r: Result<(), ()>)
        ensures
            final(self).keeps_log() == old(self).keeps_log(),
            old(self).keeps_log() ==> final(self).scheduled() == old(self).scheduled().push((jobs_view(jobs@), r));
}

impl Pipeline {
    /// The jobs, by name and instruction.
    pub closed spec fn jobs(&self) -> JobsView {
        jobs_view(self.jobs@)
    }

    /// Hands the jobs, in the order in which they were pushed, to
    /// `scheduler` and answers what it answered; the jobs of the pipeline
    /// stay as they are.
    pub fn run<S: JobScheduler>(&mut self, scheduler: &mut S) -> (r: Result<(), ()>)
        ensures
            final(self).jobs() == old(self).jobs(),
            final(scheduler).keeps_log() == old(scheduler).keeps_log(),
            old(scheduler).keeps_log() ==> final(scheduler).scheduled() == old(scheduler).scheduled().push((old(self).jobs(), r)),
    {
        scheduler.schedule(self.jobs.as_slice())
    }

    /// Adds the job `key` that runs `instruction`.
    pub fn push(&mut self, key: String, instruction: String)
        ensures
            final(self).jobs() == old(self).jobs().push((key@, instruction@)),
    {
        let ghost before = self.jobs@;
        self.jobs.push(Job { name: key, instruction });
        assert(self.jobs() =~= jobs_view(before).push((key@, instruction@)));
    }

    /// A pipeline with no job.
    pub fn new() -> (r: Pipeline)
        ensures
            r.jobs() == Seq::<(Seq<char>, Seq<char>)>::empty(),
    {
        let r = Pipeline { jobs: Vec::new() };
        assert(r.jobs() =~= Seq::<(Seq<char>, Seq<char>)>::empty());
        r
    }
}

/// Jobs pushed one after the other onto a new pipeline are its jobs, in
/// push order, duplicates kept: when `pipelines[0]` is new (`Pipeline::new`)
/// and each next one is the one before after `push` of the next of `pushed`,
/// the last holds `pushed`; `run` then hands exactly these, in this order, to
/// one call of the scheduler and answers what it answered (see `run`).
pub proof fn lemma_pushed_in_order(pipelines: Seq<Pipeline>, pushed: JobsView)
    requires
        pipelines.len() == pushed.len() + 1,
        pipelines[0].jobs() == JobsView::empty(),
        forall|k: int| 0 <= k < pushed.len() ==> #[trigger] pipelines[k + 1].jobs() == pipelines[k].jobs().push(pushed[k]),
    ensures
        pipelines[pushed.len() as int].jobs() == pushed,
{
    lemma_pushed_prefix(pipelines, pushed, pushed.len());
    assert(pushed.take(pushed.len() as int) =~= pushed);
}

/// After `k` pushes, the pipeline holds the first `k` jobs pushed.
proof fn lemma_pushed_prefix(pipelines: Seq<Pipeline>, pushed: JobsView, k: nat)
    requires
        pipelines.len() == pushed.len() + 1,
        pipelines[0].jobs() == JobsView::empty(),
        forall|j: int| 0 <= j < pushed.len() ==> #[trigger] pipelines[j + 1].jobs() == pipelines[j].jobs().push(pushed[j]),
        k <= pushed.len(),
    ensures
        pipelines[k as int].jobs() == pushed.take(k as int),
    decreases k,
{
    if k == 0 {
        assert(pushed.take(0) =~= JobsView::empty());
    } else {
        lemma_pushed_prefix(pipelines, pushed, (k - 1) as nat);
        assert(pipelines[(k - 1) + 1].jobs() == pipelines[k - 1].jobs().push(pushed[k - 1]));
        assert(pushed.take(k as int) =~= pushed.take(k - 1).push(pushed[k - 1]));
    }
}

/// Where the job `job_name` stands.
pub struct JobProgress {
    pub job_name: String,
    pub progress: Progress,
}

impl JobProgress {
    /// The job `job` stands at `progress`.
    pub fn new(job: String, progress: Progress) -> (r: Self)
        ensures
            r.job_name == job,
            r.progress == progress,
    {
        JobProgress { job_name: job, progress }
    }

    /// The job ended without success.
    pub fn failed(&self) -> (r: bool)
        ensures
            r == match self.progress {
                Progress::Terminated(out) => !(out is Success),
                _ => false,
            },
    {
        self.progress.failed()
    }
}

} // verus!
