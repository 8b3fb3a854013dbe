use qad::ci::job::dag::Dag;
use qad::ci::job::env_parser::EnvMap;
use qad::ci::job::inspection::{JobProgress, JobProgressTracker};
use qad::ci::job::ports::CommandRunner;
use qad::ci::job::schedule::{initial_tracker, take_progress};
use qad::ci::job::{Job, Output, ProgressConsumer};
use std::cell::RefCell;

/// Runs `ok:`, `ko:` and `crash:` commands as their prefix says.
struct TestJobRunner {}

impl CommandRunner for TestJobRunner {
    fn run(&self, job: &str) -> Output {
        if let Some(stripped) = job.strip_prefix("ok:") {
            Output::Success(stripped.into(), "".into())
        } else if let Some(stripped) = job.strip_prefix("ko:") {
            Output::JobError(stripped.into(), "".into())
        } else if let Some(stripped) = job.strip_prefix("crash:") {
            Output::ProcessError(stripped.into())
        } else {
            panic!("Job should begin with ok:, ko, or crash: (actual: '{}')", job)
        }
    }
}

/// Keeps the progress that jobs report.
#[derive(Default)]
struct Collector {
    steps: RefCell<Vec<JobProgress>>,
}

impl ProgressConsumer for Collector {
    fn consume(&mut self, job_progress: JobProgress) {
        self.steps.borrow_mut().push(job_progress);
    }
}

/// Runs the jobs one after the other, as the scheduling hands them out.
fn schedule(jobs: &[Job]) -> JobProgressTracker {
    let mut dag = Dag::new(jobs, &[], &[], &EnvMap::new()).unwrap();
    let mut tracker = initial_tracker(&dag.enumerate());
    while !dag.is_finished() {
        let job = dag.poll().expect("a job is available");
        let mut collector = Collector::default();
        job.start(&TestJobRunner {}, &mut collector);
        for step in collector.steps.into_inner() {
            take_progress(&mut dag, &mut tracker, step);
        }
    }
    tracker.finish();
    tracker
}

fn job(name: &str, instructions: &[&str]) -> Job {
    Job::long(name.to_string(), instructions.iter().map(|i| i.to_string()).collect(), None, None)
}

#[test]
pub fn every_job_is_initialisated() {
    let result = schedule(&[job("a", &["ok: result"])]);
    assert!(!result.has_failed);
    assert_eq!(result.states["a"].progresses.len(), 4);
}

#[test]
pub fn one_job_failure_fails_scheduling() {
    let result = schedule(&[job("c", &["ko: result"])]);
    assert!(result.has_failed);
}

#[test]
pub fn one_job_crash_fails_scheduling() {
    let result = schedule(&[job("c", &["crash: result"])]);
    assert!(result.has_failed);
}
