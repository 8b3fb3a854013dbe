use qad::ci::logic::job::{Job, JobOutput, JobProgress, JobRunner, JobScheduler, Pipeline, Progress};
use std::collections::HashMap;

struct NaiveScheduler {
    pub states: HashMap<Job, Progress>,
}

impl JobScheduler for NaiveScheduler {
    fn schedule(&mut self, jobs: &[Job]) -> Result<(), ()> {
        let mut err = false;
        for job in jobs {
            self.states.insert(job.clone(), Progress::Awaiting);
            self.states.insert(job.clone(), Progress::Started);
            let res = job.start(&FakeJobRunner::new(JobOutput::Success("Ok".into())));
            err |= res.failed();
            self.states.insert(job.clone(), Progress::Terminated(res)).unwrap();
        }
        if err {
            Err(())
        } else {
            Ok(())
        }
    }
}

impl NaiveScheduler {
    fn new() -> NaiveScheduler {
        NaiveScheduler { states: HashMap::new() }
    }
}

struct FakeJobRunner {
    out: JobOutput,
}

impl FakeJobRunner {
    fn new(out: JobOutput) -> FakeJobRunner {
        FakeJobRunner { out }
    }
}

impl JobRunner for FakeJobRunner {
    fn run(&self, job: &str) -> JobOutput {
        match &self.out {
            JobOutput::Success(item) => JobOutput::Success(format!("{}:{}", job, item.clone())),
            JobOutput::JobError(item) => JobOutput::JobError(format!("{}:{}", job, item.clone())),
            JobOutput::ProcessError(item) => JobOutput::ProcessError(format!("{}:{}", job, item.clone())),
        }
    }
}

#[test]
pub fn all_jobs_are_ran() {
    let mut pipeline = Pipeline::new();
    pipeline.push("first".into(), "first".into());
    pipeline.push("second".into(), "second".into());
    pipeline.push("third".into(), "third".into());
    pipeline.push("fourth".into(), "fourth".into());

    let mut scheduler = NaiveScheduler::new();
    pipeline.run(&mut scheduler).unwrap();

    let mut job_count = 0;
    for (job, status) in scheduler.states {
        assert_eq!(status, Progress::Terminated(JobOutput::Success(format!("{}:Ok", job.name))));
        job_count += 1;
    }
    assert_eq!(job_count, 4)
}

#[test]
pub fn outputs_and_progress() {
    assert!(!JobOutput::Success(String::new()).failed());
    assert!(JobOutput::JobError(String::new()).failed());
    assert!(Progress::Awaiting.is_pending());
    assert!(!Progress::Terminated(JobOutput::Success(String::new())).is_pending());
    let p = JobProgress::new("j".to_string(), Progress::Terminated(JobOutput::ProcessError(String::new())));
    assert!(p.failed());
    assert_eq!(p.job_name, "j");
}
