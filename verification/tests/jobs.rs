use qad::ci::job::container_configuration::{ContainerConfiguration, DockerContainer};
use qad::ci::job::env_parser::EnvMap;
use qad::ci::job::inspection::{InstructionState, JobProgress, JobProgressTracker, ProgressCollector};
use qad::ci::job::ports::CommandRunner;
use qad::ci::job::docker::Docker;
use qad::ci::job::docker_job::DockerJob;
use qad::ci::job::simple::Simple;
use qad::ci::job::simple_job::SimpleJob;
use qad::ci::job::{Job, Output, Progress, ProgressConsumer, ProgressLog};
use std::cell::RefCell;

#[test]
fn parse() {
    let container = DockerContainer::with_env(
        "rust:latest",
        "$USER_ID:$GROUP_ID",
        "$PWD",
        &["PWD:PWD:rw".to_string()],
        &["CHANGED_FILES".to_string(), "HAS_RUST".to_string()],
    );

    assert_eq!(
        r#"docker run --rm --user "$USER_ID:$GROUP_ID" --volume "PWD:PWD:rw" --workdir "$PWD" --env "CHANGED_FILES" --env "HAS_RUST" rust:latest cargo fmt"#,
        &ContainerConfiguration::Container(container).compile("cargo fmt")
    );
}

#[test]
fn no_container_runs_instruction_as_is() {
    assert_eq!("make", ContainerConfiguration::NoContainer.compile("make"));
}

#[test]
fn forward_env_reaches_container() {
    let container = DockerContainer::new("img", "u", "w", &[]);
    let mut job = Job::new("j".to_string(), vec![], ContainerConfiguration::Container(container), None, None);
    let mut env = EnvMap::new();
    env.insert("KEY".to_string(), vec!["v".to_string()]);
    job.forward_env(&env);
    let mut plain = Job::long("k".to_string(), vec![], Some("g".to_string()), None);
    plain.forward_env(&env);
    assert_eq!(Some("g"), plain.group());
    assert_eq!("j", job.name());
}

struct Runner;

impl CommandRunner for Runner {
    fn run(&self, args: &str) -> Output {
        if args.starts_with("ok") {
            Output::Success(args.to_string(), String::new())
        } else {
            Output::JobError(String::new(), args.to_string())
        }
    }
}

struct Collect {
    seen: RefCell<Vec<String>>,
}

impl ProgressConsumer for Collect {
    fn consume(&mut self, job_progress: JobProgress) {
        let what = match &job_progress.1 {
            Progress::Started(i) => format!("start {i}"),
            Progress::Partial(i, o) => format!("done {i} {}", o.succeeded()),
            Progress::Terminated(ok) => format!("end {ok}"),
            Progress::Skipped => "skip".to_string(),
            _ => "other".to_string(),
        };
        self.seen.borrow_mut().push(what);
    }
}

#[test]
fn job_stops_at_first_failure() {
    let job = Job::long("j".to_string(), vec!["ok 1".to_string(), "ko 2".to_string(), "ok 3".to_string()], None, None);
    let mut consumer = Collect { seen: RefCell::new(vec![]) };
    job.start(&Runner, &mut consumer);
    assert_eq!(
        consumer.seen.into_inner(),
        vec!["start ok 1", "done ok 1 true", "start ko 2", "done ko 2 false", "end false"]
    );
}

#[test]
fn job_is_skipped_when_condition_holds() {
    let job = Job::long("j".to_string(), vec!["ko".to_string()], None, Some("ok".to_string()));
    let mut consumer = Collect { seen: RefCell::new(vec![]) };
    job.start(&Runner, &mut consumer);
    assert_eq!(consumer.seen.into_inner(), vec!["skip", "end true"]);
}

#[test]
fn progress_failures() {
    assert!(Progress::Terminated(false).failed());
    assert!(!Progress::Terminated(true).failed());
    assert!(Progress::Partial("x".to_string(), Output::ProcessError("e".to_string())).failed());
    assert!(!Progress::Partial("x".to_string(), Output::Success(String::new(), String::new())).failed());
    assert!(JobProgress::cancel("a".to_string()).name() == "a");
    assert!(!JobProgress::cancel("a".to_string()).failed());
}

#[test]
fn collector_lists_instructions() {
    let collector = ProgressCollector {
        progresses: vec![
            Progress::Available,
            Progress::Started("a".to_string()),
            Progress::Partial("a".to_string(), Output::Success(String::new(), String::new())),
            Progress::Started("b".to_string()),
        ],
    };
    let list = collector.instruction_list();
    assert_eq!(list.len(), 2);
    assert!(matches!(&list[0], InstructionState::Finished(i, true) if i == "a"));
    assert!(matches!(&list[1], InstructionState::Running(i) if i == "b"));
    assert_eq!(collector.terminated(), None);
}

#[test]
fn tracker_groups_steps_by_job() {
    let mut tracker = JobProgressTracker::new();
    tracker.record(JobProgress::new("first", Progress::Available));
    tracker.record(JobProgress::new("second-job", Progress::Available));
    tracker.record(JobProgress::new("first", Progress::Terminated(false)));
    assert!(tracker.has_failed);
    assert_eq!(tracker.states.len(), 2);
    assert_eq!(tracker.states.get_index(0).unwrap().0, "first");
    assert_eq!(tracker.states.get_index(0).unwrap().1.progresses.len(), 2);
    assert_eq!(tracker.states.get_index(0).unwrap().1.terminated(), Some(false));
    assert_eq!(tracker.find_longest_jobname_size(), 10);
    assert!(tracker.end_time.is_none());
    tracker.finish();
    let end = tracker.end_time;
    tracker.finish();
    assert_eq!(end, tracker.end_time);
}

/// A runner that notes the commands it runs; each succeeds.
struct Recorder {
    commands: RefCell<Vec<String>>,
}

impl CommandRunner for Recorder {
    fn run(&self, args: &str) -> Output {
        self.commands.borrow_mut().push(args.to_string());
        Output::Success(String::new(), String::new())
    }
}

fn env_of(keys: &[&str]) -> EnvMap {
    let mut env = EnvMap::new();
    for key in keys {
        env.insert(key.to_string(), vec![]);
    }
    env
}

#[test]
fn docker_jobs_run_in_a_container_with_the_variables() {
    let mut job = Docker::long(
        "d".to_string(),
        vec!["make".to_string()],
        "rust".to_string(),
        Some("g".to_string()),
        Some("ko".to_string()),
    );
    job.forward_env(&env_of(&["A", "B"]));
    assert_eq!(job.name(), "d");
    assert_eq!(job.group(), Some("g"));
    assert_eq!(
        job.commands(),
        vec![r#"docker run --rm --user "$USER_ID:$GROUP_ID" --volume "$PWD:$PWD" --workdir "$PWD" --env "A=$A" --env "B=$B" rust make"#]
    );
    let mut consumer = Collect { seen: RefCell::new(vec![]) };
    job.start(&Runner, &mut consumer);
    assert_eq!(consumer.seen.into_inner(), vec!["start make", "done make false", "end false"]);
}

#[test]
fn docker_job_without_variables() {
    let job = DockerJob::long("d".to_string(), vec!["ls".to_string(), "pwd".to_string()], "alpine".to_string(), None);
    assert_eq!(job.group(), None);
    let runner = Recorder { commands: RefCell::new(vec![]) };
    let mut consumer = Collect { seen: RefCell::new(vec![]) };
    job.start(&runner, &mut consumer);
    assert_eq!(
        runner.commands.into_inner(),
        vec![
            r#"docker run --rm --user "$USER_ID:$GROUP_ID" --volume "$PWD:$PWD" --workdir "$PWD"  alpine ls"#,
            r#"docker run --rm --user "$USER_ID:$GROUP_ID" --volume "$PWD:$PWD" --workdir "$PWD"  alpine pwd"#,
        ]
    );
    assert_eq!(consumer.seen.into_inner().last().unwrap(), "end true");
}

#[test]
fn simple_jobs_run_instructions_as_they_are() {
    let mut job = SimpleJob::long("s".to_string(), vec!["ok a".to_string()], Some("g".to_string()));
    job.forward_env(&env_of(&["A"]));
    assert_eq!(job.name(), "s");
    assert_eq!(job.group(), Some("g"));
    let runner = Recorder { commands: RefCell::new(vec![]) };
    job.start(&runner, &mut Collect { seen: RefCell::new(vec![]) });
    assert_eq!(runner.commands.into_inner(), vec!["ok a"]);

    let mut plain = Simple::long("p".to_string(), vec!["ok b".to_string()], None, Some("ok".to_string()));
    plain.forward_env(&env_of(&["A"]));
    assert_eq!(plain.commands(), vec!["ok b"]);
    let mut consumer = Collect { seen: RefCell::new(vec![]) };
    plain.start(&Runner, &mut consumer);
    assert_eq!(consumer.seen.into_inner(), vec!["skip", "end true"]);
}

#[test]
fn log_keeps_every_step_in_order() {
    let job = Job::long("j".to_string(), vec!["ok 1".to_string(), "ko 2".to_string(), "ok 3".to_string()], None, Some("ko".to_string()));
    let mut log = ProgressLog::new();
    job.start(&Runner, &mut log);
    let expected = vec![
        Progress::Started("ok 1".to_string()),
        Progress::Partial("ok 1".to_string(), Output::Success("ok 1".to_string(), String::new())),
        Progress::Started("ko 2".to_string()),
        Progress::Partial("ko 2".to_string(), Output::JobError(String::new(), "ko 2".to_string())),
        Progress::Terminated(false),
    ];
    assert_eq!(log.steps.len(), expected.len());
    for (step, want) in log.steps.iter().zip(expected.iter()) {
        assert_eq!(step.name(), "j");
        assert_eq!(&step.1, want);
    }
}
