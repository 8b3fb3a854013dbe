use qad::ci::job::dag::{Dag, Error, JobEnumeration, JobResult};
use qad::ci::job::env_parser::EnvMap;
use qad::ci::job::Job;

pub type ScheduleType = (Vec<Job>, Vec<(String, String)>, Vec<String>);

pub fn job(name: &str) -> Job {
    Job::long(name.to_string(), vec![], None, None)
}

pub fn job_group(name: &str, group: &str) -> Job {
    Job::long(name.to_string(), vec![], Some(group.to_string()), None)
}

pub fn cons(blocking: &str, blocked: &str) -> (String, String) {
    (blocking.to_string(), blocked.to_string())
}

pub fn simple_job_schedule() -> ScheduleType {
    let jobs = vec![job("deploy"), job("build"), job("test")];
    let constraints = vec![cons("build", "test"), cons("test", "deploy")];
    (jobs, constraints, vec![])
}

pub fn complex_job_schedule() -> ScheduleType {
    let jobs = vec![job("deploy"), job("build1"), job("build2"), job("test1"), job("test2")];
    let constraints = vec![
        cons("build1", "test1"),
        cons("build1", "test2"),
        cons("build2", "test1"),
        cons("build2", "test2"),
        cons("test1", "deploy"),
        cons("test2", "deploy"),
    ];
    (jobs, constraints, vec![])
}

pub fn group_job_schedule() -> ScheduleType {
    let jobs = vec![
        job_group("build1", "build"),
        job_group("build2", "build"),
        job_group("test1", "test"),
        job_group("test2", "test"),
        job_group("deploy", "deploy"),
    ];
    let config = vec!["build".to_string(), "test".to_string(), "deploy".to_string()];
    (jobs, vec![], config)
}

fn no_env() -> EnvMap {
    EnvMap::new()
}

fn describe(list: &[JobEnumeration]) -> String {
    let parts: Vec<String> = list
        .iter()
        .map(|job| format!("{}({})", job.name, job.state.label()))
        .collect();
    format!("[{}]", parts.join(", "))
}

#[test]
pub fn record_good() {
    let (jobs, constraints, groups) = simple_job_schedule();
    let mut dag = Dag::new(&jobs, &constraints, &groups, &no_env()).unwrap();
    let build = dag.poll().expect("this is not None");

    assert_eq!("build", build.name());

    dag.record_event(build.name(), JobResult::Success);

    let test = dag.poll();

    assert_eq!("test", test.expect("This is supposed to be test job").name());
}

#[test]
pub fn record_bad() {
    let (jobs, constraints, groups) = simple_job_schedule();
    let mut dag = Dag::new(&jobs, &constraints, &groups, &no_env()).unwrap();

    let job = dag.poll().expect("this is not None");

    dag.record_event(job.name(), JobResult::Failure);

    let none = dag.poll();

    assert!(none.is_none());
}

fn full_dag_test(dag: &mut Dag) {
    assert!(!dag.is_finished());

    let build1 = dag.poll().unwrap();
    let build2 = dag.poll().unwrap();

    assert_eq!("build1", build1.name());
    assert_eq!("build2", build2.name());
    assert!(dag.poll().is_none());

    dag.record_event(build1.name(), JobResult::Success);
    dag.record_event(build2.name(), JobResult::Success);

    let test1 = dag.poll().unwrap();
    let test2 = dag.poll().unwrap();

    assert_eq!("test1", test1.name());
    assert_eq!("test2", test2.name());
    assert!(dag.poll().is_none());

    dag.record_event(test1.name(), JobResult::Success);
    dag.record_event(test2.name(), JobResult::Success);

    let deploy = dag.poll().unwrap();
    assert_eq!("deploy", deploy.name());
    dag.record_event(deploy.name(), JobResult::Success);
    assert!(dag.is_finished());
}

#[test]
pub fn test_complex() {
    let (jobs, constraints, groups) = complex_job_schedule();
    let mut dag = Dag::new(&jobs, &constraints, &groups, &no_env()).unwrap();
    full_dag_test(&mut dag);
}

#[test]
pub fn test_group() {
    let (jobs, constraints, groups) = group_job_schedule();
    let mut dag = Dag::new(&jobs, &constraints, &groups, &no_env()).unwrap();
    full_dag_test(&mut dag);
}

#[test]
pub fn test_enumerate_base() {
    let (jobs, constraints, groups) = complex_job_schedule();
    let dag = Dag::new(&jobs, &constraints, &groups, &no_env()).unwrap();
    let actual = dag.enumerate();
    assert_eq!(
        String::from("[build1(pending), build2(pending), test1(blocked), test2(blocked), deploy(blocked)]"),
        describe(&actual)
    );
}

#[test]
pub fn test_enumerate_failure() {
    let (jobs, constraints, groups) = complex_job_schedule();
    let mut dag = Dag::new(&jobs, &constraints, &groups, &no_env()).unwrap();

    dag.poll();
    dag.record_event("build1", JobResult::Failure);

    let actual = dag.enumerate();

    assert_eq!(
        String::from("[build1(failure), build2(pending), test1(cancelled), test2(cancelled), deploy(cancelled)]"),
        describe(&actual)
    );

    dag.poll();
    dag.record_event("build2", JobResult::Failure);

    let actual = dag.enumerate();

    assert_eq!(
        String::from("[build1(failure), build2(failure), test1(cancelled), test2(cancelled), deploy(cancelled)]"),
        describe(&actual)
    );
}

#[test]
pub fn test_cycle() {
    let jobs = vec![job("A"), job("B"), job("C")];
    let cons = vec![cons("A", "B"), cons("B", "C"), cons("C", "A")];
    let error = Dag::new(&jobs, &cons, &[], &no_env()).err().unwrap();

    if let Error::CycleExistsBecauseOf(letter) = error {
        assert_eq!(&letter, "A");
    } else {
        panic!("{error:?} should be a cycle error")
    }
}

#[test]
pub fn dag_reports_unknown_job_before_cycle() {
    let jobs = vec![job("A"), job("B")];
    let cons = vec![cons("A", "B"), cons("B", "A"), cons("A", "Z")];
    let error = Dag::new(&jobs, &cons, &[], &no_env()).err().unwrap();
    assert!(matches!(error, Error::UnknownJobInConstraint(name) if name == "Z"));
}

#[test]
pub fn dag_rejects_self_block() {
    let jobs = vec![job("A")];
    let cons = vec![cons("A", "A")];
    let error = Dag::new(&jobs, &cons, &[], &no_env()).err().unwrap();
    assert!(matches!(error, Error::JobCannotBlockItself(name) if name == "A"));
}

#[test]
pub fn dag_cancels_transitively_and_releases_others() {
    let jobs = vec![job("a"), job("b"), job("c"), job("d")];
    let cons = vec![cons("a", "b"), cons("b", "c")];
    let mut dag = Dag::new(&jobs, &cons, &[], &no_env()).unwrap();
    let first = dag.poll().unwrap();
    assert_eq!("a", first.name());
    let second = dag.poll().unwrap();
    assert_eq!("d", second.name());
    assert!(dag.poll().is_none());
    dag.record_event("a", JobResult::Failure);
    assert!(dag.poll().is_none());
    assert!(!dag.is_finished());
    dag.record_event("d", JobResult::Success);
    assert!(dag.is_finished());
    assert_eq!(
        "[a(failure), d(success), b(cancelled), c(cancelled)]",
        describe(&dag.enumerate())
    );
}

#[test]
pub fn dag_groups_order_jobs() {
    let jobs = vec![job_group("late", "second"), job_group("early", "first")];
    let groups = vec!["first".to_string(), "second".to_string()];
    let mut dag = Dag::new(&jobs, &[], &groups, &no_env()).unwrap();
    let only = dag.poll().unwrap();
    assert_eq!("early", only.name());
    assert!(dag.poll().is_none());
    dag.record_event("early", JobResult::Success);
    assert_eq!("late", dag.poll().unwrap().name());
}

#[test]
pub fn dag_is_started_follows_poll() {
    let (jobs, constraints, groups) = simple_job_schedule();
    let mut dag = Dag::new(&jobs, &constraints, &groups, &no_env()).unwrap();
    assert!(!dag.is_started("build"));
    dag.poll();
    assert!(dag.is_started("build"));
    dag.record_event("build", JobResult::Success);
    assert!(!dag.is_started("build"));
}

#[test]
pub fn dag_hands_out_each_job_once() {
    let (jobs, constraints, groups) = complex_job_schedule();
    let mut dag = Dag::new(&jobs, &constraints, &groups, &no_env()).unwrap();
    let mut handed: Vec<String> = vec![];
    while !dag.is_finished() {
        let mut round: Vec<String> = vec![];
        while let Some(job) = dag.poll() {
            round.push(job.name().to_string());
        }
        assert!(!round.is_empty());
        for name in &round {
            assert!(!handed.contains(name));
            dag.record_event(name, JobResult::Success);
            handed.push(name.clone());
        }
    }
    assert_eq!(handed, vec!["build1", "build2", "test1", "test2", "deploy"]);
}

#[test]
pub fn dag_without_failure_never_gets_stuck() {
    let (jobs, constraints, groups) = complex_job_schedule();
    let mut dag = Dag::new(&jobs, &constraints, &groups, &no_env()).unwrap();
    while !dag.is_finished() {
        let job = dag.poll().expect("a job is pending whenever none runs");
        dag.record_event(job.name(), JobResult::Success);
    }
}

#[test]
pub fn dag_release_stops_at_a_cancelled_job() {
    let jobs = vec![job("a"), job("b"), job("c"), job("y")];
    let cons = vec![cons("a", "c"), cons("a", "b"), cons("y", "c")];
    let mut dag = Dag::new(&jobs, &cons, &[], &no_env()).unwrap();
    assert_eq!(dag.poll().unwrap().name(), "a");
    assert_eq!(dag.poll().unwrap().name(), "y");
    dag.record_event("y", JobResult::Failure);
    dag.record_event("a", JobResult::Success);
    assert!(dag.poll().is_none());
    assert!(!dag.is_finished());
    assert_eq!(
        "[a(success), y(failure), b(blocked), c(cancelled)]",
        describe(&dag.enumerate())
    );
}
