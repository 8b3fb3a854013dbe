use qad::ci::config::{listing, CliOption, Config as CiConfig, JobDesc};
use qad::ci::display::{FinalDisplayMode, Running};
use qad::ci::job::dag::{Dag, JobResult};
use qad::ci::job::env_parser::EnvMap;
use qad::ci::job::inspection::JobProgress;
use qad::ci::job::schedule::{initial_progress, initial_tracker, select_constraints, select_jobs, settle, take_progress};
use qad::ci::job::Progress;
use qad::config::versions::version_1::{
    Constraints, ContainerReference, Display, DisplayMode, FinalDisplay, FullJobDesc, Version1,
};
use qad::config::{version_format, Config, Error, Format, Loader, Payload};

fn desc(name: &str, group: &[&str]) -> JobDesc {
    JobDesc {
        name: name.to_string(),
        script: vec![format!("echo {name}")],
        image: None,
        group: group.iter().map(|g| g.to_string()).collect(),
        skip_if: None,
    }
}

fn sample() -> CiConfig {
    CiConfig {
        jobs: vec![desc("build", &["b"]), desc("test", &["t"]), desc("lint", &["b"])],
        groups: vec!["b".to_string(), "t".to_string()],
        constraints: vec![("build".to_string(), "test".to_string())],
    }
}

#[test]
fn error_explanations() {
    assert_eq!(Error::Parse("oops".to_string()).explain("f.yml"), "f.yml could not be parsed: oops");
    assert_eq!(
        Error::NoVersion("1.0", "why".to_string()).explain("f.yml"),
        "f.yml could not parse version id (latest is 1.0)\nbecause: why"
    );
    assert_eq!(
        Error::BadVersion("2".to_string(), "1.0").explain("f.yml"),
        "unknown version 2 in f.yml (latest is 1.0)"
    );
    assert_eq!(
        Error::ParseError("1".to_string(), "bad".to_string()).explain("f.yml"),
        "could not parse f.yml with version 1 (bad)"
    );
}

#[test]
fn versions_and_formats() {
    assert!(matches!(version_format("1"), Ok(Format::Version1)));
    assert!(matches!(version_format("1.0"), Ok(Format::Version1)));
    assert!(matches!(version_format("1.2"), Ok(Format::LatestWithWarning)));
    assert!(matches!(version_format("2.0"), Err(Error::BadVersion(v, "1.0")) if v == "2.0"));
    assert!(matches!(version_format("one"), Err(Error::BadVersion(v, _)) if v == "one"));
    assert!(matches!(version_format("1."), Err(Error::BadVersion(_, _))));
}

#[test]
fn candidates_of_config() {
    let config = Config::from("qad");
    assert_eq!(
        config.candidates(),
        &vec!["qad.yaml".to_string(), "qad.yml".to_string(), "qad.yaml.dist".to_string(), "qad.yml.dist".to_string()]
    );
    assert_eq!(config.get_first_available_config_file(&[false, true, true, false]), Ok("qad.yml".to_string()));
    assert_eq!(
        config.get_first_available_config_file(&[false, false, false, false]),
        Err(r#"no config file could be found (looked in files ["qad.yaml", "qad.yml", "qad.yaml.dist", "qad.yml.dist"])"#.to_string())
    );
    assert_eq!(Config::from_name("x.yml").candidates(), &vec!["x.yml".to_string()]);
}

#[test]
fn absorb_takes_new_jobs_only() {
    let mut payload = Payload::default();
    payload.ci.jobs.push(desc("build", &[]));
    let mut other = Payload::default();
    other.ci.jobs.push(desc("build", &["x"]));
    other.ci.jobs.push(desc("deploy", &[]));
    other.ci.jobs.push(desc("deploy", &["y"]));
    payload.absorb(&other);
    let names: Vec<&str> = payload.ci.jobs.iter().map(|j| j.name.as_str()).collect();
    assert_eq!(names, vec!["build", "deploy"]);
    assert!(payload.ci.jobs[0].group.is_empty());
    assert!(payload.ci.jobs[1].group.is_empty());
}

#[test]
fn absorb_twice_is_absorb_once() {
    let mut payload = Payload::default();
    payload.ci.jobs.push(desc("build", &[]));
    let mut other = Payload::default();
    other.ci.jobs.push(desc("lint", &[]));
    other.ci.jobs.push(desc("build", &["x"]));
    other.ci.jobs.push(desc("deploy", &[]));
    payload.absorb(&other);
    let once: Vec<String> = payload.ci.jobs.iter().map(|j| j.name.clone()).collect();
    payload.absorb(&other);
    let twice: Vec<String> = payload.ci.jobs.iter().map(|j| j.name.clone()).collect();
    assert_eq!(once, vec!["build", "lint", "deploy"]);
    assert_eq!(once, twice);
}

#[test]
fn version_one_loads_into_payload() {
    let file = Version1 {
        version: "1".to_string(),
        jobs: vec![
            (
                "build".to_string(),
                FullJobDesc {
                    script: vec!["make".to_string()],
                    container_reference: Some(ContainerReference::from_image("rust")),
                    group: Some("b".to_string()),
                    skip_if: None,
                },
            ),
            (
                "test".to_string(),
                FullJobDesc { script: vec![], container_reference: None, group: None, skip_if: Some("true".to_string()) },
            ),
        ],
        groups: Some(vec!["b".to_string()]),
        constraints: Some(Constraints {
            blocks: Some(vec![("build".to_string(), vec!["test".to_string(), "doc".to_string()])]),
            needs: Some(vec![("deploy".to_string(), vec!["test".to_string()])]),
        }),
        display: Some(Display {
            mode: Some(DisplayMode::Summary),
            final_item: Some(FinalDisplay::Silent),
            ok: Some("ok".to_string()),
            ko: None,
            cancelled: None,
            spinner: None,
        }),
        env: Some("A=1".to_string()),
        extra_files: None,
    };
    let mut payload = Payload::default();
    file.load(&mut payload);
    assert_eq!(payload.ci.jobs.len(), 2);
    assert_eq!(payload.ci.jobs[0].name, "build");
    assert_eq!(payload.ci.jobs[0].group, vec!["b".to_string()]);
    assert!(payload.ci.jobs[0].image.is_some());
    assert!(payload.ci.jobs[1].group.is_empty());
    assert_eq!(payload.ci.groups, vec!["b".to_string()]);
    assert_eq!(
        payload.ci.constraints,
        vec![
            ("build".to_string(), "test".to_string()),
            ("build".to_string(), "doc".to_string()),
            ("test".to_string(), "deploy".to_string()),
        ]
    );
    assert!(matches!(payload.display.running_display, Running::Summary));
    assert!(matches!(payload.display.final_display, FinalDisplayMode::Silent));
    assert_eq!(payload.display.ok, "ok");
    assert_eq!(payload.display.ko, "✕");
    assert_eq!(payload.env, Some("A=1".to_string()));
    let job = payload.ci.jobs.remove(0).into_job();
    assert_eq!(job.name(), "build");
    assert_eq!(job.group(), Some("b"));
}

#[test]
fn selection_of_jobs() {
    let config = sample();
    let all = select_jobs(&CliOption { job: None, no_tty: false }, &config);
    assert_eq!(all.iter().map(|j| j.name()).collect::<Vec<_>>(), vec!["build", "test", "lint"]);
    let group = select_jobs(&CliOption { job: Some("group:b".to_string()), no_tty: false }, &config);
    assert_eq!(group.iter().map(|j| j.name()).collect::<Vec<_>>(), vec!["build", "lint"]);
    let one = select_jobs(&CliOption { job: Some("test".to_string()), no_tty: false }, &config);
    assert_eq!(one.iter().map(|j| j.name()).collect::<Vec<_>>(), vec!["test"]);
    assert_eq!(select_constraints(&CliOption { job: None, no_tty: false }, &config).len(), 1);
    assert!(select_constraints(&CliOption { job: Some("test".to_string()), no_tty: false }, &config).is_empty());
}

#[test]
fn run_decisions() {
    let config = sample();
    let option = CliOption { job: None, no_tty: false };
    let jobs = select_jobs(&option, &config);
    let constraints = select_constraints(&option, &config);
    let mut dag = Dag::new(&jobs, &constraints, &config.groups, &EnvMap::new()).unwrap();
    let list = dag.enumerate();
    let firsts: Vec<Progress> = list.iter().map(initial_progress).collect();
    assert_eq!(firsts[0], Progress::Available);
    assert_eq!(firsts[1], Progress::Available);
    assert_eq!(firsts[2], Progress::Blocked(vec!["build".to_string(), "lint".to_string()]));
    let job = dag.poll().unwrap();
    assert_eq!(job.name(), "build");
    let cancelled = settle(&mut dag, "build", false);
    assert_eq!(cancelled, vec!["test".to_string()]);
    let job = dag.poll().unwrap();
    assert_eq!(job.name(), "lint");
    assert!(settle(&mut dag, "lint", true).is_empty());
    assert!(dag.is_finished());
    let _ = JobResult::Success;
}

#[test]
fn tracker_of_a_run() {
    let config = sample();
    let option = CliOption { job: None, no_tty: false };
    let jobs = select_jobs(&option, &config);
    let constraints = select_constraints(&option, &config);
    let mut dag = Dag::new(&jobs, &constraints, &config.groups, &EnvMap::new()).unwrap();
    let mut tracker = initial_tracker(&dag.enumerate());
    let names: Vec<&String> = tracker.states.keys().collect();
    assert_eq!(names, vec!["build", "lint", "test"]);
    assert_eq!(tracker.states["build"].progresses, vec![Progress::Available]);
    assert_eq!(
        tracker.states["test"].progresses,
        vec![Progress::Blocked(vec!["build".to_string(), "lint".to_string()])]
    );

    assert_eq!(dag.poll().unwrap().name(), "build");
    take_progress(&mut dag, &mut tracker, JobProgress::new("build", Progress::Started("make".to_string())));
    assert_eq!(tracker.states["build"].progresses.len(), 2);
    assert!(!tracker.has_failed);
    take_progress(&mut dag, &mut tracker, JobProgress::new("build", Progress::Terminated(false)));
    assert!(tracker.has_failed);
    assert_eq!(tracker.states["test"].progresses.last(), Some(&Progress::Cancelled));
    assert_eq!(tracker.states["build"].progresses.last(), Some(&Progress::Terminated(false)));

    assert_eq!(dag.poll().unwrap().name(), "lint");
    take_progress(&mut dag, &mut tracker, JobProgress::new("lint", Progress::Terminated(false)));
    assert_eq!(tracker.states["test"].progresses.len(), 3);
    assert_eq!(tracker.states["lint"].progresses, vec![Progress::Available, Progress::Terminated(false)]);
    assert!(dag.is_finished());
}

#[test]
fn listing_sorts_jobs_then_names_groups() {
    let mut config = sample();
    config.jobs.push(desc("Zed", &[]));
    config.jobs.push(desc("build", &[]));
    let lines = listing(&config);
    assert_eq!(lines, vec!["Zed", "build", "build", "lint", "test", "group:b", "group:t"]);
}
