use qad::ci::display::{FinalDisplayMode, Running};
use qad::config::instructions::InstructionCompiler;
use qad::config::versions::version_0x::{CiIcons, CiSpinner, Version0x};
use qad::config::versions::version_0y::{
    Display as Display0y, DisplayMode as DisplayMode0y, FullJobDesc as FullJobDesc0y, Verbose, Version0y,
};
use qad::config::versions::version_1::{Constraints, Spinner};
use qad::config::{parse, read_version, Error, Format, FormatParser, Loader, Payload, Version};
use std::cell::RefCell;

fn file_0x() -> Version0x {
    Version0x {
        version: "0.x".to_string(),
        jobs: vec![
            ("a".to_string(), vec!["x".to_string(), "y".to_string()]),
            ("b".to_string(), vec![]),
        ],
        constraints: Some(vec![("a".to_string(), vec!["b".to_string(), "c".to_string()])]),
        ci_spinner: Some(CiSpinner { frames: vec!["-".to_string(), "+".to_string()], per_frames: 3 }),
        ci_icons: Some(CiIcons { ok: Some("yes".to_string()), ko: None, cancelled: Some("no".to_string()) }),
    }
}

#[test]
fn version_0x_loads_jobs_blocks_and_style() {
    let mut payload = Payload::default();
    payload.ci.groups = vec!["g".to_string()];
    file_0x().load(&mut payload);
    assert_eq!(payload.ci.jobs.len(), 2);
    assert_eq!(payload.ci.jobs[0].name, "a");
    assert_eq!(payload.ci.jobs[0].script, vec!["x".to_string(), "y".to_string()]);
    assert!(payload.ci.jobs[0].image.is_none());
    assert!(payload.ci.jobs[0].group.is_empty());
    assert!(payload.ci.jobs[1].skip_if.is_none());
    assert_eq!(
        payload.ci.constraints,
        vec![("a".to_string(), "b".to_string()), ("a".to_string(), "c".to_string())]
    );
    assert_eq!(payload.ci.groups, vec!["g".to_string()]);
    assert_eq!(payload.display.spinner, (vec!["-".to_string(), "+".to_string()], 3));
    assert_eq!(payload.display.ok, "yes");
    assert_eq!(payload.display.ko, "✕");
    assert_eq!(payload.display.cancelled, "no");
    assert!(matches!(payload.display.running_display, Running::Sequence));
    assert!(matches!(payload.display.final_display, FinalDisplayMode::Full));
}

#[test]
fn version_0x_without_options_keeps_the_display() {
    let file = Version0x {
        version: "0.x".to_string(),
        jobs: vec![],
        constraints: None,
        ci_spinner: None,
        ci_icons: None,
    };
    let mut payload = Payload::default();
    file.load_into(&mut payload);
    assert!(payload.ci.jobs.is_empty());
    assert!(payload.ci.constraints.is_empty());
    assert_eq!(payload.display.ok, "✔");
    assert_eq!(payload.display.spinner.1, 80);
}

#[test]
fn reading_versions() {
    assert!(matches!(
        read_version(Err("no version".to_string())),
        Err(Error::NoVersion("1.0", why)) if why == "no version"
    ));
    assert!(matches!(
        read_version(Ok(Version { version: "1".to_string() })),
        Ok((Format::Version1, v)) if v == "1"
    ));
    assert!(matches!(
        read_version(Ok(Version { version: "1.0".to_string() })),
        Ok((Format::Version1, v)) if v == "1.0"
    ));
    assert!(matches!(
        read_version(Ok(Version { version: "1.7".to_string() })),
        Ok((Format::LatestWithWarning, v)) if v == "1.7"
    ));
    assert!(matches!(
        read_version(Ok(Version { version: "2".to_string() })),
        Err(Error::BadVersion(v, "1.0")) if v == "2"
    ));
    assert!(matches!(
        read_version(Ok(Version { version: "one".to_string() })),
        Err(Error::BadVersion(v, "1.0")) if v == "one"
    ));
}

/// A parser that finds a given version and reads every file as a given
/// 0.x file, or fails with a given message; it notes the calls.
struct Fixed {
    version: Result<String, String>,
    file: Result<(), String>,
    calls: RefCell<Vec<String>>,
}

impl Fixed {
    fn read(&self) -> Result<Box<dyn Loader>, String> {
        match &self.file {
            Ok(()) => Ok(Box::new(file_0x())),
            Err(e) => Err(e.clone()),
        }
    }
}

impl FormatParser for Fixed {
    fn version(&self, _text: &str) -> Result<Version, String> {
        self.version.clone().map(|version| Version { version })
    }

    fn version1(&self, _text: &str) -> Result<Box<dyn Loader>, String> {
        self.calls.borrow_mut().push("version1".to_string());
        self.read()
    }

    fn latest_with_warning(&self, _text: &str, requested_version: &str) -> Result<Box<dyn Loader>, String> {
        self.calls.borrow_mut().push(format!("latest {requested_version}"));
        self.read()
    }
}

fn fixed(version: Result<&str, &str>, file: Result<(), &str>) -> Fixed {
    Fixed {
        version: version.map(str::to_string).map_err(str::to_string),
        file: file.map_err(str::to_string),
        calls: RefCell::new(vec![]),
    }
}

#[test]
fn parse_reads_the_declared_version() {
    let parser = fixed(Ok("1"), Ok(()));
    let loader = parse(&parser, "text").unwrap();
    assert_eq!(parser.calls.borrow().clone(), vec!["version1".to_string()]);
    let mut payload = Payload::default();
    loader.load(&mut payload);
    assert_eq!(payload.ci.jobs.len(), 2);

    let parser = fixed(Ok("1.3"), Ok(()));
    assert!(parse(&parser, "text").is_ok());
    assert_eq!(parser.calls.borrow().clone(), vec!["latest 1.3".to_string()]);
}

#[test]
fn parse_errors() {
    let parser = fixed(Err("missing field `version`"), Ok(()));
    assert!(matches!(parse(&parser, "text"), Err(Error::NoVersion("1.0", why)) if why == "missing field `version`"));
    assert!(parser.calls.borrow().is_empty());

    let parser = fixed(Ok("3.1"), Ok(()));
    assert!(matches!(parse(&parser, "text"), Err(Error::BadVersion(v, "1.0")) if v == "3.1"));
    assert!(parser.calls.borrow().is_empty());

    let parser = fixed(Ok("1"), Err("bad yaml"));
    assert!(matches!(parse(&parser, "text"), Err(Error::ParseError(v, why)) if v == "1" && why == "bad yaml"));
}

fn file_0y() -> Version0y {
    Version0y {
        version: "0.y".to_string(),
        jobs: vec![
            (
                "build".to_string(),
                FullJobDesc0y {
                    script: vec!["  cargo   build ".to_string(), "ls\t-l".to_string()],
                    image: Some("rust".to_string()),
                    group: Some("b".to_string()),
                },
            ),
            ("test".to_string(), FullJobDesc0y { script: vec![], image: None, group: None }),
        ],
        groups: Some(vec!["b".to_string()]),
        constraints: Some(Constraints {
            blocks: Some(vec![("build".to_string(), vec!["test".to_string()])]),
            needs: Some(vec![("deploy".to_string(), vec!["test".to_string(), "build".to_string()])]),
        }),
        display: Some(Display0y {
            mode: Some(DisplayMode0y::Silent),
            ok: None,
            ko: Some("KO".to_string()),
            cancelled: None,
            display: Some(vec![Verbose::All]),
            spinner: Some(Spinner { frames: vec!["*".to_string()], per_frames: 2 }),
        }),
    }
}

#[test]
fn version_0y_loads_compiled_jobs() {
    let mut payload = Payload::default();
    payload.env = Some("E=1".to_string());
    file_0y().load(&mut payload);
    assert_eq!(payload.ci.jobs.len(), 2);
    assert_eq!(payload.ci.jobs[0].script, vec!["cargo build".to_string(), "ls -l".to_string()]);
    assert!(payload.ci.jobs[0].image.is_some());
    assert_eq!(payload.ci.jobs[0].group, vec!["b".to_string()]);
    assert!(payload.ci.jobs[1].image.is_none());
    assert!(payload.ci.jobs[1].script.is_empty());
    assert_eq!(payload.ci.groups, vec!["b".to_string()]);
    assert_eq!(
        payload.ci.constraints,
        vec![
            ("build".to_string(), "test".to_string()),
            ("test".to_string(), "deploy".to_string()),
            ("build".to_string(), "deploy".to_string()),
        ]
    );
    assert!(matches!(payload.display.running_display, Running::Silent));
    assert_eq!(payload.display.ko, "KO");
    assert_eq!(payload.display.ok, "✔");
    assert_eq!(payload.display.spinner, (vec!["*".to_string()], 2));
    assert_eq!(payload.env, Some("E=1".to_string()));
    let job = payload.ci.jobs.remove(0).into_job();
    assert_eq!(job.name(), "build");
}

#[test]
fn version_0y_with_a_compiler_of_one_pass() {
    let compiler = InstructionCompiler::default();
    let mut payload = Payload::default();
    file_0y().load_with(&compiler, &mut payload);
    assert_eq!(payload.ci.jobs[0].script[0], compiler.compile("  cargo   build "));
}
