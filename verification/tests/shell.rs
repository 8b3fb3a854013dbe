use qad::ci::job::inspection::JobProgressTracker;
use qad::ci::job::ports::{CommandRunner, SystemFacade, UserFacade};
use qad::ci::job::shell_interpreter::{collect_env, env_from_output, env_text_of, script_of, ShellInterpreter};
use qad::ci::job::env_parser::EnvMap;
use qad::ci::job::inspection::JobProgress;
use qad::ci::job::{Job, Output};
use std::cell::RefCell;
use std::sync::mpsc::Sender;

#[test]
fn env_text_starts_with_the_ids() {
    assert_eq!(env_text_of(None), "USER_ID=$(id -u)\nGROUP_ID=$(id -g)");
    assert_eq!(
        env_text_of(Some("A=1".to_string())),
        "USER_ID=$(id -u)\nGROUP_ID=$(id -g)\nA=1\n"
    );
}

#[test]
fn script_prints_each_assigned_variable() {
    let script = script_of("A=1\n  B=x y\nnot an assignment\n");
    assert_eq!(
        script,
        "A=1\n  B=x y\nnot an assignment\n\nprintf A=; printf '%s\n' $A\nprintf B=; printf '%s\n' $B\n"
    );
}

#[test]
fn collected_env_keeps_assigned_names_only() {
    let map = collect_env("A=1\nB=2\nC=3", "A=one\nB=two\nline\nZ=zed").unwrap();
    assert_eq!(map.len(), 2);
    assert_eq!(map.get("A").unwrap(), &vec!["one".to_string()]);
    assert_eq!(map.get("B").unwrap(), &vec!["two".to_string(), "line".to_string()]);
    assert!(map.get("C").is_none());
    assert!(map.get("Z").is_none());
}

#[test]
fn env_from_output_trims_and_fails_with_stderr() {
    let ok = env_from_output("A=1", Output::Success("  A=1\n\n".to_string(), String::new())).unwrap();
    assert_eq!(ok.get("A").unwrap(), &vec!["1".to_string()]);
    let job_error = env_from_output("A=1", Output::JobError("out".to_string(), "bad".to_string()));
    assert_eq!(job_error.err(), Some("bad".to_string()));
    let process_error = env_from_output("A=1", Output::ProcessError("gone".to_string()));
    assert_eq!(process_error.err(), Some("gone".to_string()));
    let unreadable = env_from_output("A=1", Output::Success("ÉÉ=x".to_string(), String::new()));
    assert_eq!(unreadable.err(), Some("the environment printed by the shell cannot be read".to_string()));
}

struct Shell {
    out: Output,
    scripts: RefCell<Vec<String>>,
}

impl CommandRunner for Shell {
    fn run(&self, args: &str) -> Output {
        self.scripts.borrow_mut().push(args.to_string());
        self.out.clone()
    }
}

impl SystemFacade for Shell {
    fn consume_job(&mut self, _: Job, _: Sender<JobProgress>) {}
    fn delay(&mut self) -> usize {
        0
    }
    fn write_env(&self, _: EnvMap) {}
}

#[derive(Default)]
struct Screen {
    errors: RefCell<Vec<String>>,
}

impl UserFacade for Screen {
    fn set_up(&mut self, _: &JobProgressTracker) {}
    fn run(&mut self, _: &JobProgressTracker, _: usize) {}
    fn tear_down(&mut self, _: &JobProgressTracker) {}
    fn display_error(&self, error: String) {
        self.errors.borrow_mut().push(error);
    }
}

#[test]
fn interpreter_runs_the_script_and_reports_complaints() {
    let shell = Shell {
        out: Output::Success("USER_ID=1000\nGROUP_ID=100\nA=x".to_string(), "warning".to_string()),
        scripts: RefCell::new(vec![]),
    };
    let screen = Screen::default();
    let env = ShellInterpreter::new(&screen, &shell).interpret(Some("A=$B".to_string())).unwrap();
    assert_eq!(env.len(), 3);
    assert_eq!(env.get("USER_ID").unwrap(), &vec!["1000".to_string()]);
    assert_eq!(env.get("A").unwrap(), &vec!["x".to_string()]);
    assert_eq!(screen.errors.borrow().clone(), vec!["warning".to_string()]);
    let scripts = shell.scripts.borrow();
    assert_eq!(scripts.len(), 1);
    assert!(scripts[0].ends_with("printf A=; printf '%s\n' $A\n"));
}

#[test]
fn interpreter_fails_with_the_shell_error() {
    let shell = Shell {
        out: Output::JobError(String::new(), "syntax error".to_string()),
        scripts: RefCell::new(vec![]),
    };
    let screen = Screen::default();
    let env = ShellInterpreter::new(&screen, &shell).interpret(None);
    assert_eq!(env.err(), Some("syntax error".to_string()));
    assert!(screen.errors.borrow().is_empty());
}
