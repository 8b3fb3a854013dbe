use qad::ci::display::exhaustive::{indent_lines, job_report, run_status};
use qad::ci::display::sequence::{pad, sequence_line};
use qad::ci::display::summary::{instruction_line, title_line};
use qad::ci::display::CiDisplayConfig;
use qad::ci::job::inspection::InstructionState;
use qad::ci::job::{Output, Progress};

#[test]
fn padding_counts_characters() {
    assert_eq!(pad("ab", 4), "ab  ");
    assert_eq!(pad("abcdef", 4), "abcdef");
    assert_eq!(pad("✔", 3), "✔  ");
}

#[test]
fn sequence_lines_by_last_step() {
    let config = CiDisplayConfig::default();
    let line = |p: Progress| sequence_line("build", 7, &p, &config, ".");
    assert_eq!(line(Progress::Available), "build  not started yet");
    assert_eq!(line(Progress::Started("make".to_string())), "build   make .");
    assert_eq!(
        line(Progress::Partial("make".to_string(), Output::Success(String::new(), String::new()))),
        "build   ."
    );
    assert_eq!(line(Progress::Terminated(true)), "build   ✔");
    assert_eq!(line(Progress::Terminated(false)), "build   ✕");
    assert_eq!(line(Progress::Skipped), "build   ✔ job was skipped");
    assert_eq!(line(Progress::Cancelled), "build   ✕");
    assert_eq!(
        line(Progress::Blocked(vec!["a".to_string(), "b".to_string()])),
        "build   blocked by a, b"
    );
}

#[test]
fn summary_titles_and_instructions() {
    let config = CiDisplayConfig::default();
    assert_eq!(title_line("build", 7, Some(true), &config), "build   ✔");
    assert_eq!(title_line("build", 7, Some(false), &config), "build   ✕");
    assert_eq!(title_line("build", 3, None, &config), "build ");
    let done = InstructionState::Finished("make".to_string(), true);
    assert_eq!(instruction_line(&done, &config, ".. "), "✔      make");
    let failed = InstructionState::Finished("make".to_string(), false);
    assert_eq!(instruction_line(&failed, &config, "é"), "✕     make");
    let running = InstructionState::Running("make".to_string());
    assert_eq!(instruction_line(&running, &config, "..."), "...    make");
}

#[test]
fn indentation_follows_each_line_break() {
    assert_eq!(indent_lines("a\nb\n"), "a\n    b\n    ");
    assert_eq!(indent_lines(""), "");
}

#[test]
fn report_of_a_successful_job() {
    let config = CiDisplayConfig::default();
    let steps = vec![
        Progress::Started("make".to_string()),
        Progress::Partial("make".to_string(), Output::Success("built\n".to_string(), String::new())),
        Progress::Terminated(true),
    ];
    let (icon, text) = job_report("build", &steps, &config);
    assert_eq!(icon, "✔");
    assert_eq!(
        text,
        "  ✔ make\n  built\n  ✔ \u{1b}[4mall tasks done for job build\u{1b}[0m\n"
    );
}

#[test]
fn report_of_failed_and_cancelled_jobs() {
    let config = CiDisplayConfig::default();
    let crashed = vec![Progress::Partial("x".to_string(), Output::ProcessError("boom\n".to_string()))];
    assert_eq!(job_report("a", &crashed, &config), (String::new(), "  ✕ x: boom\n    ".to_string()));
    let failed = vec![Progress::Partial(
        "t".to_string(),
        Output::JobError("  \n".to_string(), "err\nmore".to_string()),
    )];
    assert_eq!(
        job_report("a", &failed, &config),
        (String::new(), "  ✕ t\n  \n  err\n    more\n".to_string())
    );
    let cancelled = vec![Progress::Blocked(vec!["b".to_string()]), Progress::Cancelled];
    assert_eq!(job_report("a", &cancelled, &config), ("✕".to_string(), String::new()));
    let skipped = vec![Progress::Skipped, Progress::Terminated(true)];
    let (icon, text) = job_report("s", &skipped, &config);
    assert_eq!(icon, "✔");
    assert!(text.starts_with("  job was skipped\n  ✔ "));
}

#[test]
fn run_status_by_failure() {
    let config = CiDisplayConfig::default();
    assert_eq!(run_status(true, &config), ("✕".to_string(), "failed".to_string()));
    assert_eq!(run_status(false, &config), ("✔".to_string(), "succeeded".to_string()));
}
