use qad::ci::display::browse::{browse_start, browse_step, lines_of, lines_of_text, BrowseKey};
use qad::ci::job::inspection::{JobProgress, JobProgressTracker};
use qad::ci::job::{Output, Progress};
use qad::ci::display::ansi_control_sequence::{clear_sequence, rewind_sequence, ResetChar, UnderlineChar};
use qad::ci::display::spinner::Spinner;
use qad::ci::display::tui::stateful_text::StatefulText;
use qad::ci::display::{displays_for, CiDisplayConfig, FinalDisplayMode, Running};

#[test]
pub fn spin() {
    let strings: Vec<String> = vec![
        "titi".to_string(),
        "tutu".to_string(),
        "toto".to_string(),
        "tata".to_string(),
    ];
    let mut spinner = Spinner::new(&strings, 1);

    assert_eq!("titi", spinner.current());
    spinner.tick(1);
    assert_eq!("tutu", spinner.current());
    spinner.tick(1);
    assert_eq!("toto", spinner.current());
    spinner.tick(1);
    assert_eq!("tata", spinner.current());
}

#[test]
pub fn spinner_waits_for_its_frames_and_wraps() {
    let strings: Vec<String> = vec!["a".to_string(), "b".to_string()];
    let mut spinner = Spinner::new(&strings, 3);
    spinner.tick(2);
    assert_eq!("a", spinner.current());
    spinner.tick(1);
    assert_eq!("b", spinner.current());
    spinner.tick(5);
    assert_eq!("a", spinner.current());
    let copy = spinner.clone();
    assert_eq!("a", copy.current());
}

#[test]
pub fn stateful_text_scrolls() {
    let mut text = StatefulText::with_text("one\ntwo\nthree".to_string());
    assert_eq!(text.scroll, 0);
    text.next();
    assert_eq!(text.scroll, 1);
    text.next();
    text.next();
    assert_eq!(text.scroll, 3);
    text.next();
    assert_eq!(text.scroll, 0);
    text.previous();
    assert_eq!(text.scroll, 2);
    text.previous();
    assert_eq!(text.scroll, 1);
}

#[test]
pub fn stateful_text_counts_lines_as_lines_does() {
    let mut text = StatefulText::with_text("a\nb\n".to_string());
    text.previous();
    assert_eq!(text.scroll, 1);
    let mut empty = StatefulText::with_text(String::new());
    empty.next();
    assert_eq!(empty.scroll, 0);
}

#[test]
pub fn display_defaults() {
    let config = CiDisplayConfig::default();
    assert!(matches!(config.running_display, Running::Sequence));
    assert!(matches!(config.final_display, FinalDisplayMode::Full));
    assert_eq!(config.ok, "✔");
    assert_eq!(config.ko, "✕");
    assert_eq!(config.spinner.0.len(), 5);
    assert_eq!(config.spinner.1, 80);
    assert!(matches!(Running::default(), Running::Sequence));
    assert!(matches!(FinalDisplayMode::default(), FinalDisplayMode::Full));
}

#[test]
pub fn control_sequences() {
    assert_eq!("\u{1b}[4m", UnderlineChar().sequence());
    assert_eq!("\u{1b}[0m", ResetChar().sequence());
}

#[test]
pub fn displays_without_a_terminal() {
    let mut config = CiDisplayConfig::default();
    config.running_display = Running::Summary;
    config.final_display = FinalDisplayMode::Interactive;
    assert!(matches!(displays_for(&config, false), (Running::Summary, FinalDisplayMode::Interactive)));
    assert!(matches!(displays_for(&config, true), (Running::Silent, FinalDisplayMode::Full)));
    config.final_display = FinalDisplayMode::Silent;
    assert!(matches!(displays_for(&config, true), (Running::Silent, FinalDisplayMode::Silent)));
}

#[test]
pub fn clearing_takes_back_the_lines_written() {
    assert_eq!("", clear_sequence(0, 0));
    assert_eq!("\u{1b}[0A\u{1b}[0J", clear_sequence(0, 7));
    assert_eq!("\u{1b}[3A\u{1b}[0J", clear_sequence(3, 0));
    assert_eq!("\u{1b}[1204A\u{1b}[0J", clear_sequence(1204, 2));
    assert_eq!("\u{1b}[10A", rewind_sequence(10));
    assert_eq!(format!("\u{1b}[{}A", usize::MAX), rewind_sequence(usize::MAX));
}

#[test]
pub fn spinner_shows_frame_n_modulo_the_count() {
    let strings: Vec<String> = vec!["a".to_string(), "b".to_string(), "c".to_string()];
    let mut spinner = Spinner::new(&strings, 2);
    for n in 1..=7 {
        spinner.tick(2 + n % 2);
        assert_eq!(strings[n % 3], spinner.current());
    }
    spinner.tick(1);
    assert_eq!(strings[7 % 3], spinner.current());
}

#[test]
pub fn text_lines_as_str_lines_gives_them() {
    assert_eq!(lines_of_text(""), Vec::<String>::new());
    assert_eq!(lines_of_text("a\nb\n"), vec!["a".to_string(), "b".to_string()]);
    assert_eq!(lines_of_text("a\r\nb\r"), vec!["a".to_string(), "b\r".to_string()]);
    assert_eq!(lines_of_text("\n\nc"), vec!["".to_string(), "".to_string(), "c".to_string()]);
    for text in ["", "x", "a\nb\n", "a\r\nb\r", "\n\nc", "\r\n"] {
        let expected: Vec<String> = text.lines().map(str::to_string).collect();
        assert_eq!(lines_of_text(text), expected);
    }
}

#[test]
pub fn browsing_opens_moves_and_closes() {
    let mut tracker = JobProgressTracker::new();
    tracker.record(JobProgress::new("a", Progress::Started("make".to_string())));
    tracker.record(JobProgress::new(
        "a",
        Progress::Partial("make".to_string(), Output::Success("built\nall".to_string(), "".to_string())),
    ));
    tracker.record(JobProgress::new("a", Progress::Terminated(true)));
    tracker.record(JobProgress::new("b", Progress::Partial("x".to_string(), Output::ProcessError("gone".to_string()))));
    tracker.record(JobProgress::new("b", Progress::Cancelled));
    assert_eq!(lines_of(&tracker, 0), vec!["built", "all", "success"]);
    assert_eq!(lines_of(&tracker, 1), vec!["gone", "cancelled"]);

    let b = browse_start(&tracker);
    assert_eq!(b.selected, Some(0));
    let (b, leave) = browse_step(b, BrowseKey::Up, &tracker);
    assert!(!leave);
    assert_eq!(b.selected, Some(1));
    let (b, _) = browse_step(b, BrowseKey::Down, &tracker);
    assert_eq!(b.selected, Some(0));
    let (b, _) = browse_step(b, BrowseKey::Open, &tracker);
    assert_eq!(b.window.as_ref().unwrap().0, vec!["built", "all", "success"]);
    assert_eq!(b.window.as_ref().unwrap().1, Some(0));
    let (b, _) = browse_step(b, BrowseKey::Up, &tracker);
    assert_eq!(b.window.as_ref().unwrap().1, Some(2));
    let (b, _) = browse_step(b, BrowseKey::Close, &tracker);
    assert!(b.window.is_none());
    assert_eq!(b.selected, Some(0));
    let (_, leave) = browse_step(b, BrowseKey::Leave, &tracker);
    assert!(leave);
}
