use qad::app::domain::error::Error;
use qad::app::domain::{run, Consumer, Event, Result, State};
use std::cell::RefCell;

struct Recorder {
    events: RefCell<Vec<String>>,
    fail: bool,
}

impl Consumer for Recorder {
    fn play(&mut self, _cmd: &str) -> Result<()> {
        Ok(())
    }

    fn record(&mut self, event: Event) -> Result<()> {
        if self.fail {
            return Err(Error::new("full".to_string(), "here".to_string(), 1));
        }
        self.events.borrow_mut().push(format!("{event:?}"));
        Ok(())
    }
}

#[test]
fn play_keeps_state() {
    let mut recorder = Recorder { events: RefCell::new(vec![]), fail: false };
    let state = State::new().reserve("a");
    let next = run(&mut recorder, state, &Event::Play("a".to_string())).unwrap();
    assert!(format!("{next:?}").contains("Reserved"));
    assert!(recorder.events.borrow().is_empty());
}

#[test]
fn awaiting_without_available_job_keeps_state() {
    let mut recorder = Recorder { events: RefCell::new(vec![]), fail: true };
    let state = State::new().reserve("a").reserve("a");
    let next = run(&mut recorder, state, &Event::Awaiting).unwrap();
    assert_eq!(format!("{next:?}"), format!("{:?}", State::new().reserve("a").reserve("a")));
}

#[test]
fn error_message_is_what() {
    let e = Error::new("what".to_string(), "f".to_string(), 3);
    assert_eq!(e.message(), "what");
    assert_eq!(e.line, 3);
}

