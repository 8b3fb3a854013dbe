//! Browsing a finished run: the list of its jobs, and a window on what the
//! selected job printed; the keys move the selection and open or close the
//! window.
use vstd::prelude::*;
use vstd::string::StrSliceExecFns;
use crate::ci::job::inspection::{JobProgressTracker, steps_get_index, tracked_steps};
use crate::ci::job::{Output, Progress};
use crate::names::names_view;
use crate::text::{copy_str, split_on, split_on_of};

verus! {

/// A line without the carriage return at its end, if it has one.
pub open spec fn without_cr(line: Seq<char>) -> Seq<char> {
    if line.len() > 0 && line.last() == '\r' {
        line.drop_last()
    } else {
        line
    }
}

/// The lines of `s`, as `str::lines` gives them: the pieces between line
/// breaks, each ended by `\n` or `\r\n`; the last piece is left out when it
/// is empty, and keeps a carriage return that no line feed follows.
pub open spec fn text_lines(s: Seq<char>) -> Seq<Seq<char>> {
    let pieces = split_on(s, '\n');
    let ended = pieces.drop_last().map_values(|l: Seq<char>| without_cr(l));
    if pieces.last().len() == 0 {
        ended
    } else {
        ended.push(pieces.last())
    }
}

/// The lines of a string (`str::lines`).
pub fn lines_of_text(s: &str) -> (r: Vec<String>)
    ensures
        names_view(r@) == text_lines(s@),
{
    let pieces = split_on_of(s, '\n');
    let ghost pv = split_on(s@, '\n');
    proof {
        crate::text::lemma_split_on_nonempty(s@, '\n');
    }
    let n = pieces.len();
    let mut r: Vec<String> = Vec::new();
    let mut i: usize = 0;
    while i + 1 < n
        invariant
            n == pieces@.len(),
            n >= 1,
            i + 1 <= n,
            pieces@.map_values(|x: String| x@) == pv,
            names_view(r@) == pv.take(i as int).map_values(|l: Seq<char>| without_cr(l)),
        decreases n - i,
    {
        let piece = pieces[i].as_str();
        let len = piece.unicode_len();
        let line = if len > 0 && piece.get_char(len - 1) == '\r' {
            piece.substring_char(0, len - 1).to_owned()
        } else {
            copy_str(piece)
        };
        proof {
            assert(piece@ == pv[i as int]);
            if len > 0 && piece@[len - 1] == '\r' {
                assert(line@ =~= piece@.drop_last());
            }
            assert(line@ == without_cr(pv[i as int]));
        }
        let ghost before = r@;
        r.push(line);
        proof {
            assert(names_view(r@) =~= names_view(before).push(line@));
            assert(pv.take(i + 1).map_values(|l: Seq<char>| without_cr(l))
                =~= pv.take(i as int).map_values(|l: Seq<char>| without_cr(l)).push(without_cr(pv[i as int])));
        }
        i = i + 1;
    }
    proof {
        assert(pv.take(i as int) =~= pv.drop_last());
        assert(pieces@[n - 1]@ == pv.last());
    }
    let last = pieces[n - 1].as_str();
    if last.unicode_len() > 0 {
        let ghost before = r@;
        r.push(copy_str(last));
        proof {
            assert(names_view(r@) =~= names_view(before).push(pv.last()));
        }
    }
    r
}

/// What a step of a job tells in the browser, if anything: the output and
/// the error output of a command, on two lines; the error of a command that
/// could not run; or how the job ended.
pub open spec fn step_message(p: Progress) -> Option<Seq<char>> {
    match p {
        Progress::Partial(_, Output::Success(out, err)) => Some(out@ + seq!['\n'] + err@),
        Progress::Partial(_, Output::JobError(out, err)) => Some(out@ + seq!['\n'] + err@),
        Progress::Partial(_, Output::ProcessError(err)) => Some(err@),
        Progress::Skipped => Some("skipped"@),
        Progress::Cancelled => Some("cancelled"@),
        Progress::Terminated(true) => Some("success"@),
        Progress::Terminated(false) => Some("failure"@),
        _ => None,
    }
}

/// The lines that the steps of a job show, in order: the lines of each
/// step's message.
pub open spec fn job_lines(steps: Seq<Progress>) -> Seq<Seq<char>>
    decreases steps.len(),
{
    if steps.len() == 0 {
        Seq::empty()
    } else {
        job_lines(steps.drop_last()) + match step_message(steps.last()) {
            Some(m) => text_lines(m),
            None => Seq::empty(),
        }
    }
}

/// The message of a step (see `step_message`).
fn message_of(p: &Progress) -> (r: Option<String>)
    ensures
        match step_message(*p) {
            Some(m) => r matches Some(t) && t@ == m,
            None => r is None,
        },
{
    match p {
        Progress::Partial(_, Output::Success(out, err)) | Progress::Partial(_, Output::JobError(out, err)) => {
            let mut t = copy_str(out.as_str());
            t.append("\n");
            t.append(err.as_str());
            proof {
                reveal_strlit("\n");
                assert(t@ =~= out@ + seq!['\n'] + err@);
            }
            Some(t)
        },
        Progress::Partial(_, Output::ProcessError(err)) => Some(copy_str(err.as_str())),
        Progress::Skipped => Some(copy_str("skipped")),
        Progress::Cancelled => Some(copy_str("cancelled")),
        Progress::Terminated(true) => Some(copy_str("success")),
        Progress::Terminated(false) => Some(copy_str("failure")),
        _ => None,
    }
}

/// The lines that the job at `selected` printed (see `job_lines`).
pub fn lines_of(tracker: &JobProgressTracker, selected: usize) -> (r: Vec<String>)
    requires
        selected < tracked_steps(tracker.states).len(),
    ensures
        names_view(r@) == job_lines(tracked_steps(tracker.states)[selected as int].1),
{
    let (_, collector) = steps_get_index(&tracker.states, selected).unwrap();
    let steps = &collector.progresses;
    let ghost sv = steps@;
    let mut r: Vec<String> = Vec::new();
    let mut i: usize = 0;
    while i < steps.len()
        invariant
            i <= steps.len(),
            sv == steps@,
            names_view(r@) == job_lines(sv.take(i as int)),
        decreases steps.len() - i,
    {
        proof {
            assert(sv.take(i + 1).drop_last() =~= sv.take(i as int));
            assert(sv.take(i + 1).last() == sv[i as int]);
        }
        match message_of(&steps[i]) {
            Some(m) => {
                let lines = lines_of_text(m.as_str());
                let ghost before = names_view(r@);
                let mut k: usize = 0;
                while k < lines.len()
                    invariant
                        k <= lines.len(),
                        names_view(r@) == before + names_view(lines@).take(k as int),
                    decreases lines.len() - k,
                {
                    let ghost b = r@;
                    r.push(lines[k].clone());
                    proof {
                        assert(names_view(r@) =~= names_view(b).push(lines@[k as int]@));
                        assert(names_view(lines@).take(k + 1) =~= names_view(lines@).take(k as int).push(lines@[k as int]@));
                    }
                    k = k + 1;
                }
                proof {
                    assert(names_view(lines@).take(lines.len() as int) =~= names_view(lines@));
                }
            },
            None => {
                proof {
                    assert(names_view(r@) =~= job_lines(sv.take(i as int)) + Seq::<Seq<char>>::empty());
                }
            },
        }
        i = i + 1;
    }
    proof {
        assert(sv.take(steps.len() as int) =~= sv);
    }
    r
}

/// The keys of the browser: leave, open the window on the selected job,
/// close the window, move the selection down or up, or any other key.
#[derive(Debug, Clone, Copy, PartialEq, Eq, Structural)]
pub enum BrowseKey {
    Leave,
    Open,
    Close,
    Down,
    Up,
    Other,
}

/// Where the browser stands: the job selected, if any, and the window open
/// on what a job printed, if any: its lines and the line selected.
pub struct Browse {
    pub selected: Option<usize>,
    pub window: Option<(Vec<String>, Option<usize>)>,
}

/// What a browser is made of: the job selected, and the window's lines and
/// selected line.
pub type BrowseView = (Option<usize>, Option<(Seq<Seq<char>>, Option<usize>)>);

impl Browse {
    /// The state of the browser.
    pub open spec fn view(&self) -> BrowseView {
        (self.selected, match self.window {
            Some(w) => Some((names_view(w.0@), w.1)),
            None => None,
        })
    }
}

/// The selection of a list of `count` items that first shows: the first
/// item, if any.
pub open spec fn first_of(count: nat) -> Option<usize> {
    if count > 0 { Some(0) } else { None }
}

/// The selection after moving down a list of `count` items: the next item,
/// or the first after the last; nothing moves in an empty list.
pub open spec fn selection_down(selected: Option<usize>, count: nat) -> Option<usize> {
    if count == 0 {
        selected
    } else {
        match selected {
            Some(i) => if i + 1 < count { Some((i + 1) as usize) } else { Some(0) },
            None => Some(0),
        }
    }
}

/// The selection after moving up a list of `count` items: the item before,
/// or the last before the first; nothing moves in an empty list.
pub open spec fn selection_up(selected: Option<usize>, count: nat) -> Option<usize> {
    if count == 0 {
        selected
    } else {
        match selected {
            Some(i) => if i == 0 { Some((count - 1) as usize) } else { Some((i - 1) as usize) },
            None => Some((count - 1) as usize),
        }
    }
}

/// The browser after `key`, over the jobs `jobs` of a run, and whether it
/// is left. With no window open, opening shows the lines of the selected job
/// (see `job_lines`) and moving goes over the jobs; with a window open,
/// closing shuts it and moving goes over its lines.
pub open spec fn browse_next(b: BrowseView, key: BrowseKey, jobs: Seq<(Seq<char>, Seq<Progress>)>) -> (BrowseView, bool) {
    if key == BrowseKey::Leave {
        (b, true)
    } else {
        match b.1 {
            None => {
                if key == BrowseKey::Open {
                    match b.0 {
                        Some(i) => {
                            let lines = job_lines(jobs[i as int].1);
                            ((b.0, Some((lines, first_of(lines.len())))), false)
                        },
                        None => (b, false),
                    }
                } else if key == BrowseKey::Down {
                    ((selection_down(b.0, jobs.len()), None), false)
                } else if key == BrowseKey::Up {
                    ((selection_up(b.0, jobs.len()), None), false)
                } else {
                    (b, false)
                }
            },
            Some(w) => {
                if key == BrowseKey::Close {
                    ((b.0, None), false)
                } else if key == BrowseKey::Down {
                    ((b.0, Some((w.0, selection_down(w.1, w.0.len())))), false)
                } else if key == BrowseKey::Up {
                    ((b.0, Some((w.0, selection_up(w.1, w.0.len())))), false)
                } else {
                    (b, false)
                }
            },
        }
    }
}

/// The selection after moving down a list of `count` items.
fn move_down(selected: Option<usize>, count: usize) -> (r: Option<usize>)
    ensures
        r == selection_down(selected, count as nat),
{
    if count == 0 {
        return selected;
    }
    match selected {
        Some(i) => if i < count - 1 { Some(i + 1) } else { Some(0) },
        None => Some(0),
    }
}

/// The selection after moving up a list of `count` items.
fn move_up(selected: Option<usize>, count: usize) -> (r: Option<usize>)
    ensures
        r == selection_up(selected, count as nat),
{
    if count == 0 {
        return selected;
    }
    match selected {
        Some(i) => if i == 0 { Some(count - 1) } else { Some(i - 1) },
        None => Some(count - 1),
    }
}

/// A browser on the jobs of a run: the first job selected, if any, and no
/// window open.
pub fn browse_start(tracker: &JobProgressTracker) -> (r: Browse)
    ensures
        r.view() == (first_of(tracked_steps(tracker.states).len()), None::<(Seq<Seq<char>>, Option<usize>)>),
{
    let count = tracker.job_count();
    Browse { selected: if count > 0 { Some(0) } else { None }, window: None }
}

/// The browser after `key` over the jobs of `tracker`, and whether it is
/// left (see `browse_next`). Opening needs a job selected, as there is one
/// whenever the run has a job.
pub fn browse_step(state: Browse, key: BrowseKey, tracker: &JobProgressTracker) -> (r: (Browse, bool))
    requires
        state.selected matches Some(i) ==> i < tracked_steps(tracker.states).len(),
        key == BrowseKey::Open && state.window is None ==> state.selected is Some,
    ensures
        (r.0.view(), r.1) == browse_next(state.view(), key, tracked_steps(tracker.states)),
        r.0.selected matches Some(i) ==> i < tracked_steps(tracker.states).len(),
{
    let jobs = tracker.job_count();
    if key == BrowseKey::Leave {
        return (state, true);
    }
    let Browse { selected, window } = state;
    match window {
        None => {
            if key == BrowseKey::Open {
                match selected {
                    Some(i) => {
                        let lines = lines_of(tracker, i);
                        let first = if lines.len() > 0 { Some(0) } else { None };
                        (Browse { selected, window: Some((lines, first)) }, false)
                    },
                    None => (Browse { selected, window: None }, false),
                }
            } else if key == BrowseKey::Down {
                (Browse { selected: move_down(selected, jobs), window: None }, false)
            } else if key == BrowseKey::Up {
                (Browse { selected: move_up(selected, jobs), window: None }, false)
            } else {
                (Browse { selected, window: None }, false)
            }
        },
        Some((lines, line)) => {
            if key == BrowseKey::Close {
                (Browse { selected, window: None }, false)
            } else if key == BrowseKey::Down {
                let count = lines.len();
                (Browse { selected, window: Some((lines, move_down(line, count))) }, false)
            } else if key == BrowseKey::Up {
                let count = lines.len();
                (Browse { selected, window: Some((lines, move_up(line, count))) }, false)
            } else {
                (Browse { selected, window: Some((lines, line)) }, false)
            }
        },
    }
}

} // verus!
