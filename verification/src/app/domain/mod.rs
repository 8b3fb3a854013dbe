//! The jobs of a run as events: which jobs are reserved, and what follows
//! an event.
use vstd::prelude::*;
use crate::text::str_eq;

pub mod error;

use error::Error;

verus! {

/// The result of the domain's operations.
pub type Result<T> = core::result::Result<T, Error>;

/// Starts processes in the background and queues the events that follow.
pub trait Consumer {
    /// Whether the consumer keeps a log of the calls it gets (`played`,
    /// `recorded`); none is kept unless an implementation says so.
    open spec fn keeps_log(&self) -> bool {
        false
    }

    /// The commands started so far, in order, when a log is kept.
    open spec fn played(&self) -> Seq<Seq<char>> {
        Seq::empty()
    }

    /// The events queued so far, in order, each with what queuing it
    /// answered, when a log is kept.
    open spec fn recorded(&self) -> Seq<(Event, Result<()>)> {
        Seq::empty()
    }

    /// Starts the process of `cmd`, which sends events to tell how it goes.
    /// A consumer that keeps a log adds the command at the end.
    fn play(&mut self, cmd: &str) -> (r: Result<()>)
        ensures
            final(self).keeps_log() == old(self).keeps_log(),
            old(self).keeps_log() ==> final(self).played() == old(self).played().push(cmd@),
            old(self).keeps_log() ==> final(self).recorded() == old(self).recorded();

    /// Queues an event to handle. A consumer that keeps a log adds the event
    /// and the answer at the end.
    fn record(&mut self, event: Event) -> (r: Result<()>)
        ensures
            final(self).keeps_log() == old(self).keeps_log(),
            old(self).keeps_log() ==> final(self).played() == old(self).played(),
            old(self).keeps_log() ==> final(self).recorded() == old(self).recorded().push((event, r));
}

/// What happened to a job.
#[derive(Debug)]
pub enum JobEvent {
    Reserved,
}

impl Clone for JobEvent {
    fn clone(&self) -> (r: Self)
        ensures
            r == *self,
    {
        JobEvent::Reserved
    }
}

/// An event of the run: a wait for work, or a job to play.
#[derive(Debug)]
pub enum Event {
    Awaiting,
    Play(String),
}

/// A job of the domain.
pub struct Job {}

/// The events of each job, by name, in the order in which the jobs came. It
/// is held in a `Vec`: with a `String` key, vstd's specification of `HashMap`
/// states nothing of what the map holds, and the order in which a `HashMap`
/// is walked, which decides the first free job, is left open.
#[derive(Debug)]
pub struct State {
    map: Vec<(String, Vec<JobEvent>)>,
}

/// The names and events of the jobs of a state.
pub type StateView = Seq<(Seq<char>, Seq<JobEvent>)>;

/// The state once `name` is reserved: a reservation added to its events,
/// the job coming last when it had none.
pub open spec fn reserved(s: StateView, name: Seq<char>) -> StateView {
    if exists|i: int| 0 <= i < s.len() && #[trigger] s[i].0 == name {
        let i = choose|i: int| 0 <= i < s.len() && #[trigger] s[i].0 == name;
        s.update(i, (name, s[i].1.push(JobEvent::Reserved)))
    } else {
        s.push((name, seq![JobEvent::Reserved]))
    }
}

/// The first job with no event, if any.
pub open spec fn first_available(s: StateView) -> Option<Seq<char>>
    decreases s.len(),
{
    if s.len() == 0 {
        None
    } else if s[0].1.len() == 0 {
        Some(s[0].0)
    } else {
        first_available(s.drop_first())
    }
}

fn copy_events(v: &Vec<JobEvent>) -> (r: Vec<JobEvent>)
    ensures
        r@ == v@,
{
    let mut r: Vec<JobEvent> = Vec::new();
    let mut i: usize = 0;
    while i < v.len()
        invariant
            i <= v.len(),
            r@ == v@.take(i as int),
        decreases v.len() - i,
    {
        r.push(v[i].clone());
        proof {
            assert(v@.take(i + 1) =~= v@.take(i as int).push(v@[i as int]));
        }
        i = i + 1;
    }
    assert(v@.take(v.len() as int) =~= v@);
    r
}

impl State {
    /// The names and events of the jobs.
    pub closed spec fn view(&self) -> StateView {
        self.map@.map_values(|e: (String, Vec<JobEvent>)| (e.0@, e.1@))
    }

    /// A job occurs once.
    pub closed spec fn wf(&self) -> bool {
        forall|i: int, j: int| 0 <= i < j < self.view().len() ==> (#[trigger] self.view()[i]).0 != (#[trigger] self.view()[j]).0
    }

    /// A state with no job.
    pub fn new() -> (r: Self)
        ensures
            r.wf(),
            r.view() == StateView::empty(),
    {
        let r = State { map: Vec::new() };
        assert(r.view() =~= StateView::empty());
        r
    }

    /// The state once `name` is reserved.
    pub fn reserve(&self, name: &str) -> (r: State)
        requires
            self.wf(),
        ensures
            r.wf(),
            r.view() == reserved(self.view(), name@),
    {
        let ghost s = self.view();
        let mut map: Vec<(String, Vec<JobEvent>)> = Vec::new();
        let mut found = false;
        let mut i: usize = 0;
        while i < self.map.len()
            invariant
                i <= self.map.len(),
                s == self.view(),
                self.wf(),
                map@.map_values(|e: (String, Vec<JobEvent>)| (e.0@, e.1@)) == Seq::new(i as nat, |k: int|
                    if s[k].0 == name@ { (name@, s[k].1.push(JobEvent::Reserved)) } else { s[k] }),
                found == exists|k: int| 0 <= k < i && #[trigger] s[k].0 == name@,
            decreases self.map.len() - i,
        {
            let ghost before = map@;
            let same = str_eq(self.map[i].0.as_str(), name);
            let events = if same {
                let mut e = copy_events(&self.map[i].1);
                e.push(JobEvent::Reserved);
                found = true;
                e
            } else {
                copy_events(&self.map[i].1)
            };
            let ghost ev = events@;
            map.push((self.map[i].0.clone(), events));
            proof {
                let target = Seq::new((i + 1) as nat, |k: int|
                    if s[k].0 == name@ { (name@, s[k].1.push(JobEvent::Reserved)) } else { s[k] });
                assert(s[i as int] == (self.map@[i as int].0@, self.map@[i as int].1@));
                assert(map@ =~= before.push(map@.last()));
                assert(map@.last().1@ == ev);
                assert(map@.map_values(|e: (String, Vec<JobEvent>)| (e.0@, e.1@)) =~= before.map_values(|e: (String, Vec<JobEvent>)| (e.0@, e.1@)).push((s[i as int].0, ev)));
                assert(map@.map_values(|e: (String, Vec<JobEvent>)| (e.0@, e.1@)) =~= target);
                if same {
                    assert(s[i as int].0 == name@);
                }
            }
            i = i + 1;
        }
        if !found {
            let mut e: Vec<JobEvent> = Vec::new();
            e.push(JobEvent::Reserved);
            let ghost before = map@;
            map.push((name.to_owned(), e));
            proof {
                assert(Seq::new(s.len(), |k: int| if s[k].0 == name@ { (name@, s[k].1.push(JobEvent::Reserved)) } else { s[k] }) =~= s);
                assert(map@.map_values(|e: (String, Vec<JobEvent>)| (e.0@, e.1@)) =~= s.push((name@, seq![JobEvent::Reserved])));
            }
        } else {
            proof {
                let i = choose|i: int| 0 <= i < s.len() && #[trigger] s[i].0 == name@;
                assert(Seq::new(s.len(), |k: int| if s[k].0 == name@ { (name@, s[k].1.push(JobEvent::Reserved)) } else { s[k] })
                    =~= s.update(i, (name@, s[i].1.push(JobEvent::Reserved))));
            }
        }
        let r = State { map };
        proof {
            assert forall|a: int, b: int| 0 <= a < b < r.view().len() implies (#[trigger] r.view()[a]).0 != (#[trigger] r.view()[b]).0 by {
                if b < s.len() {
                    assert(s[a].0 != s[b].0);
                } else {
                    assert(r.view()[a].0 == s[a].0);
                }
            }
        }
        r
    }

    fn first_available_job(&self) -> (r: Option<&str>)
        ensures
            match r {
                Some(n) => first_available(self.view()) == Some(n@),
                None => first_available(self.view()) is None,
            },
    {
        let ghost s = self.view();
        let mut i: usize = 0;
        assert(s.skip(0) =~= s);
        while i < self.map.len()
            invariant
                i <= self.map.len(),
                s == self.view(),
                first_available(s) == first_available(s.skip(i as int)),
            decreases self.map.len() - i,
        {
            proof {
                assert(s.skip(i as int)[0] == s[i as int]);
                assert(s.skip(i as int).drop_first() =~= s.skip(i + 1));
            }
            if self.map[i].1.len() == 0 {
                return Some(self.map[i].0.as_str());
            }
            i = i + 1;
        }
        None
    }
}

/// The log of queued events went from `before` to `after` by queuing the
/// event that plays `name`, once, and `r` tells what queuing it answered: the
/// consumer's error when it failed.
pub open spec fn queued_once<T>(
    before: Seq<(Event, Result<()>)>,
    after: Seq<(Event, Result<()>)>,
    name: Seq<char>,
    r: Result<T>,
) -> bool {
    exists|played: Event, answer: Result<()>|
        #[trigger] before.push((played, answer)) == after
        && (played matches Event::Play(n) && n@ == name)
        && match answer {
            Ok(()) => r is Ok,
            Err(e) => (r matches Err(x) && x == e),
        }
}

/// The event that plays the job `name`.
pub fn play_event(name: &str) -> (e: Event)
    ensures
        e matches Event::Play(n) && n@ == name@,
{
    Event::Play(name.to_owned())
}

/// Runs `event` against `state`: a job to play leaves the state as it is; a
/// wait for work reserves the first job with no event, after queuing the
/// event that plays it, and fails with the consumer's error when the queuing
/// fails. Nothing is ever started.
pub fn run<C: Consumer>(consumer: &mut C, state: State, event: &Event) -> (r: Result<State>)
    requires
        state.wf(),
    ensures
        match event {
            Event::Play(_) => r matches Ok(s) && s.view() == state.view(),
            Event::Awaiting => match first_available(state.view()) {
                None => r matches Ok(s) && s.view() == state.view(),
                Some(name) => r matches Ok(s) ==> s.view() == reserved(state.view(), name),
            },
        },
        r matches Ok(s) ==> s.wf(),
        r is Err ==> event is Awaiting && first_available(state.view()) is Some,
        final(consumer).keeps_log() == old(consumer).keeps_log(),
        old(consumer).keeps_log() ==> final(consumer).played() == old(consumer).played(),
        old(consumer).keeps_log() && !(event is Awaiting && first_available(state.view()) is Some)
            ==> final(consumer).recorded() == old(consumer).recorded(),
        old(consumer).keeps_log() && event is Awaiting && first_available(state.view()) is Some
            ==> queued_once(old(consumer).recorded(), final(consumer).recorded(), first_available(state.view()).unwrap(), r),
{
    proof {
        assert(state.view().skip(0) =~= state.view());
    }
    let e = match event {
        Event::Play(_) => state,
        Event::Awaiting => {
            match state.first_available_job() {
                Some(job) => {
                    let played = play_event(job);
                    let ghost handed = played;
                    let ghost before = consumer.recorded();
                    let answer = consumer.record(played);
                    let ghost given = answer;
                    match answer {
                        Ok(()) => {},
                        Err(error) => {
                            proof {
                                if old(consumer).keeps_log() {
                                    assert(consumer.recorded() == before.push((handed, given)));
                                }
                            }
                            return Err(error);
                        },
                    }
                    let next = state.reserve(job);
                    proof {
                        if old(consumer).keeps_log() {
                            assert(consumer.recorded() == before.push((handed, given)));
                        }
                    }
                    next
                },
                None => state,
            }
        },
    };
    Ok(e)
}

} // verus!
