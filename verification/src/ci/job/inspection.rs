//! The progress reported by jobs, gathered per job.
use vstd::prelude::*;
use indexmap::IndexMap;
use std::time::SystemTime;
use crate::ci::job::Progress;

verus! {

/// A step reported by the job of the given name.
pub struct JobProgress(String, pub Progress);

impl JobProgress {
    /// The name of the job that reported the step.
    pub closed spec fn name_view(&self) -> Seq<char> {
        self.0@
    }

    /// The step.
    pub closed spec fn progress_view(&self) -> Progress {
        self.1
    }

    /// A step of the job `job_name`.
    pub fn new(job_name: &str, progress: Progress) -> (r: Self)
        ensures
            r.name_view() == job_name@,
            r.progress_view() == progress,
    {
        Self(job_name.to_owned(), progress)
    }

    /// The job `job_name` was cancelled.
    pub fn cancel(job_name: String) -> (r: Self)
        ensures
            r.name_view() == job_name@,
            r.progress_view() == Progress::Cancelled,
    {
        Self(job_name, Progress::Cancelled)
    }

    /// The name of the job.
    pub fn name(&self) -> (r: &str)
        ensures
            r@ == self.name_view(),
    {
        self.0.as_str()
    }

    /// The step.
    pub fn step(&self) -> (r: &Progress)
        ensures
            *r == self.progress_view(),
    {
        &self.1
    }

    /// Whether the step tells of a failure.
    pub fn failed(&self) -> (r: bool)
        ensures
            r == self.progress_view().is_failure(),
    {
        self.1.failed()
    }
}

} // verus!

verus! {

/// The steps that one job reported, in order.
#[derive(Debug, Default)]
pub struct ProgressCollector {
    pub progresses: Vec<Progress>,
}

/// Where an instruction of a job stands: run, with its success, or running.
#[derive(Debug)]
pub enum InstructionState {
    Finished(String, bool),
    Running(String),
}

/// Where an instruction stands, by the characters of the instruction.
pub enum InstructionStateView {
    Finished(Seq<char>, bool),
    Running(Seq<char>),
}

impl View for InstructionState {
    type V = InstructionStateView;

    open spec fn view(&self) -> InstructionStateView {
        match self {
            InstructionState::Finished(i, ok) => InstructionStateView::Finished(i@, *ok),
            InstructionState::Running(i) => InstructionStateView::Running(i@),
        }
    }
}

/// The instructions that have run, in order, with their success.
pub open spec fn finished_instructions(ps: Seq<Progress>) -> Seq<InstructionStateView>
    decreases ps.len(),
{
    if ps.len() == 0 {
        Seq::empty()
    } else {
        let r = finished_instructions(ps.drop_last());
        match ps.last() {
            Progress::Partial(i, out) => r.push(InstructionStateView::Finished(i@, out is Success)),
            _ => r,
        }
    }
}

/// Some step of `ps` told the output of the instruction `i`, and `ok` says
/// whether that output is a success.
pub open spec fn told_output(ps: Seq<Progress>, i: Seq<char>, ok: bool) -> bool {
    exists|j: int| 0 <= j < ps.len() && (#[trigger] ps[j]) is Partial
        && ps[j]->Partial_0@ == i && ok == (ps[j]->Partial_1 is Success)
}

/// Each instruction listed as run is one whose output a step told, and its
/// success is whether that output is a success: a command that failed or
/// could not run is never listed as succeeded. There is one for each step
/// that told an output.
pub proof fn lemma_finished_flags(ps: Seq<Progress>)
    ensures
        forall|k: int| 0 <= k < finished_instructions(ps).len() ==> {
            &&& (#[trigger] finished_instructions(ps)[k]) is Finished
            &&& told_output(ps, finished_instructions(ps)[k]->Finished_0, finished_instructions(ps)[k]->Finished_1)
        },
        finished_instructions(ps).len() == ps.filter(|p: Progress| p is Partial).len(),
    decreases ps.len(),
{
    reveal_with_fuel(Seq::<_>::filter, 1);
    if ps.len() > 0 {
        let rest = ps.drop_last();
        lemma_finished_flags(rest);
        let before = finished_instructions(rest);
        let now = finished_instructions(ps);
        assert(ps.filter(|p: Progress| p is Partial).len() == rest.filter(|p: Progress| p is Partial).len()
            + (if ps.last() is Partial { 1int } else { 0int })) by {
            assert(ps.drop_last() == rest);
        }
        assert forall|k: int| 0 <= k < now.len() implies {
            &&& (#[trigger] now[k]) is Finished
            &&& told_output(ps, now[k]->Finished_0, now[k]->Finished_1)
        } by {
            if k < before.len() {
                assert(now[k] == before[k]);
                let j = choose|j: int| 0 <= j < rest.len() && (#[trigger] rest[j]) is Partial
                    && rest[j]->Partial_0@ == before[k]->Finished_0 && before[k]->Finished_1 == (rest[j]->Partial_1 is Success);
                assert(ps[j] == rest[j]);
            } else {
                assert(ps[ps.len() - 1] == ps.last());
            }
        }
    }
}

/// The instruction that runs: the one of the last step, if it started one.
pub open spec fn running_instruction(ps: Seq<Progress>) -> Seq<InstructionStateView> {
    if ps.len() > 0 && ps.last() is Started {
        seq![InstructionStateView::Running(ps.last()->Started_0@)]
    } else {
        Seq::empty()
    }
}

impl ProgressCollector {
    fn push(&mut self, progress: Progress)
        ensures
            final(self).progresses@ == old(self).progresses@.push(progress),
    {
        self.progresses.push(progress);
    }

    /// The last step.
    pub fn last(&self) -> (r: &Progress)
        requires
            self.progresses@.len() > 0,
        ensures
            *r == self.progresses@.last(),
    {
        self.progresses.last().unwrap()
    }

    /// The result of the job, when its last step is its end.
    pub fn terminated(&self) -> (r: Option<bool>)
        requires
            self.progresses@.len() > 0,
        ensures
            r == match self.progresses@.last() {
                Progress::Terminated(ok) => Some(ok),
                _ => None::<bool>,
            },
    {
        match self.last() {
            Progress::Terminated(result) => Some(*result),
            _ => None,
        }
    }

    /// The instructions that have run, in order, with their success, then
    /// the one that runs, if the last step started one.
    pub fn instruction_list(&self) -> (r: Vec<InstructionState>)
        ensures
            r@.map_values(|s: InstructionState| s@) == finished_instructions(self.progresses@) + running_instruction(self.progresses@),
    {
        let ghost ps = self.progresses@;
        let mut vec: Vec<InstructionState> = Vec::new();
        let mut temp: Option<String> = None;
        let mut i: usize = 0;
        while i < self.progresses.len()
            invariant
                i <= self.progresses.len(),
                ps == self.progresses@,
                vec@.map_values(|s: InstructionState| s@) == finished_instructions(ps.take(i as int)),
                match temp {
                    Some(t) => i > 0 && ps[i - 1] is Started && t@ == ps[i - 1]->Started_0@,
                    None => i == 0 || !(ps[i - 1] is Started),
                },
            decreases self.progresses.len() - i,
        {
            let ghost before = vec@;
            proof {
                assert(ps.take(i + 1).drop_last() =~= ps.take(i as int));
                assert(ps.take(i + 1).last() == ps[i as int]);
            }
            match &self.progresses[i] {
                Progress::Partial(instruction, output) => {
                    temp = None;
                    vec.push(InstructionState::Finished(instruction.clone(), output.succeeded()));
                    proof {
                        assert(vec@.map_values(|s: InstructionState| s@) =~= before.map_values(|s: InstructionState| s@).push(
                            InstructionStateView::Finished(instruction@, output is Success)));
                    }
                },
                Progress::Started(instruction) => {
                    temp = Some(instruction.clone());
                },
                _ => {
                    temp = None;
                },
            }
            i = i + 1;
        }
        proof {
            assert(ps.take(ps.len() as int) =~= ps);
        }
        let ghost before = vec@;
        if let Some(instruction) = temp {
            vec.push(InstructionState::Running(instruction));
            proof {
                assert(vec@.map_values(|s: InstructionState| s@) =~= before.map_values(|s: InstructionState| s@).push(
                    InstructionStateView::Running(ps.last()->Started_0@)));
            }
        } else {
            proof {
                assert(running_instruction(ps) =~= Seq::<InstructionStateView>::empty());
            }
        }
        vec
    }
}

/// A point in time, as the clock of the system gives it.
#[verifier::external_type_specification]
#[verifier::external_body]
pub struct ExSystemTime(SystemTime);

/// `SystemTime::now`: the time of the system's clock; nothing is promised
/// of its value.
#[verifier::external_body]
fn now() -> (r: SystemTime) {
    SystemTime::now()
}

/// What the tracker holds for each job: its steps, in the order in which the
/// jobs first reported.
pub uninterp spec fn tracked_steps(m: IndexMap<String, ProgressCollector>) -> Seq<(Seq<char>, Seq<Progress>)>;

/// The jobs of a tracker, in order.
pub open spec fn tracked_names(e: Seq<(Seq<char>, Seq<Progress>)>) -> Seq<Seq<char>> {
    e.map_values(|p: (Seq<char>, Seq<Progress>)| p.0)
}

/// The steps once the step `p` of the job `name` is added: after the steps
/// of that job when it has reported before, else as a new last job.
pub open spec fn with_step(steps: Seq<(Seq<char>, Seq<Progress>)>, name: Seq<char>, p: Progress) -> Seq<(Seq<char>, Seq<Progress>)> {
    if tracked_names(steps).contains(name) {
        let i = tracked_names(steps).index_of(name);
        steps.update(i, (name, steps[i].1.push(p)))
    } else {
        steps.push((name, seq![p]))
    }
}

/// `IndexMap::new`: a map with no entry.
#[verifier::external_body]
fn steps_new() -> (r: IndexMap<String, ProgressCollector>)
    ensures
        tracked_steps(r) == Seq::<(Seq<char>, Seq<Progress>)>::empty(),
{
    IndexMap::new()
}

/// `IndexMap::insert`: when the key is there, its value is replaced in place
/// and the former one handed back; otherwise the entry is added last.
#[verifier::external_body]
fn steps_insert(m: &mut IndexMap<String, ProgressCollector>, key: String, value: ProgressCollector) -> (r: Option<ProgressCollector>)
    ensures
        tracked_names(tracked_steps(*old(m))).contains(key@) ==> exists|i: int|
            0 <= i < tracked_steps(*old(m)).len() && tracked_steps(*old(m))[i].0 == key@
            && tracked_steps(*final(m)) == tracked_steps(*old(m)).update(i, (key@, value.progresses@))
            && r is Some && r.unwrap().progresses@ == tracked_steps(*old(m))[i].1,
        !tracked_names(tracked_steps(*old(m))).contains(key@) ==> tracked_steps(*final(m))
            == tracked_steps(*old(m)).push((key@, value.progresses@)) && r is None,
{
    m.insert(key, value)
}

/// `IndexMap::len`: the number of entries.
#[verifier::external_body]
fn steps_len(m: &IndexMap<String, ProgressCollector>) -> (r: usize)
    ensures
        r == tracked_steps(*m).len(),
{
    m.len()
}

/// `IndexMap::get_index`: the entry at a position, if there is one.
#[verifier::external_body]
pub(crate) fn steps_get_index<'a>(m: &'a IndexMap<String, ProgressCollector>, index: usize) -> (r: Option<(&'a String, &'a ProgressCollector)>)
    ensures
        index < tracked_steps(*m).len() ==> r is Some && r.unwrap().0@ == tracked_steps(*m)[index as int].0
            && r.unwrap().1.progresses@ == tracked_steps(*m)[index as int].1,
        index >= tracked_steps(*m).len() ==> r is None,
{
    m.get_index(index)
}

/// The number of bytes that UTF-8 takes for a character.
pub open spec fn utf8_len(c: char) -> nat {
    if (c as int) < 0x80 {
        1
    } else if (c as int) < 0x800 {
        2
    } else if (c as int) < 0x10000 {
        3
    } else {
        4
    }
}

/// The number of bytes of the UTF-8 encoding of a string.
pub open spec fn byte_len(s: Seq<char>) -> nat
    decreases s.len(),
{
    if s.len() == 0 {
        0
    } else {
        byte_len(s.drop_last()) + utf8_len(s.last())
    }
}

/// `str::len`: the number of bytes of the string's UTF-8 encoding.
#[verifier::external_body]
pub(crate) fn byte_length(s: &str) -> (r: usize)
    ensures
        r == byte_len(s@),
{
    s.len()
}

/// The length in bytes of the longest of the names.
pub open spec fn longest_name(names: Seq<Seq<char>>) -> nat
    decreases names.len(),
{
    if names.len() == 0 {
        0
    } else {
        let r = longest_name(names.drop_last());
        let l = byte_len(names.last());
        if l > r { l } else { r }
    }
}

/// The steps of each job of a run, in the order in which they first
/// reported, when the run started and ended, and whether any step failed.
#[derive(Debug)]
pub struct JobProgressTracker {
    pub start_time: SystemTime,
    pub end_time: Option<SystemTime>,
    pub states: IndexMap<String, ProgressCollector>,
    pub has_failed: bool,
}

impl JobProgressTracker {
    /// Each job has one entry.
    pub open spec fn wf(&self) -> bool {
        tracked_names(tracked_steps(self.states)).no_duplicates()
    }

    /// The number of jobs that reported a step.
    pub fn job_count(&self) -> (r: usize)
        ensures
            r == tracked_steps(self.states).len(),
    {
        steps_len(&self.states)
    }

    /// The length in bytes of the longest name of a job.
    pub fn find_longest_jobname_size(&self) -> (r: usize)
        requires
            tracked_steps(self.states).len() > 0,
        ensures
            r == longest_name(tracked_names(tracked_steps(self.states))),
    {
        let ghost names = tracked_names(tracked_steps(self.states));
        let n = steps_len(&self.states);
        let mut longest: usize = 0;
        let mut i: usize = 0;
        while i < n
            invariant
                i <= n,
                n == tracked_steps(self.states).len(),
                names == tracked_names(tracked_steps(self.states)),
                longest == longest_name(names.take(i as int)),
            decreases n - i,
        {
            let (name, _) = steps_get_index(&self.states, i).unwrap();
            let size = byte_length(name.as_str());
            proof {
                assert(names.take(i + 1).drop_last() =~= names.take(i as int));
                assert(names.take(i + 1).last() == name@);
            }
            if size > longest {
                longest = size;
            }
            i = i + 1;
        }
        assert(names.take(n as int) =~= names);
        longest
    }

    /// A tracker with no step, started now.
    pub fn new() -> (r: Self)
        ensures
            r.wf(),
            tracked_steps(r.states) == Seq::<(Seq<char>, Seq<Progress>)>::empty(),
            r.end_time is None,
            !r.has_failed,
    {
        let r = Self { start_time: now(), end_time: None, states: steps_new(), has_failed: false };
        assert(tracked_names(tracked_steps(r.states)) =~= Seq::<Seq<char>>::empty());
        r
    }

    /// Adds a step to those of its job (a job that never reported comes
    /// last); a failed step marks the run as failed.
    pub fn record(&mut self, job_progress: JobProgress)
        requires
            old(self).wf(),
        ensures
            final(self).wf(),
            final(self).has_failed == (old(self).has_failed || job_progress.progress_view().is_failure()),
            final(self).end_time == old(self).end_time,
            tracked_steps(final(self).states) == with_step(tracked_steps(old(self).states), job_progress.name_view(),
                job_progress.progress_view()),
    {
        self.has_failed = self.has_failed || job_progress.failed();
        let JobProgress(name, progress) = job_progress;
        let ghost p = progress;
        let ghost before = tracked_steps(self.states);
        let empty = ProgressCollector { progresses: Vec::new() };
        let previous = steps_insert(&mut self.states, name.clone(), empty);
        let mut collector = match previous {
            Some(c) => c,
            None => ProgressCollector { progresses: Vec::new() },
        };
        let ghost held = collector.progresses@;
        collector.push(progress);
        let ghost middle = tracked_steps(self.states);
        steps_insert(&mut self.states, name, collector);
        proof {
            if tracked_names(before).contains(name@) {
                let i = choose|i: int| 0 <= i < before.len() && before[i].0 == name@
                    && middle == before.update(i, (name@, Seq::<Progress>::empty()))
                    && held == before[i].1;
                assert(tracked_names(middle)[i] == name@);
                let j = choose|j: int| 0 <= j < middle.len() && middle[j].0 == name@
                    && tracked_steps(self.states) == middle.update(j, (name@, held.push(p)));
                if j != i {
                    assert(tracked_names(before)[j] == name@);
                    assert(tracked_names(before)[i] == name@);
                }
                assert(tracked_steps(self.states) =~= before.update(i, (name@, before[i].1.push(p))));
                assert(tracked_names(tracked_steps(self.states)) =~= tracked_names(before));
                let k = tracked_names(before).index_of(name@);
                assert(tracked_names(before)[k] == name@);
                assert(tracked_names(before)[i] == name@);
                assert(k == i);
            } else {
                assert(held =~= Seq::<Progress>::empty());
                assert(tracked_names(middle)[before.len() as int] == name@);
                let j = choose|j: int| 0 <= j < middle.len() && middle[j].0 == name@
                    && tracked_steps(self.states) == middle.update(j, (name@, held.push(p)));
                if j != before.len() {
                    assert(tracked_names(before)[j] == name@);
                }
                assert(tracked_steps(self.states) =~= before.push((name@, seq![p])));
                assert(tracked_names(tracked_steps(self.states)) =~= tracked_names(before).push(name@));
            }
        }
    }

    /// Marks the end of the run, the first time only.
    pub fn finish(&mut self)
        ensures
            final(self).end_time is Some,
            old(self).end_time is Some ==> final(self).end_time == old(self).end_time,
            final(self).has_failed == old(self).has_failed,
            final(self).states == old(self).states,
            final(self).wf() == old(self).wf(),
    {
        if self.end_time.is_none() {
            self.end_time = Some(now());
        }
    }
}

} // verus!
