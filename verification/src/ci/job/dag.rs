//! The jobs of a run, ordered by the constraints between them: which job may
//! start, and what follows when one ends.
use vstd::prelude::*;
use indexmap::IndexMap;

pub mod constraint_matrix;
pub mod constraint_matrix_constraint_iterator;
use crate::ci::job::{Job, JobModel};
use crate::ci::job::constraint_matrix::{ConstraintMatrix, blocked_by_graph, blocks_graph, job_names};
use crate::ci::job::env_parser::EnvMap;
use crate::graph::{Graph, is_path, lemma_reachable_within, lemma_reaches_extend, reachable, reaches};
use crate::names::{names_view, strictly_ascending, strictly_descending};
use crate::text::{copy_strings, lemma_seq_lt_total, seq_lt, str_eq};

verus! {

/// How the first job of a pair constrains the second: a job is free of
/// itself, indifferent to a job it does not block, and blocks a job as many
/// times as a constraint says so.
#[derive(Debug)]
pub enum Constraint {
    Free,
    Indifferent,
    Blocked(usize),
}

impl Constraint {
    /// The constraint once one more constraint blocks the pair; a job cannot
    /// block itself.
    pub fn constrain(&self) -> (r: Result<Self, ()>)
        requires
            !(*self matches Constraint::Blocked(n) && n == usize::MAX),
        ensures
            match *self {
                Constraint::Free => r is Err,
                Constraint::Indifferent => r == Ok::<Constraint, ()>(Constraint::Blocked(1)),
                Constraint::Blocked(n) => r == Ok::<Constraint, ()>(Constraint::Blocked((n + 1) as usize)),
            },
    {
        match self {
            Self::Free => Err(()),
            Self::Indifferent => Ok(Self::Blocked(1)),
            Self::Blocked(n) => Ok(Self::Blocked(*n + 1)),
        }
    }
}

impl Default for Constraint {
    fn default() -> (r: Self)
        ensures
            r == Constraint::Indifferent,
    {
        Self::Indifferent
    }
}

/// Why the jobs and constraints of a run cannot be ordered.
#[derive(Debug)]
pub enum Error {
    JobCannotBlockItself(String),
    UnknownJobInConstraint(String),
    CycleExistsBecauseOf(String),
}

/// The fault that an error reports, with the names of the jobs at fault.
pub enum ErrorView {
    JobCannotBlockItself(Seq<char>),
    UnknownJobInConstraint(Seq<char>),
    CycleExistsBecauseOf(Seq<char>),
}

impl View for Error {
    type V = ErrorView;

    open spec fn view(&self) -> ErrorView {
        match self {
            Error::JobCannotBlockItself(j) => ErrorView::JobCannotBlockItself(j@),
            Error::UnknownJobInConstraint(j) => ErrorView::UnknownJobInConstraint(j@),
            Error::CycleExistsBecauseOf(j) => ErrorView::CycleExistsBecauseOf(j@),
        }
    }
}

impl Error {
    /// The message that tells a user of the error.
    pub fn message(&self) -> (r: String)
        ensures
            r@ == match self {
                Error::JobCannotBlockItself(j) => "job "@ + j@ + " is blocking itself"@,
                Error::UnknownJobInConstraint(j) => "job "@ + j@ + " in constraint list doesn't exist"@,
                Error::CycleExistsBecauseOf(j) => "a cycle exists in the job DAG because of "@ + j@,
            },
    {
        match self {
            Error::JobCannotBlockItself(j) => {
                let mut r = String::from_str("job ");
                r.append(j.as_str());
                r.append(" is blocking itself");
                r
            },
            Error::UnknownJobInConstraint(j) => {
                let mut r = String::from_str("job ");
                r.append(j.as_str());
                r.append(" in constraint list doesn't exist");
                r
            },
            Error::CycleExistsBecauseOf(j) => {
                let mut r = String::from_str("a cycle exists in the job DAG because of ");
                r.append(j.as_str());
                r
            },
        }
    }
}

/// Why the constraints between jobs cannot be tabulated.
#[derive(Debug)]
pub enum DagError {
    JobCannotBlockItself(String),
    UnknownJobInConstraint(String),
    CycleExistsBetween(String, String),
}

/// The fault that an error of the constraint table reports.
pub enum DagErrorView {
    JobCannotBlockItself(Seq<char>),
    UnknownJobInConstraint(Seq<char>),
    CycleExistsBetween(Seq<char>, Seq<char>),
}

impl View for DagError {
    type V = DagErrorView;

    open spec fn view(&self) -> DagErrorView {
        match self {
            DagError::JobCannotBlockItself(j) => DagErrorView::JobCannotBlockItself(j@),
            DagError::UnknownJobInConstraint(j) => DagErrorView::UnknownJobInConstraint(j@),
            DagError::CycleExistsBetween(a, b) => DagErrorView::CycleExistsBetween(a@, b@),
        }
    }
}

/// The names of the two jobs of each constraint (blocking, blocked).
pub open spec fn constraint_views(cs: Seq<(String, String)>) -> Seq<(Seq<char>, Seq<char>)> {
    cs.map_values(|c: (String, String)| (c.0@, c.1@))
}

/// What is wrong with one constraint, if anything, given the jobs' names: a
/// job that blocks itself, else an unknown blocking job, else an unknown
/// blocked job.
pub open spec fn constraint_fault(names: Seq<Seq<char>>, c: (Seq<char>, Seq<char>)) -> Option<ErrorView> {
    if c.0 == c.1 {
        Some(ErrorView::JobCannotBlockItself(c.1))
    } else if !names.contains(c.0) {
        Some(ErrorView::UnknownJobInConstraint(c.0))
    } else if !names.contains(c.1) {
        Some(ErrorView::UnknownJobInConstraint(c.1))
    } else {
        None
    }
}

/// The fault of the first faulty constraint, if there is one.
pub open spec fn first_fault(names: Seq<Seq<char>>, cs: Seq<(Seq<char>, Seq<char>)>) -> Option<ErrorView>
    decreases cs.len(),
{
    if cs.len() == 0 {
        None
    } else {
        match constraint_fault(names, cs[0]) {
            Some(e) => Some(e),
            None => first_fault(names, cs.drop_first()),
        }
    }
}

/// No constraint is faulty exactly when none of them has a fault.
pub proof fn lemma_first_fault(names: Seq<Seq<char>>, cs: Seq<(Seq<char>, Seq<char>)>)
    ensures
        first_fault(names, cs) is None <==> forall|i: int| 0 <= i < cs.len() ==> constraint_fault(names, #[trigger] cs[i]) is None,
    decreases cs.len(),
{
    if cs.len() > 0 {
        lemma_first_fault(names, cs.drop_first());
        if first_fault(names, cs) is None {
            assert forall|i: int| 0 <= i < cs.len() implies constraint_fault(names, #[trigger] cs[i]) is None by {
                if i > 0 {
                    assert(cs[i] == cs.drop_first()[i - 1]);
                }
            }
        } else if constraint_fault(names, cs[0]) is None {
            let k = choose|k: int| 0 <= k < cs.drop_first().len() && constraint_fault(names, #[trigger] cs.drop_first()[k]) is Some;
            assert(cs.drop_first()[k] == cs[k + 1]);
        }
    }
}

/// The fault of the first faulty constraint among the first ones.
pub proof fn lemma_first_fault_prefix(names: Seq<Seq<char>>, cs: Seq<(Seq<char>, Seq<char>)>, i: int)
    requires
        0 <= i < cs.len(),
        first_fault(names, cs.take(i)) is None,
    ensures
        first_fault(names, cs.take(i + 1)) == constraint_fault(names, cs[i]),
    decreases i,
{
    if i == 0 {
        assert(cs.take(1).drop_first() =~= Seq::<(Seq<char>, Seq<char>)>::empty());
        assert(cs.take(1)[0] == cs[0]);
        assert(first_fault(names, cs.take(1).drop_first()) is None);
    } else {
        assert(cs.take(i)[0] == cs[0]);
        assert(cs.take(i + 1)[0] == cs[0]);
        assert(cs.drop_first()[i - 1] == cs[i]);
        assert(cs.take(i).drop_first() =~= cs.drop_first().take(i - 1));
        assert(cs.take(i + 1).drop_first() =~= cs.drop_first().take(i));
        assert(constraint_fault(names, cs[0]) is None);
        lemma_first_fault_prefix(names, cs.drop_first(), i - 1);
        assert(first_fault(names, cs.take(i + 1)) == first_fault(names, cs.take(i + 1).drop_first()));
    }
}

/// How a job ended.
#[derive(Debug, Clone, Copy, PartialEq, Eq, Structural, PartialOrd, Ord)]
pub enum JobResult {
    Success,
    Failure,
}

/// Where a job stands.
#[derive(Debug)]
pub enum JobState {
    Pending,
    Started,
    Blocked,
    Terminated(JobResult),
    Cancelled(Vec<String>),
}

/// Where a job stands, with the names of the jobs whose failure cancelled it.
pub enum JobStateView {
    Pending,
    Started,
    Blocked,
    Terminated(JobResult),
    Cancelled(Seq<Seq<char>>),
}

impl View for JobState {
    type V = JobStateView;

    open spec fn view(&self) -> JobStateView {
        match self {
            JobState::Pending => JobStateView::Pending,
            JobState::Started => JobStateView::Started,
            JobState::Blocked => JobStateView::Blocked,
            JobState::Terminated(r) => JobStateView::Terminated(*r),
            JobState::Cancelled(v) => JobStateView::Cancelled(names_view(v@)),
        }
    }
}

impl JobStateView {
    /// The job has not ended: it waits, runs or is blocked.
    pub open spec fn unresolved(self) -> bool {
        self is Pending || self is Started || self is Blocked
    }
}

impl Clone for JobState {
    fn clone(&self) -> (r: Self)
        ensures
            r@ == self@,
    {
        match self {
            JobState::Pending => JobState::Pending,
            JobState::Started => JobState::Started,
            JobState::Blocked => JobState::Blocked,
            JobState::Terminated(r) => JobState::Terminated(*r),
            JobState::Cancelled(v) => JobState::Cancelled(copy_strings(v.as_slice())),
        }
    }
}

impl JobState {
    /// Whether the job has not ended.
    pub fn is_unresolved(&self) -> (r: bool)
        ensures
            r == self@.unresolved(),
    {
        matches!(self, Self::Pending | Self::Started | Self::Blocked)
    }

    /// The word that names the state.
    pub fn label(&self) -> (r: &'static str)
        ensures
            r@ == match self@ {
                JobStateView::Pending => "pending"@,
                JobStateView::Started => "started"@,
                JobStateView::Blocked => "blocked"@,
                JobStateView::Terminated(JobResult::Success) => "success"@,
                JobStateView::Terminated(JobResult::Failure) => "failure"@,
                JobStateView::Cancelled(_) => "cancelled"@,
            },
    {
        match self {
            Self::Pending => "pending",
            Self::Started => "started",
            Self::Blocked => "blocked",
            Self::Terminated(JobResult::Success) => "success",
            Self::Terminated(JobResult::Failure) => "failure",
            Self::Cancelled(_) => "cancelled",
        }
    }
}

impl Default for JobState {
    fn default() -> (r: Self)
        ensures
            r@ == JobStateView::Pending,
    {
        Self::Pending
    }
}

/// Every name but `name`.
pub open spec fn other_than(name: Seq<char>) -> spec_fn(Seq<char>) -> bool {
    |x: Seq<char>| x != name
}

/// A list of job names that hands them out in the order in which it was
/// given them.
#[derive(Debug)]
pub struct JobList {
    vec: Vec<String>,
}

impl JobList {
    /// The names, last to be handed out first.
    pub closed spec fn items(&self) -> Seq<Seq<char>> {
        names_view(self.vec@)
    }

    /// A list that hands out `vec` in order.
    pub fn from(vec: &[String]) -> (r: Self)
        ensures
            r.items() == names_view(vec@).reverse(),
    {
        let mut v: Vec<String> = Vec::new();
        let mut i: usize = vec.len();
        while i > 0
            invariant
                i <= vec.len(),
                names_view(v@) == names_view(vec@).subrange(i as int, vec@.len() as int).reverse(),
            decreases i,
        {
            i = i - 1;
            let ghost before = v@;
            v.push(vec[i].clone());
            proof {
                assert(v@ =~= before.push(vec@[i as int]));
                assert(names_view(v@) =~= names_view(before).push(vec@[i as int]@));
                assert(names_view(vec@).subrange(i as int, vec@.len() as int).reverse() =~= names_view(vec@).subrange(i + 1, vec@.len() as int).reverse().push(vec@[i as int]@));
            }
        }
        assert(names_view(vec@).subrange(0, vec@.len() as int) =~= names_view(vec@));
        Self { vec: v }
    }

    /// An empty list.
    pub fn new() -> (r: Self)
        ensures
            r.items() == Seq::<Seq<char>>::empty(),
    {
        let r = Self { vec: Vec::new() };
        assert(r.items() =~= Seq::<Seq<char>>::empty());
        r
    }

    /// Takes `name` out of the list.
    pub fn remove_job(&mut self, name: &str)
        ensures
            final(self).items() == old(self).items().filter(other_than(name@)),
    {
        let mut kept: Vec<String> = Vec::new();
        let mut i: usize = 0;
        while i < self.vec.len()
            invariant
                i <= self.vec.len(),
                self.vec@ == old(self).vec@,
                names_view(kept@) == names_view(self.vec@).take(i as int).filter(other_than(name@)),
            decreases self.vec.len() - i,
        {
            let ghost before = kept@;
            proof {
                let t = names_view(self.vec@).take(i + 1);
                assert(t.drop_last() =~= names_view(self.vec@).take(i as int));
                assert(t.last() == self.vec@[i as int]@);
                reveal_with_fuel(Seq::<_>::filter, 1);
                assert(t =~= names_view(self.vec@).take(i as int).push(self.vec@[i as int]@));
            }
            if !str_eq(self.vec[i].as_str(), name) {
                kept.push(self.vec[i].clone());
                proof {
                    assert(names_view(kept@) =~= names_view(before).push(self.vec@[i as int]@));
                }
            }
            i = i + 1;
        }
        assert(names_view(self.vec@).take(self.vec.len() as int) =~= names_view(self.vec@));
        self.vec = kept;
    }

    /// Whether the list is empty.
    pub fn is_empty(&self) -> (r: bool)
        ensures
            r == (self.items().len() == 0),
    {
        self.vec.len() == 0
    }

    /// Hands out the next name.
    pub fn shift(&mut self) -> (r: Option<String>)
        ensures
            old(self).items().len() == 0 ==> r is None && final(self).items() == old(self).items(),
            old(self).items().len() > 0 ==> r is Some && r.unwrap()@ == old(self).items().last()
                && final(self).items() == old(self).items().drop_last(),
    {
        let r = self.vec.pop();
        proof {
            if old(self).vec@.len() > 0 {
                assert(self.vec@ =~= old(self).vec@.drop_last());
                assert(names_view(self.vec@) =~= names_view(old(self).vec@).drop_last());
            }
        }
        r
    }

    /// The names, last to be handed out first.
    pub fn to_vec(&self) -> (r: Vec<String>)
        ensures
            names_view(r@) == self.items(),
    {
        copy_strings(self.vec.as_slice())
    }
}

/// What `k` calls of `shift` hand out, in order, from a list holding
/// `items`, and what the list holds after them (see `shift`): the last item
/// each time, and nothing once the list is empty.
pub open spec fn shifts(items: Seq<Seq<char>>, k: nat) -> (Seq<Option<Seq<char>>>, Seq<Seq<char>>)
    decreases k,
{
    if k == 0 {
        (Seq::empty(), items)
    } else {
        let (out, left) = shifts(items, (k - 1) as nat);
        if left.len() == 0 {
            (out.push(None), left)
        } else {
            (out.push(Some(left.last())), left.drop_last())
        }
    }
}

/// After `k` shifts of a list made from `v`, the first `k` names of `v` came
/// out in order and the others are left.
proof fn lemma_shifts_from(v: Seq<Seq<char>>, k: nat)
    requires
        k <= v.len(),
    ensures
        shifts(v.reverse(), k).0 == v.take(k as int).map_values(|n: Seq<char>| Some(n)),
        shifts(v.reverse(), k).1 == v.reverse().take(v.len() - k),
    decreases k,
{
    if k == 0 {
        assert(v.take(0).map_values(|n: Seq<char>| Some(n)) =~= Seq::<Option<Seq<char>>>::empty());
        assert(v.reverse().take(v.len() as int) =~= v.reverse());
    } else {
        lemma_shifts_from(v, (k - 1) as nat);
        let left = v.reverse().take(v.len() - (k - 1));
        assert(left.last() == v[k - 1]);
        assert(left.drop_last() =~= v.reverse().take(v.len() - k));
        assert(v.take(k as int).map_values(|n: Seq<char>| Some(n))
            =~= v.take(k - 1).map_values(|n: Seq<char>| Some(n)).push(Some(v[k - 1])));
    }
}

/// A list made from `v` (`JobList::from`) hands out the names of `v` in
/// order: `v.len()` shifts give back each name of `v`, first to last, and
/// leave the list empty; every shift after that gives nothing.
pub proof fn lemma_list_gives_back_in_order(v: Seq<Seq<char>>, more: nat)
    ensures
        shifts(v.reverse(), v.len()) == (v.map_values(|n: Seq<char>| Some(n)), Seq::<Seq<char>>::empty()),
        forall|k: int| v.len() <= k < v.len() + more ==> #[trigger] shifts(v.reverse(), (v.len() + more) as nat).0[k] is None,
    decreases more,
{
    lemma_shifts_from(v, v.len());
    assert(v.take(v.len() as int) =~= v);
    assert(v.reverse().take(0) =~= Seq::<Seq<char>>::empty());
    if more > 0 {
        lemma_list_gives_back_in_order(v, (more - 1) as nat);
        let before = shifts(v.reverse(), (v.len() + more - 1) as nat);
        lemma_shifts_stay_empty(v.reverse(), v.len(), (more - 1) as nat);
        assert(before.0.len() == v.len() + more - 1);
        assert(shifts(v.reverse(), (v.len() + more) as nat).0 == before.0.push(None));
        assert forall|k: int| v.len() <= k < v.len() + more implies #[trigger] shifts(v.reverse(), (v.len() + more) as nat).0[k] is None by {
            if k < v.len() + more - 1 {
                assert(shifts(v.reverse(), (v.len() + more) as nat).0[k] == before.0[k]);
            }
        }
    }
}

/// Once a list is empty it stays empty, and the count of what came out grows
/// by one each call.
proof fn lemma_shifts_stay_empty(items: Seq<Seq<char>>, k: nat, extra: nat)
    requires
        shifts(items, k).1.len() == 0,
    ensures
        shifts(items, k + extra).1.len() == 0,
        shifts(items, k + extra).0.len() == shifts(items, k).0.len() + extra,
    decreases extra,
{
    if extra > 0 {
        lemma_shifts_stay_empty(items, k, (extra - 1) as nat);
        assert((k + extra - 1) as nat + 1 == k + extra);
    }
}

} // verus!

verus! {

/// The pairs of a sequence of table entries.
pub open spec fn table_pairs(e: Seq<(String, String, Constraint)>) -> Seq<(Seq<char>, Seq<char>)> {
    e.map_values(|t: (String, String, Constraint)| (t.0@, t.1@))
}

/// The constraint of each ordered pair of jobs. A pair occurs once. It is
/// held in a `Vec`: with `String` keys, vstd's specification of `BTreeMap`
/// states nothing of what the map holds, so no contract over it could be
/// proved.
#[derive(Debug)]
pub struct ConstraintTable {
    entries: Vec<(String, String, Constraint)>,
}

impl ConstraintTable {
    /// The pairs, in the order in which they were added.
    pub closed spec fn pairs(&self) -> Seq<(Seq<char>, Seq<char>)> {
        table_pairs(self.entries@)
    }

    /// A position of `k`.
    pub closed spec fn index_of(&self, k: (Seq<char>, Seq<char>)) -> int {
        choose|i: int| 0 <= i < self.entries@.len() && (self.entries@[i].0@, self.entries@[i].1@) == k
    }

    /// The constraint of each pair.
    pub closed spec fn table(&self) -> Map<(Seq<char>, Seq<char>), Constraint> {
        Map::new(
            |k: (Seq<char>, Seq<char>)| self.pairs().contains(k),
            |k: (Seq<char>, Seq<char>)| self.entries@[self.index_of(k)].2,
        )
    }

    /// No pair occurs twice.
    pub closed spec fn wf(&self) -> bool {
        self.pairs().no_duplicates()
    }

    proof fn lemma_entry(&self, i: int)
        requires
            self.wf(),
            0 <= i < self.entries@.len(),
        ensures
            self.table().contains_key((self.entries@[i].0@, self.entries@[i].1@)),
            self.table()[(self.entries@[i].0@, self.entries@[i].1@)] == self.entries@[i].2,
    {
        let k = (self.entries@[i].0@, self.entries@[i].1@);
        assert(self.pairs()[i] == k);
        let j = self.index_of(k);
        assert(self.pairs()[j] == k);
        if j != i {
            assert(self.pairs()[j] != self.pairs()[i]);
        }
    }

    /// An empty table.
    pub fn new() -> (r: Self)
        ensures
            r.wf(),
            r.table() == Map::<(Seq<char>, Seq<char>), Constraint>::empty(),
    {
        let r = ConstraintTable { entries: Vec::new() };
        assert(r.table() =~= Map::<(Seq<char>, Seq<char>), Constraint>::empty());
        r
    }

    fn position(&self, a: &str, b: &str) -> (r: Option<usize>)
        ensures
            match r {
                Some(i) => i < self.entries@.len() && self.entries@[i as int].0@ == a@ && self.entries@[i as int].1@ == b@,
                None => !self.pairs().contains((a@, b@)),
            },
    {
        let mut i: usize = 0;
        while i < self.entries.len()
            invariant
                i <= self.entries.len(),
                forall|j: int| 0 <= j < i ==> (self.entries@[j].0@, self.entries@[j].1@) != (a@, b@),
            decreases self.entries.len() - i,
        {
            if str_eq(self.entries[i].0.as_str(), a) && str_eq(self.entries[i].1.as_str(), b) {
                return Some(i);
            }
            i = i + 1;
        }
        None
    }

    proof fn lemma_update(&self, old_self: ConstraintTable, at: int, key: (Seq<char>, Seq<char>))
        requires
            old_self.wf(),
            self.pairs().no_duplicates(),
            0 <= at < self.entries@.len(),
            (self.entries@[at].0@, self.entries@[at].1@) == key,
            self.entries@.len() == old_self.entries@.len() || self.entries@.len() == old_self.entries@.len() + 1,
            self.entries@.len() == old_self.entries@.len() + 1 ==> at == old_self.entries@.len(),
            forall|i: int| 0 <= i < self.entries@.len() && i != at ==> self.entries@[i] == old_self.entries@[i],
            self.entries@.len() == old_self.entries@.len() ==> (old_self.entries@[at].0@, old_self.entries@[at].1@) == key,
        ensures
            self.wf(),
            self.table() == old_self.table().insert(key, self.entries@[at].2),
    {
        let m = self.table();
        let m2 = old_self.table().insert(key, self.entries@[at].2);
        assert forall|k: (Seq<char>, Seq<char>)| m.dom().contains(k) <==> m2.dom().contains(k) by {
            if m.dom().contains(k) {
                let j = choose|j: int| 0 <= j < self.pairs().len() && self.pairs()[j] == k;
                if j != at {
                    assert(old_self.pairs()[j] == k);
                }
            }
            if m2.dom().contains(k) && k != key {
                let j = choose|j: int| 0 <= j < old_self.pairs().len() && old_self.pairs()[j] == k;
                assert(self.pairs()[j] == k);
            }
            if k == key {
                assert(self.pairs()[at] == k);
            }
        }
        assert forall|k: (Seq<char>, Seq<char>)| #[trigger] m.dom().contains(k) implies m[k] == m2[k] by {
            let j = choose|j: int| 0 <= j < self.pairs().len() && self.pairs()[j] == k;
            self.lemma_entry(j);
            if k != key {
                assert(j != at);
                old_self.lemma_entry(j);
            } else {
                self.lemma_entry(at);
            }
        }
        assert(m =~= m2);
    }

    /// Sets the constraint of the pair (`a`, `b`).
    pub fn set(&mut self, a: &str, b: &str, c: Constraint)
        requires
            old(self).wf(),
        ensures
            final(self).wf(),
            final(self).table() == old(self).table().insert((a@, b@), c),
    {
        let ghost old_self = *self;
        let ghost old_entries = self.entries@;
        let ghost at: int;
        match self.position(a, b) {
            Some(i) => {
                self.entries.set(i, (a.to_owned(), b.to_owned(), c));
                proof {
                    at = i as int;
                    assert(table_pairs(self.entries@) =~= table_pairs(old_entries));
                }
            },
            None => {
                self.entries.push((a.to_owned(), b.to_owned(), c));
                proof {
                    at = old_entries.len() as int;
                    assert(table_pairs(self.entries@) =~= table_pairs(old_entries).push((a@, b@)));
                    assert forall|x: int, y: int| 0 <= x < y < table_pairs(self.entries@).len()
                        implies table_pairs(self.entries@)[x] != table_pairs(self.entries@)[y] by {
                        if y == old_entries.len() {
                            assert(table_pairs(old_entries)[x] == table_pairs(self.entries@)[x]);
                        }
                    }
                }
            },
        }
        proof {
            self.lemma_update(old_self, at, (a@, b@));
        }
    }

    /// The constraint of the pair (`a`, `b`), if the table has it.
    pub fn get(&self, a: &str, b: &str) -> (r: Option<&Constraint>)
        requires
            self.wf(),
        ensures
            match r {
                Some(c) => self.table().contains_key((a@, b@)) && self.table()[(a@, b@)] == *c,
                None => !self.table().contains_key((a@, b@)),
            },
    {
        match self.position(a, b) {
            Some(i) => {
                proof {
                    self.lemma_entry(i as int);
                }
                Some(&self.entries[i].2)
            },
            None => None,
        }
    }

    /// One more constraint blocks the pair (`a`, `b`), if the table has it;
    /// fails when the pair is a job with itself.
    pub fn constrain(&mut self, a: &str, b: &str) -> (r: Result<(), ()>)
        requires
            old(self).wf(),
            old(self).table().contains_key((a@, b@)) ==> !(old(self).table()[(a@, b@)] matches Constraint::Blocked(n) && n == usize::MAX),
        ensures
            final(self).wf(),
            !old(self).table().contains_key((a@, b@)) ==> r is Ok && final(self).table() == old(self).table(),
            old(self).table().contains_key((a@, b@)) ==> match old(self).table()[(a@, b@)] {
                Constraint::Free => r is Err && final(self).table() == old(self).table(),
                Constraint::Indifferent => r is Ok && final(self).table() == old(self).table().insert((a@, b@), Constraint::Blocked(1)),
                Constraint::Blocked(n) => r is Ok && final(self).table() == old(self).table().insert((a@, b@), Constraint::Blocked((n + 1) as usize)),
            },
    {
        match self.position(a, b) {
            Some(i) => {
                proof {
                    self.lemma_entry(i as int);
                }
                match self.entries[i].2.constrain() {
                    Ok(c) => {
                        self.set(a, b, c);
                        Ok(())
                    },
                    Err(()) => Err(()),
                }
            },
            None => Ok(()),
        }
    }
}

} // verus!

verus! {

/// What the scheduler holds of a job: the job, its state, the names of the
/// jobs it blocks and the names of the jobs that still block it (the last to
/// be handed out first).
pub type WatcherView = (JobModel, JobStateView, Seq<Seq<char>>, Seq<Seq<char>>);

/// A job with its state and its links to the other jobs.
#[derive(Debug)]
pub struct JobWatcher {
    job: Job,
    state: JobState,
    blocks_job: Vec<String>,
    blocked_by_jobs: JobList,
}

impl View for JobWatcher {
    type V = WatcherView;

    closed spec fn view(&self) -> WatcherView {
        (self.job@, self.state@, names_view(self.blocks_job@), self.blocked_by_jobs.items())
    }
}

impl JobWatcher {
    /// A job with its state, the jobs it blocks and the jobs that block it.
    pub fn new(job: Job, state: JobState, blocks_job: Vec<String>, blocked_by_jobs: JobList) -> (r: Self)
        ensures
            r@ == (job@, state@, names_view(blocks_job@), blocked_by_jobs.items()),
    {
        Self { job, state, blocks_job, blocked_by_jobs }
    }
}

/// The names of the watched jobs, in order.
pub open spec fn watcher_names(e: Seq<WatcherView>) -> Seq<Seq<char>> {
    e.map_values(|w: WatcherView| w.0.0)
}

/// The names of the pending jobs.
pub open spec fn pending_set(e: Seq<WatcherView>) -> Set<Seq<char>> {
    Set::new(|x: Seq<char>| exists|i: int| 0 <= i < e.len() && #[trigger] e[i].0.0 == x && e[i].1 is Pending)
}

/// Some job is pending.
pub open spec fn has_pending(e: Seq<WatcherView>) -> bool {
    exists|i: int| 0 <= i < e.len() && (#[trigger] e[i]).1 is Pending
}

/// `i` is the first pending job.
pub open spec fn is_first_pending(e: Seq<WatcherView>, i: int) -> bool {
    &&& 0 <= i < e.len()
    &&& e[i].1 is Pending
    &&& forall|j: int| 0 <= j < i ==> !((#[trigger] e[j]).1 is Pending)
}

/// The first pending job.
pub open spec fn first_pending(e: Seq<WatcherView>) -> int {
    choose|i: int| is_first_pending(e, i)
}

/// When some job is pending, there is a first one.
pub proof fn lemma_first_pending(e: Seq<WatcherView>)
    requires
        has_pending(e),
    ensures
        is_first_pending(e, first_pending(e)),
    decreases e.len(),
{
    if e[0].1 is Pending {
        assert(is_first_pending(e, 0));
    } else {
        let k = choose|i: int| 0 <= i < e.len() && (#[trigger] e[i]).1 is Pending;
        assert(e.drop_first()[k - 1] == e[k]);
        lemma_first_pending(e.drop_first());
        let f = first_pending(e.drop_first());
        assert(e[f + 1] == e.drop_first()[f]);
        assert forall|j: int| 0 <= j < f + 1 implies !((#[trigger] e[j]).1 is Pending) by {
            if j > 0 {
                assert(e[j] == e.drop_first()[j - 1]);
            }
        }
        assert(is_first_pending(e, f + 1));
    }
}

/// The names are in ascending order and each occurs once; the jobs that a
/// job blocks are job names, in descending order; a job that is neither
/// blocked nor cancelled has no job left that blocks it; a job that has not
/// succeeded still blocks each job it blocks, and a job that failed has each
/// job it blocks cancelled.
pub closed spec fn links_ok(e: Seq<WatcherView>) -> bool {
    let n = watcher_names(e);
    &&& strictly_ascending(n)
    &&& forall|i: int| 0 <= i < e.len() ==> strictly_descending(#[trigger] e[i].2)
    &&& forall|i: int, x: Seq<char>| 0 <= i < e.len() && (#[trigger] e[i].2.contains(x)) ==> n.contains(x)
    &&& forall|i: int| 0 <= i < e.len() && !(e[i].1 is Blocked) && !(e[i].1 is Cancelled) ==> (#[trigger] e[i].3).len() == 0
    &&& forall|i: int, j: int| 0 <= i < e.len() && 0 <= j < e.len() && #[trigger] e[i].2.contains(#[trigger] n[j])
        && e[i].1 != JobStateView::Terminated(JobResult::Success) ==> e[j].3.contains(n[i])
    &&& forall|i: int, j: int| 0 <= i < e.len() && 0 <= j < e.len() && #[trigger] e[i].2.contains(#[trigger] n[j])
        && e[i].1 == JobStateView::Terminated(JobResult::Failure) ==> e[j].1 is Cancelled
}

/// The jobs of a run with their states: hands out the jobs that may start, and
/// follows the end of each.
#[derive(Debug)]
pub struct Dag {
    all_jobs: Vec<JobWatcher>,
    available_jobs: JobList,
}

impl Dag {
    /// The watched jobs, in ascending order of their names.
    pub closed spec fn entries(&self) -> Seq<WatcherView> {
        self.all_jobs@.map_values(|w: JobWatcher| w@)
    }

    /// The names still to be handed out, first first.
    closed spec fn queue(&self) -> Seq<Seq<char>> {
        self.available_jobs.items().reverse()
    }

    /// The links between the jobs hold (see `links_ok`), and the jobs still to
    /// be handed out are the pending ones, in ascending order.
    pub closed spec fn wf(&self) -> bool {
        &&& links_ok(self.entries())
        &&& strictly_ascending(self.queue())
        &&& self.queue().to_set() == pending_set(self.entries())
        &&& progress_ok(self.entries())
    }

    /// The position of the job named `name`.
    fn find(&self, name: &str) -> (r: Option<usize>)
        ensures
            match r {
                Some(i) => i < self.entries().len() && watcher_names(self.entries())[i as int] == name@,
                None => !watcher_names(self.entries()).contains(name@),
            },
    {
        let mut i: usize = 0;
        while i < self.all_jobs.len()
            invariant
                i <= self.all_jobs.len(),
                forall|j: int| 0 <= j < i ==> watcher_names(self.entries())[j] != name@,
            decreases self.all_jobs.len() - i,
        {
            if str_eq(self.all_jobs[i].job.name(), name) {
                return Some(i);
            }
            i = i + 1;
        }
        None
    }

    /// Hands out the first pending job, by name, and marks it started; `None`
    /// when no job is pending.
    pub fn poll(&mut self) -> (r: Option<Job>)
        requires
            old(self).wf(),
        ensures
            final(self).wf(),
            match r {
                None => !has_pending(old(self).entries()) && final(self).entries() == old(self).entries(),
                Some(job) => {
                    let e = old(self).entries();
                    let i = first_pending(e);
                    &&& is_first_pending(e, i)
                    &&& forall|k: int| 0 <= k < e.len() && k != i && (#[trigger] e[k]).1 is Pending
                        ==> seq_lt(e[i].0.0, e[k].0.0)
                    &&& job@ == e[i].0
                    &&& final(self).entries() == e.update(i, (e[i].0, JobStateView::Started, e[i].2, e[i].3))
                },
            },
    {
        let ghost e = self.entries();
        let ghost n = watcher_names(e);
        let ghost q = self.queue();
        let name = match self.available_jobs.shift() {
            Some(name) => name,
            None => {
                proof {
                    assert(q.len() == 0);
                    if has_pending(e) {
                        let k = choose|i: int| 0 <= i < e.len() && (#[trigger] e[i]).1 is Pending;
                        assert(pending_set(e).contains(e[k].0.0));
                        assert(q.to_set().contains(e[k].0.0));
                    }
                }
                return None;
            },
        };
        proof {
            assert(name@ == q[0]);
            assert(q.to_set().contains(q[0]));
        }
        let i = match self.find(name.as_str()) {
            Some(i) => i,
            None => {
                proof {
                    let k = choose|k: int| 0 <= k < e.len() && #[trigger] e[k].0.0 == name@ && e[k].1 is Pending;
                    assert(n[k] == name@);
                }
                return None;
            },
        };
        proof {
            let k = choose|k: int| 0 <= k < e.len() && #[trigger] e[k].0.0 == name@ && e[k].1 is Pending;
            assert(n[k] == name@);
            if k != i as int {
                if k < i {
                    lemma_seq_lt_total(n[k], n[i as int]);
                } else {
                    lemma_seq_lt_total(n[i as int], n[k]);
                }
            }
            assert forall|j: int| 0 <= j < i implies !((#[trigger] e[j]).1 is Pending) by {
                if e[j].1 is Pending {
                    assert(pending_set(e).contains(n[j]));
                    assert(q.to_set().contains(n[j]));
                    let m = choose|m: int| 0 <= m < q.len() && q[m] == n[j];
                    if m == 0 {
                        lemma_seq_lt_total(n[j], n[i as int]);
                    } else {
                        lemma_seq_lt_total(n[j], n[i as int]);
                        crate::text::lemma_seq_lt_transitive(n[j], n[i as int], n[j]);
                        crate::text::lemma_seq_lt_irreflexive(n[j]);
                    }
                }
            }
            assert(is_first_pending(e, i as int));
            crate::names::lemma_ascending_no_duplicates(n);
        }
        self.all_jobs[i].state = JobState::Started;
        let job = self.all_jobs[i].job.clone();
        proof {
            let e2 = self.entries();
            let ei = e[i as int];
            assert(e2 =~= e.update(i as int, (ei.0, JobStateView::Started, ei.2, ei.3)));
            assert(watcher_names(e2) =~= n);
            lemma_first_pending(e);
            assert(first_pending(e) == i as int) by {
                let f = first_pending(e);
                if f < i {
                } else if f > i {
                }
            }
            assert forall|k: int| 0 <= k < e.len() && k != i && (#[trigger] e[k]).1 is Pending
                implies seq_lt(e[i as int].0.0, e[k].0.0) by {
                assert(n[k] == e[k].0.0);
                assert(n[i as int] == e[i as int].0.0);
                assert(k > i);
            }
            let q2 = self.queue();
            assert(q2 =~= q.drop_first());
            crate::names::lemma_ascending_no_duplicates(q);
            assert forall|x: Seq<char>| q2.to_set().contains(x) <==> pending_set(e2).contains(x) by {
                if q2.to_set().contains(x) {
                    let m = choose|m: int| 0 <= m < q2.len() && q2[m] == x;
                    assert(q[m + 1] == x);
                    assert(q.to_set().contains(x));
                    let k = choose|k: int| 0 <= k < e.len() && #[trigger] e[k].0.0 == x && e[k].1 is Pending;
                    assert(x != q[0]);
                    assert(k != i);
                    assert(e2[k] == e[k]);
                }
                if pending_set(e2).contains(x) {
                    let k = choose|k: int| 0 <= k < e2.len() && #[trigger] e2[k].0.0 == x && e2[k].1 is Pending;
                    assert(k != i);
                    assert(e2[k] == e[k]);
                    assert(pending_set(e).contains(x));
                    assert(q.to_set().contains(x));
                    let m = choose|m: int| 0 <= m < q.len() && q[m] == x;
                    assert(n[k] != n[i as int]);
                    assert(m != 0);
                    assert(q2[m - 1] == x);
                }
            }
            assert(q2.to_set() =~= pending_set(e2));
            lemma_progress_poll(e, i as int);
            assert forall|a: int, b: int| 0 <= a < e2.len() && 0 <= b < e2.len() && #[trigger] e2[a].2.contains(#[trigger] watcher_names(e2)[b])
                && e2[a].1 == JobStateView::Terminated(JobResult::Failure) implies e2[b].1 is Cancelled by {
                assert(e[a].2.contains(n[b]));
                if b == i {
                    assert(e[a].1 == JobStateView::Terminated(JobResult::Failure));
                }
            }
        }
        Some(job)
    }
}

} // verus!

verus! {

/// A watched job with another state.
pub open spec fn with_state(w: WatcherView, s: JobStateView) -> WatcherView {
    (w.0, s, w.2, w.3)
}

/// The position of the job named `name`.
pub open spec fn name_index(e: Seq<WatcherView>, name: Seq<char>) -> int {
    choose|i: int| 0 <= i < e.len() && #[trigger] e[i].0.0 == name
}

/// The state of the job named `name`.
pub open spec fn state_named(e: Seq<WatcherView>, name: Seq<char>) -> JobStateView {
    e[name_index(e, name)].1
}

/// A job once `job` has succeeded: `job` no longer blocks it, and it is
/// pending when no job is left that blocks it.
pub open spec fn unlock_one(w: WatcherView, job: Seq<char>) -> WatcherView {
    let left = w.3.filter(other_than(job));
    (w.0, if left.len() == 0 { JobStateView::Pending } else { w.1 }, w.2, left)
}

/// The jobs once `job` has succeeded and each job named in `done` has been
/// released from it.
pub open spec fn unlock_all(e: Seq<WatcherView>, done: Seq<Seq<char>>, job: Seq<char>) -> Seq<WatcherView> {
    Seq::new(e.len(), |j: int| if done.contains(e[j].0.0) { unlock_one(e[j], job) } else { e[j] })
}

/// A job cancelled because `job` failed: the failed jobs that cancelled it
/// so far, then `job`.
pub open spec fn cancel_one(w: WatcherView, job: Seq<char>) -> WatcherView {
    let before = match w.1 {
        JobStateView::Cancelled(l) => l,
        _ => Seq::<Seq<char>>::empty(),
    };
    (w.0, JobStateView::Cancelled(before.push(job)), w.2, w.3)
}

/// The jobs once each job named in `done` has been cancelled because `job` failed.
pub open spec fn cancel_all(e: Seq<WatcherView>, done: Seq<Seq<char>>, job: Seq<char>) -> Seq<WatcherView> {
    Seq::new(e.len(), |j: int| if done.contains(e[j].0.0) { cancel_one(e[j], job) } else { e[j] })
}

/// How many of the jobs named in `b`, in order, are released before the
/// first cancelled one.
pub open spec fn unlock_stop(e: Seq<WatcherView>, b: Seq<Seq<char>>) -> int
    decreases b.len(),
{
    if b.len() == 0 {
        0
    } else if state_named(e, b[0]) is Cancelled {
        0
    } else {
        1 + unlock_stop(e, b.drop_first())
    }
}

/// What a job's end does to the jobs: the job takes its result; a failure
/// cancels every job it blocks; a success releases the jobs it blocks, in
/// descending order of their names, up to the first cancelled one.
pub open spec fn after_event(e: Seq<WatcherView>, job: Seq<char>, result: JobResult) -> Seq<WatcherView> {
    let i = name_index(e, job);
    let e1 = e.update(i, with_state(e[i], JobStateView::Terminated(result)));
    let b = e[i].2;
    match result {
        JobResult::Failure => cancel_all(e1, b, job),
        JobResult::Success => unlock_all(e1, b.take(unlock_stop(e1, b)), job),
    }
}

/// In a sequence whose names are in ascending order, the position of a name
/// is the one that holds it.
pub proof fn lemma_name_index(e: Seq<WatcherView>, j: int)
    requires
        strictly_ascending(watcher_names(e)),
        0 <= j < e.len(),
    ensures
        name_index(e, e[j].0.0) == j,
{
    let n = watcher_names(e);
    assert(n[j] == e[j].0.0);
    let k = name_index(e, e[j].0.0);
    assert(n[k] == e[k].0.0);
    crate::names::lemma_ascending_no_duplicates(n);
}

/// The jobs that a started job blocks are blocked or cancelled, are not the
/// job itself, and are still blocked by it.
proof fn lemma_started_successors(e: Seq<WatcherView>, i: int, j: int)
    requires
        links_ok(e),
        0 <= i < e.len(),
        0 <= j < e.len(),
        e[i].1 is Started,
        e[i].2.contains(e[j].0.0),
    ensures
        e[j].1 is Blocked || e[j].1 is Cancelled,
        e[j].3.contains(e[i].0.0),
        j != i,
{
    let n = watcher_names(e);
    assert(n[j] == e[j].0.0);
    assert(n[i] == e[i].0.0);
    assert(e[i].2.contains(n[j]));
    assert(e[j].3.contains(n[i]));
}

/// A name of a job that a job blocks is the name of some job.
proof fn lemma_successor_index(e: Seq<WatcherView>, i: int, x: Seq<char>) -> (j: int)
    requires
        links_ok(e),
        0 <= i < e.len(),
        e[i].2.contains(x),
    ensures
        0 <= j < e.len(),
        e[j].0.0 == x,
        name_index(e, x) == j,
{
    let n = watcher_names(e);
    assert(n.contains(x));
    let j = choose|j: int| 0 <= j < n.len() && n[j] == x;
    assert(e[j].0.0 == x);
    lemma_name_index(e, j);
    j
}

/// Cancelling the jobs that a failed job blocks keeps the links.
proof fn lemma_cancel_keeps_links(e: Seq<WatcherView>, i: int)
    requires
        links_ok(e),
        0 <= i < e.len(),
        e[i].1 is Started,
    ensures
        links_ok(cancel_all(e.update(i, with_state(e[i], JobStateView::Terminated(JobResult::Failure))), e[i].2, e[i].0.0)),
        pending_set(cancel_all(e.update(i, with_state(e[i], JobStateView::Terminated(JobResult::Failure))), e[i].2, e[i].0.0)) == pending_set(e),
        watcher_names(cancel_all(e.update(i, with_state(e[i], JobStateView::Terminated(JobResult::Failure))), e[i].2, e[i].0.0)) == watcher_names(e),
{
    let job = e[i].0.0;
    let b = e[i].2;
    let e1 = e.update(i, with_state(e[i], JobStateView::Terminated(JobResult::Failure)));
    let e2 = cancel_all(e1, b, job);
    let n = watcher_names(e);
    assert(watcher_names(e1) =~= n);
    assert(watcher_names(e2) =~= n);
    assert forall|j: int| 0 <= j < e.len() && b.contains(#[trigger] e[j].0.0) implies
        (e[j].1 is Blocked || e[j].1 is Cancelled) && j != i && e[j].3.contains(job) by {
        lemma_started_successors(e, i, j);
    }
    assert(!b.contains(job)) by {
        if b.contains(job) {
            lemma_started_successors(e, i, i);
        }
    }
    assert forall|j: int| 0 <= j < e.len() && !(e2[j].1 is Blocked) && !(e2[j].1 is Cancelled) implies (#[trigger] e2[j].3).len() == 0 by {
        assert(e1[j].0.0 == e[j].0.0);
        if j != i {
            assert(e2[j] == e[j]);
        }
    }
    assert forall|a: int, c: int| 0 <= a < e.len() && 0 <= c < e.len() && #[trigger] e2[a].2.contains(#[trigger] watcher_names(e2)[c])
        && e2[a].1 != JobStateView::Terminated(JobResult::Success) implies e2[c].3.contains(watcher_names(e2)[a]) by {
        assert(e1[a].0.0 == e[a].0.0);
        assert(e1[c].0.0 == e[c].0.0);
        assert(e2[c].3 == e[c].3);
        assert(e2[a].2 == e[a].2);
        if a != i {
            if b.contains(e[a].0.0) {
                assert(e[a].1 is Blocked || e[a].1 is Cancelled);
            } else {
                assert(e2[a] == e[a]);
            }
            assert(e[a].2.contains(n[c]));
        } else {
            assert(e[i].2.contains(n[c]));
        }
    }
    assert forall|a: int, c: int| 0 <= a < e.len() && 0 <= c < e.len() && #[trigger] e2[a].2.contains(#[trigger] watcher_names(e2)[c])
        && e2[a].1 == JobStateView::Terminated(JobResult::Failure) implies e2[c].1 is Cancelled by {
        assert(e1[a].0.0 == e[a].0.0);
        assert(e1[c].0.0 == e[c].0.0);
        assert(e2[a].2 == e[a].2);
        if a != i {
            assert(!b.contains(e[a].0.0));
            assert(e2[a] == e[a]);
            assert(e[a].2.contains(n[c]));
            assert(e[c].1 is Cancelled);
            if c == i {
                assert(false);
            }
        } else {
            assert(b.contains(e[c].0.0));
        }
    }
    assert forall|j: int| 0 <= j < e.len() implies strictly_descending(#[trigger] e2[j].2) by {
        assert(e2[j].2 == e[j].2);
    }
    assert forall|j: int, x: Seq<char>| 0 <= j < e.len() && (#[trigger] e2[j].2.contains(x)) implies watcher_names(e2).contains(x) by {
        assert(e2[j].2 == e[j].2);
    }
    assert(links_ok(e2));
    assert forall|x: Seq<char>| pending_set(e2).contains(x) <==> pending_set(e).contains(x) by {
        if pending_set(e2).contains(x) {
            let k = choose|k: int| 0 <= k < e2.len() && #[trigger] e2[k].0.0 == x && e2[k].1 is Pending;
            assert(e1[k].0.0 == e[k].0.0);
            assert(k != i);
            assert(e2[k] == e[k]);
        }
        if pending_set(e).contains(x) {
            let k = choose|k: int| 0 <= k < e.len() && #[trigger] e[k].0.0 == x && e[k].1 is Pending;
            assert(e1[k].0.0 == e[k].0.0);
            assert(k != i);
            assert(!b.contains(e[k].0.0));
            assert(e2[k] == e[k]);
        }
    }
    assert(pending_set(e2) =~= pending_set(e));
}

/// Releasing, after a success, the jobs that the job blocks, up to a point
/// before which none is cancelled, keeps the links.
proof fn lemma_unlock_keeps_links(e: Seq<WatcherView>, i: int, p: int)
    requires
        links_ok(e),
        0 <= i < e.len(),
        e[i].1 is Started,
        0 <= p <= e[i].2.len(),
        forall|m: int| 0 <= m < p ==> !(state_named(e, #[trigger] e[i].2[m]) is Cancelled),
    ensures
        links_ok(unlock_all(e.update(i, with_state(e[i], JobStateView::Terminated(JobResult::Success))), e[i].2.take(p), e[i].0.0)),
        watcher_names(unlock_all(e.update(i, with_state(e[i], JobStateView::Terminated(JobResult::Success))), e[i].2.take(p), e[i].0.0)) == watcher_names(e),
{
    let job = e[i].0.0;
    let b = e[i].2;
    let d = b.take(p);
    let e1 = e.update(i, with_state(e[i], JobStateView::Terminated(JobResult::Success)));
    let e2 = unlock_all(e1, d, job);
    let n = watcher_names(e);
    assert(watcher_names(e1) =~= n);
    assert(watcher_names(e2) =~= n);
    assert forall|j: int| 0 <= j < e.len() && d.contains(#[trigger] e[j].0.0) implies
        e[j].1 is Blocked && j != i && e[j].3.contains(job) by {
        let m = choose|m: int| 0 <= m < d.len() && d[m] == e[j].0.0;
        assert(b[m] == e[j].0.0);
        assert(b.contains(e[j].0.0));
        lemma_started_successors(e, i, j);
        lemma_name_index(e, j);
    }
    assert(!b.contains(job)) by {
        if b.contains(job) {
            lemma_started_successors(e, i, i);
        }
    }
    assert(!d.contains(job));
    assert forall|j: int| 0 <= j < e.len() && !(e2[j].1 is Blocked) && !(e2[j].1 is Cancelled) implies (#[trigger] e2[j].3).len() == 0 by {
        assert(e1[j].0.0 == e[j].0.0);
        if d.contains(e[j].0.0) {
        } else if j != i {
            assert(e2[j] == e[j]);
        }
    }
    assert forall|a: int, c: int| 0 <= a < e.len() && 0 <= c < e.len() && #[trigger] e2[a].2.contains(#[trigger] watcher_names(e2)[c])
        && e2[a].1 != JobStateView::Terminated(JobResult::Success) implies e2[c].3.contains(watcher_names(e2)[a]) by {
        assert(e1[a].0.0 == e[a].0.0);
        assert(e1[c].0.0 == e[c].0.0);
        assert(e2[a].2 == e[a].2);
        assert(a != i);
        if d.contains(e[a].0.0) {
            assert(e[a].1 is Blocked);
        } else {
            assert(e2[a] == e[a]);
        }
        assert(e[a].2.contains(n[c]));
        assert(e[c].3.contains(n[a]));
        if d.contains(e[c].0.0) {
            crate::names::lemma_ascending_no_duplicates(n);
            assert(n[i] == job);
            assert(n[a] != job);
            let pred = other_than(job);
            let k = choose|k: int| 0 <= k < e1[c].3.len() && e1[c].3[k] == n[a];
            e1[c].3.lemma_filter_contains(pred, k);
            assert(e2[c].3 == e1[c].3.filter(pred));
        } else if c != i {
            assert(e2[c] == e[c]);
        } else {
            assert(e2[c].3 == e[c].3);
        }
    }
    assert forall|a: int, c: int| 0 <= a < e.len() && 0 <= c < e.len() && #[trigger] e2[a].2.contains(#[trigger] watcher_names(e2)[c])
        && e2[a].1 == JobStateView::Terminated(JobResult::Failure) implies e2[c].1 is Cancelled by {
        assert(e1[a].0.0 == e[a].0.0);
        assert(e1[c].0.0 == e[c].0.0);
        assert(a != i);
        assert(!d.contains(e[a].0.0));
        assert(e2[a] == e[a]);
        assert(e[a].2.contains(n[c]));
        assert(e[c].1 is Cancelled);
        assert(c != i);
        if d.contains(e[c].0.0) {
            assert(e[c].1 is Blocked);
        }
        assert(e2[c] == e[c]);
    }
    assert forall|j: int| 0 <= j < e.len() implies strictly_descending(#[trigger] e2[j].2) by {
        assert(e2[j].2 == e[j].2);
    }
    assert forall|j: int, x: Seq<char>| 0 <= j < e.len() && (#[trigger] e2[j].2.contains(x)) implies watcher_names(e2).contains(x) by {
        assert(e2[j].2 == e[j].2);
    }
    assert(links_ok(e2));
}

} // verus!

verus! {

/// Where the release stops: at the first cancelled job, or at the end.
proof fn lemma_unlock_stop(e: Seq<WatcherView>, b: Seq<Seq<char>>, k: int)
    requires
        0 <= k <= b.len(),
        forall|m: int| 0 <= m < k ==> !(state_named(e, #[trigger] b[m]) is Cancelled),
        k == b.len() || state_named(e, b[k]) is Cancelled,
    ensures
        unlock_stop(e, b) == k,
    decreases k,
{
    if b.len() == 0 {
    } else if k == 0 {
    } else {
        assert(!(state_named(e, b[0]) is Cancelled));
        assert forall|m: int| 0 <= m < k - 1 implies !(state_named(e, #[trigger] b.drop_first()[m]) is Cancelled) by {
            assert(b.drop_first()[m] == b[m + 1]);
        }
        if k < b.len() {
            assert(b.drop_first()[k - 1] == b[k]);
        }
        lemma_unlock_stop(e, b.drop_first(), k - 1);
    }
}

/// The release stops within the jobs.
/// The jobs released before the first cancelled one are not cancelled.
proof fn lemma_unlock_stop_uncancelled(e: Seq<WatcherView>, b: Seq<Seq<char>>, m: int)
    requires
        0 <= m < unlock_stop(e, b),
    ensures
        !(state_named(e, b[m]) is Cancelled),
    decreases b.len(),
{
    if m > 0 {
        lemma_unlock_stop_bounds(e, b.drop_first());
        lemma_unlock_stop_uncancelled(e, b.drop_first(), m - 1);
        assert(b.drop_first()[m - 1] == b[m]);
    }
}

proof fn lemma_unlock_stop_bounds(e: Seq<WatcherView>, b: Seq<Seq<char>>)
    ensures
        0 <= unlock_stop(e, b) <= b.len(),
    decreases b.len(),
{
    if b.len() > 0 {
        lemma_unlock_stop_bounds(e, b.drop_first());
    }
}

/// The first `p + 1` elements hold `x` when the first `p` do or `x` is the next.
proof fn lemma_take_next(s: Seq<Seq<char>>, p: int, x: Seq<char>)
    requires
        0 <= p < s.len(),
    ensures
        s.take(p + 1).contains(x) == (s.take(p).contains(x) || x == s[p]),
{
    crate::ci::job::constraint_matrix::lemma_take_push_contains(s, p, x);
}

impl Dag {
    /// Rebuilds the list of the jobs to hand out: the pending ones, in
    /// ascending order of their names.
    fn actualize_job_list(&mut self)
        requires
            links_ok(old(self).entries()),
            progress_ok(old(self).entries()),
        ensures
            final(self).wf(),
            final(self).entries() == old(self).entries(),
    {
        let ghost e = self.entries();
        let ghost n = watcher_names(e);
        let mut v: Vec<String> = Vec::new();
        let mut i: usize = 0;
        while i < self.all_jobs.len()
            invariant
                i <= self.all_jobs.len(),
                e == self.entries(),
                n == watcher_names(e),
                links_ok(e),
                strictly_ascending(names_view(v@)),
                forall|k: int, j: int| 0 <= k < v@.len() && i <= j < n.len() ==> crate::text::seq_lt(#[trigger] names_view(v@)[k], #[trigger] n[j]),
                forall|x: Seq<char>| names_view(v@).contains(x) <==> exists|j: int| 0 <= j < i && #[trigger] e[j].0.0 == x && e[j].1 is Pending,
            decreases self.all_jobs.len() - i,
        {
            let ghost before = v@;
            if matches!(self.all_jobs[i].state, JobState::Pending) {
                v.push(self.all_jobs[i].job.name().to_owned());
                proof {
                    assert(v@[before.len() as int]@ == n[i as int]);
                    assert(names_view(v@) =~= names_view(before).push(n[i as int]));
                    assert forall|a: int, b: int| 0 <= a < b < names_view(v@).len() implies
                        crate::text::seq_lt(#[trigger] names_view(v@)[a], #[trigger] names_view(v@)[b]) by {
                        if b == before.len() {
                            assert(names_view(before)[a] == names_view(v@)[a]);
                        }
                    }
                    assert forall|k: int, j: int| 0 <= k < v@.len() && i + 1 <= j < n.len() implies
                        crate::text::seq_lt(#[trigger] names_view(v@)[k], #[trigger] n[j]) by {
                        if k < before.len() {
                            assert(names_view(before)[k] == names_view(v@)[k]);
                        }
                    }
                }
            }
            proof {
                assert forall|x: Seq<char>| names_view(v@).contains(x) <==> exists|j: int| 0 <= j < i + 1 && #[trigger] e[j].0.0 == x && e[j].1 is Pending by {
                    if names_view(v@).contains(x) {
                        let k = choose|k: int| 0 <= k < names_view(v@).len() && names_view(v@)[k] == x;
                        if k < before.len() {
                            assert(names_view(before)[k] == x);
                            assert(names_view(before).contains(x));
                        } else {
                            assert(e[i as int].0.0 == x);
                        }
                    }
                    if exists|j: int| 0 <= j < i + 1 && #[trigger] e[j].0.0 == x && e[j].1 is Pending {
                        let j = choose|j: int| 0 <= j < i + 1 && #[trigger] e[j].0.0 == x && e[j].1 is Pending;
                        if j < i {
                            assert(names_view(before).contains(x));
                            let k = choose|k: int| 0 <= k < names_view(before).len() && names_view(before)[k] == x;
                            assert(names_view(v@)[k] == names_view(before)[k]);
                        } else {
                            assert(names_view(v@)[before.len() as int] == x);
                        }
                    }
                }
            }
            i = i + 1;
        }
        self.available_jobs = JobList::from(v.as_slice());
        proof {
            assert(self.entries() == e);
            assert(self.queue() =~= names_view(v@));
            assert forall|x: Seq<char>| self.queue().to_set().contains(x) <==> pending_set(e).contains(x) by {
            }
            assert(self.queue().to_set() =~= pending_set(e));
        }
    }

    /// Whether every job has ended: none is pending, started or blocked.
    pub fn is_finished(&self) -> (r: bool)
        ensures
            r == (forall|i: int| 0 <= i < self.entries().len() ==> !(#[trigger] self.entries()[i]).1.unresolved()),
    {
        let mut i: usize = 0;
        while i < self.all_jobs.len()
            invariant
                i <= self.all_jobs.len(),
                forall|j: int| 0 <= j < i ==> !(#[trigger] self.entries()[j]).1.unresolved(),
            decreases self.all_jobs.len() - i,
        {
            if self.all_jobs[i].state.is_unresolved() {
                assert(self.entries()[i as int].1.unresolved());
                return false;
            }
            i = i + 1;
        }
        true
    }
}

} // verus!

verus! {

impl Dag {
    /// Releases from `name`, which just succeeded, the jobs it blocks, in
    /// descending order of their names: each job that no job blocks any more
    /// becomes pending. Stops at the first cancelled job.
    fn unlock_next_jobs(&mut self, name: &str, Ghost(e0): Ghost<Seq<WatcherView>>, Ghost(i): Ghost<int>)
        requires
            links_ok(e0),
            0 <= i < e0.len(),
            e0[i].0.0 == name@,
            e0[i].1 is Started,
            old(self).entries() == e0.update(i, with_state(e0[i], JobStateView::Terminated(JobResult::Success))),
        ensures
            final(self).entries() == unlock_all(old(self).entries(), e0[i].2.take(unlock_stop(old(self).entries(), e0[i].2)), name@),
            links_ok(final(self).entries()),
    {
        let ghost e1 = self.entries();
        let ghost n = watcher_names(e0);
        let ghost b = e0[i].2;
        proof {
            assert(watcher_names(e1) =~= n);
            lemma_name_index(e0, i);
        }
        let idx = match self.find(name) {
            Some(idx) => idx,
            None => {
                proof {
                    assert(n[i] == name@);
                }
                return;
            },
        };
        proof {
            crate::names::lemma_ascending_no_duplicates(n);
            assert(n[i] == name@);
            assert(idx as int == i);
        }
        let blocking_job_name = self.all_jobs[idx].job.name().to_owned();
        let blocked_job_list = copy_strings(self.all_jobs[idx].blocks_job.as_slice());
        proof {
            assert(names_view(blocked_job_list@) == b);
            assert(!b.contains(name@)) by {
                if b.contains(name@) {
                    lemma_started_successors(e0, i, i);
                }
            }
            assert forall|m: int| 0 <= m < b.len() implies (#[trigger] state_named(e1, b[m])) == state_named(e0, b[m]) by {
                let j = lemma_successor_index(e0, i, b[m]);
                lemma_name_index(e1, j);
            }
            assert(b.take(0) =~= Seq::<Seq<char>>::empty());
            assert(self.entries() =~= unlock_all(e1, b.take(0), name@));
        }
        let mut k: usize = 0;
        while k < blocked_job_list.len()
            invariant
                links_ok(e0),
                0 <= i < e0.len(),
                e0[i].0.0 == name@,
                e0[i].1 is Started,
                e1 == e0.update(i, with_state(e0[i], JobStateView::Terminated(JobResult::Success))),
                n == watcher_names(e0),
                watcher_names(e1) == n,
                b == e0[i].2,
                !b.contains(name@),
                blocking_job_name@ == name@,
                names_view(blocked_job_list@) == b,
                k <= b.len(),
                forall|m: int| 0 <= m < b.len() ==> (#[trigger] state_named(e1, b[m])) == state_named(e0, b[m]),
                forall|m: int| 0 <= m < k ==> !(state_named(e1, #[trigger] b[m]) is Cancelled),
                e1 == old(self).entries(),
                self.entries() == unlock_all(e1, b.take(k as int), name@),
            decreases b.len() - k,
        {
            let ghost cur = self.entries();
            let ghost j = lemma_successor_index(e0, i, b[k as int]);
            proof {
                assert(b[k as int] == blocked_job_list@[k as int]@);
                lemma_started_successors(e0, i, j);
                lemma_name_index(e1, j);
                assert(e1[j] == e0[j]);
                assert(!b.take(k as int).contains(b[k as int])) by {
                    if b.take(k as int).contains(b[k as int]) {
                        let m = choose|m: int| 0 <= m < k && b.take(k as int)[m] == b[k as int];
                        assert(b[m] == b[k as int]);
                        crate::text::lemma_seq_lt_irreflexive(b[m]);
                    }
                }
                assert(cur[j] == e1[j]);
            }
            let jdx = match self.find(blocked_job_list[k].as_str()) {
                Some(jdx) => jdx,
                None => {
                    proof {
                        assert(watcher_names(cur)[j] == b[k as int]);
                    }
                    return;
                },
            };
            proof {
                assert(watcher_names(cur) =~= n);
                crate::names::lemma_ascending_no_duplicates(n);
                assert(watcher_names(cur)[jdx as int] == blocked_job_list@[k as int]@);
                assert(n[jdx as int] == b[k as int]);
                assert(n[j] == b[k as int]);
                assert(jdx as int == j);
            }
            let ghost old_jobs = self.all_jobs@;
            if matches!(self.all_jobs[jdx].state, JobState::Cancelled(_)) {
                proof {
                    assert(state_named(e1, b[k as int]) is Cancelled);
                    lemma_unlock_stop(e1, b, k as int);
                    lemma_unlock_keeps_links(e0, i, k as int);
                }
                return;
            }
            self.all_jobs[jdx].blocked_by_jobs.remove_job(blocking_job_name.as_str());
            if self.all_jobs[jdx].blocked_by_jobs.is_empty() {
                self.all_jobs[jdx].state = JobState::Pending;
            }
            proof {
                let nxt = unlock_all(e1, b.take(k + 1), name@);
                assert(self.entries()[j] == unlock_one(e1[j], name@));
                assert forall|l: int| 0 <= l < nxt.len() implies #[trigger] self.entries()[l] == nxt[l] by {
                    lemma_take_next(b, k as int, e1[l].0.0);
                    if l != j {
                        assert(self.all_jobs@[l] == old_jobs[l]);
                        assert(self.entries()[l] == cur[l]);
                        assert(e1[l].0.0 != b[k as int]) by {
                            crate::names::lemma_ascending_no_duplicates(n);
                            assert(n[l] == e1[l].0.0);
                            assert(n[j] == b[k as int]);
                        }
                    }
                }
                assert(self.entries() =~= nxt);
            }
            k = k + 1;
        }
        proof {
            lemma_unlock_stop(e1, b, b.len() as int);
            lemma_unlock_keeps_links(e0, i, b.len() as int);
        }
    }
}

} // verus!

verus! {

impl Dag {
    /// Cancels, because `name` failed, every job it blocks: a blocked job is
    /// cancelled by `name`; a cancelled one adds `name` to the jobs that
    /// cancelled it.
    fn cancel_next_jobs(&mut self, name: &str, Ghost(e0): Ghost<Seq<WatcherView>>, Ghost(i): Ghost<int>)
        requires
            links_ok(e0),
            0 <= i < e0.len(),
            e0[i].0.0 == name@,
            e0[i].1 is Started,
            old(self).entries() == e0.update(i, with_state(e0[i], JobStateView::Terminated(JobResult::Failure))),
        ensures
            final(self).entries() == cancel_all(old(self).entries(), e0[i].2, name@),
            final(self).available_jobs == old(self).available_jobs,
    {
        let ghost e1 = self.entries();
        let ghost n = watcher_names(e0);
        let ghost b = e0[i].2;
        proof {
            assert(watcher_names(e1) =~= n);
            lemma_name_index(e0, i);
            crate::names::lemma_ascending_no_duplicates(n);
        }
        let idx = match self.find(name) {
            Some(idx) => idx,
            None => {
                proof {
                    assert(n[i] == name@);
                }
                return;
            },
        };
        proof {
            assert(n[i] == name@);
            assert(n[idx as int] == name@);
            assert(idx as int == i);
        }
        let blocking_job_name = self.all_jobs[idx].job.name().to_owned();
        let blocked_job_list = copy_strings(self.all_jobs[idx].blocks_job.as_slice());
        proof {
            assert(names_view(blocked_job_list@) == b);
            assert(b.take(0) =~= Seq::<Seq<char>>::empty());
            assert(self.entries() =~= cancel_all(e1, b.take(0), name@));
        }
        let mut k: usize = 0;
        while k < blocked_job_list.len()
            invariant
                links_ok(e0),
                0 <= i < e0.len(),
                e0[i].0.0 == name@,
                e0[i].1 is Started,
                e1 == e0.update(i, with_state(e0[i], JobStateView::Terminated(JobResult::Failure))),
                e1 == old(self).entries(),
                n == watcher_names(e0),
                n.no_duplicates(),
                watcher_names(e1) == n,
                b == e0[i].2,
                blocking_job_name@ == name@,
                names_view(blocked_job_list@) == b,
                k <= b.len(),
                self.entries() == cancel_all(e1, b.take(k as int), name@),
                self.available_jobs == old(self).available_jobs,
            decreases b.len() - k,
        {
            let ghost cur = self.entries();
            let ghost j = lemma_successor_index(e0, i, b[k as int]);
            proof {
                assert(b[k as int] == blocked_job_list@[k as int]@);
                lemma_started_successors(e0, i, j);
                assert(e1[j] == e0[j]);
                assert(!b.take(k as int).contains(b[k as int])) by {
                    if b.take(k as int).contains(b[k as int]) {
                        let m = choose|m: int| 0 <= m < k && b.take(k as int)[m] == b[k as int];
                        assert(b[m] == b[k as int]);
                        crate::text::lemma_seq_lt_irreflexive(b[m]);
                    }
                }
                assert(cur[j] == e1[j]);
            }
            let jdx = match self.find(blocked_job_list[k].as_str()) {
                Some(jdx) => jdx,
                None => {
                    proof {
                        assert(watcher_names(cur) =~= n);
                        assert(watcher_names(cur)[j] == b[k as int]);
                    }
                    return;
                },
            };
            proof {
                assert(watcher_names(cur) =~= n);
                assert(watcher_names(cur)[jdx as int] == blocked_job_list@[k as int]@);
                assert(n[jdx as int] == b[k as int]);
                assert(n[j] == b[k as int]);
                assert(jdx as int == j);
            }
            let ghost old_jobs = self.all_jobs@;
            let list = match &self.all_jobs[jdx].state {
                JobState::Blocked => {
                    let mut v: Vec<String> = Vec::new();
                    v.push(blocking_job_name.clone());
                    v
                },
                JobState::Cancelled(old) => {
                    let mut v = copy_strings(old.as_slice());
                    v.push(blocking_job_name.clone());
                    v
                },
                _ => {
                    proof {
                        assert(false);
                    }
                    Vec::new()
                },
            };
            self.all_jobs[jdx].state = JobState::Cancelled(list);
            proof {
                let nxt = cancel_all(e1, b.take(k + 1), name@);
                assert(names_view(list@) =~= cancel_one(e1[j], name@).1->Cancelled_0);
                assert(self.entries()[j] == cancel_one(e1[j], name@));
                assert forall|l: int| 0 <= l < nxt.len() implies #[trigger] self.entries()[l] == nxt[l] by {
                    lemma_take_next(b, k as int, e1[l].0.0);
                    if l != j {
                        assert(self.all_jobs@[l] == old_jobs[l]);
                        assert(self.entries()[l] == cur[l]);
                        assert(n[l] == e1[l].0.0);
                        assert(n[j] == b[k as int]);
                    }
                }
                assert(self.entries() =~= nxt);
            }
            k = k + 1;
        }
        proof {
            assert(b.take(b.len() as int) =~= b);
        }
    }

    /// Takes note that `job`, handed out by `poll`, ended with `result`: a
    /// failure cancels every job it blocks; a success releases them (see
    /// `after_event`) and makes the pending ones available.
    pub fn record_event(&mut self, job: &str, result: JobResult)
        requires
            old(self).wf(),
            watcher_names(old(self).entries()).contains(job@),
            state_named(old(self).entries(), job@) is Started,
        ensures
            final(self).wf(),
            final(self).entries() == after_event(old(self).entries(), job@, result),
    {
        let ghost e0 = self.entries();
        let ghost n = watcher_names(e0);
        let job_went_wrong = matches!(result, JobResult::Failure);
        let i = match self.find(job) {
            Some(i) => i,
            None => {
                return;
            },
        };
        proof {
            lemma_name_index(e0, i as int);
            assert(n[i as int] == e0[i as int].0.0);
        }
        let ghost old_jobs = self.all_jobs@;
        self.all_jobs[i].state = JobState::Terminated(result);
        proof {
            assert(self.entries() =~= e0.update(i as int, with_state(e0[i as int], JobStateView::Terminated(result))));
        }
        if job_went_wrong {
            self.cancel_next_jobs(job, Ghost(e0), Ghost(i as int));
            proof {
                lemma_cancel_keeps_links(e0, i as int);
                lemma_progress_event(e0, job@, result);
                assert(self.entries() == after_event(e0, job@, result));
            }
            return;
        }
        self.unlock_next_jobs(job, Ghost(e0), Ghost(i as int));
        proof {
            lemma_progress_event(e0, job@, result);
            assert(self.entries() == after_event(e0, job@, result));
        }
        self.actualize_job_list();
    }
}

} // verus!

verus! {

/// The ordered map of the `indexmap` crate.
#[verifier::external_type_specification]
#[verifier::external_body]
#[verifier::reject_recursive_types(K)]
#[verifier::reject_recursive_types(V)]
#[verifier::reject_recursive_types(S)]
pub struct ExIndexMap<K, V, S>(IndexMap<K, V, S>);

/// What an ordered map from groups to job names holds: its entries, in order.
pub uninterp spec fn group_entries(m: IndexMap<String, Vec<String>>) -> Seq<(Seq<char>, Seq<Seq<char>>)>;

/// The groups of an ordered map, in order.
pub open spec fn entry_keys(e: Seq<(Seq<char>, Seq<Seq<char>>)>) -> Seq<Seq<char>> {
    e.map_values(|p: (Seq<char>, Seq<Seq<char>>)| p.0)
}

/// `IndexMap::new`: a map with no entry.
#[verifier::external_body]
fn group_map_new() -> (r: IndexMap<String, Vec<String>>)
    ensures
        group_entries(r) == Seq::<(Seq<char>, Seq<Seq<char>>)>::empty(),
{
    IndexMap::new()
}

/// `IndexMap::insert`: when the key is there, its value is replaced in place;
/// otherwise the entry is added last.
#[verifier::external_body]
fn group_map_insert(m: &mut IndexMap<String, Vec<String>>, key: String, value: Vec<String>)
    ensures
        entry_keys(group_entries(*old(m))).contains(key@) ==> exists|i: int|
            0 <= i < group_entries(*old(m)).len() && group_entries(*old(m))[i].0 == key@
            && group_entries(*final(m)) == group_entries(*old(m)).update(i, (key@, names_view(value@))),
        !entry_keys(group_entries(*old(m))).contains(key@) ==> group_entries(*final(m))
            == group_entries(*old(m)).push((key@, names_view(value@))),
{
    m.insert(key, value);
}

/// `IndexMap::get`: the value of an entry whose key is `key`, if there is one.
#[verifier::external_body]
fn group_map_get<'a>(m: &'a IndexMap<String, Vec<String>>, key: &str) -> (r: Option<&'a Vec<String>>)
    ensures
        match r {
            Some(v) => exists|i: int| 0 <= i < group_entries(*m).len() && group_entries(*m)[i].0 == key@
                && group_entries(*m)[i].1 == names_view(v@),
            None => !entry_keys(group_entries(*m)).contains(key@),
        },
{
    m.get(key)
}

/// `IndexMap::len`: the number of entries.
#[verifier::external_body]
fn group_map_len(m: &IndexMap<String, Vec<String>>) -> (r: usize)
    ensures
        r == group_entries(*m).len(),
{
    m.len()
}

/// `IndexMap::get_index`: the entry at a position, if there is one.
#[verifier::external_body]
fn group_map_get_index<'a>(m: &'a IndexMap<String, Vec<String>>, index: usize) -> (r: Option<(&'a String, &'a Vec<String>)>)
    ensures
        index < group_entries(*m).len() ==> r is Some && r.unwrap().0@ == group_entries(*m)[index as int].0
            && names_view(r.unwrap().1@) == group_entries(*m)[index as int].1,
        index >= group_entries(*m).len() ==> r is None,
{
    m.get_index(index)
}

/// The groups, each once, in the order of their first occurrence.
pub open spec fn group_order(groups: Seq<Seq<char>>) -> Seq<Seq<char>>
    decreases groups.len(),
{
    if groups.len() == 0 {
        Seq::empty()
    } else {
        let r = group_order(groups.drop_last());
        if r.contains(groups.last()) {
            r
        } else {
            r.push(groups.last())
        }
    }
}

/// The names of the jobs of group `g`, in order.
pub open spec fn group_members(jobs: Seq<Job>, g: Seq<char>) -> Seq<Seq<char>>
    decreases jobs.len(),
{
    if jobs.len() == 0 {
        Seq::empty()
    } else {
        let r = group_members(jobs.drop_last(), g);
        if jobs.last().group_view() == Some(g) {
            r.push(jobs.last().name_view())
        } else {
            r
        }
    }
}

/// Each group, in order, with the names of its jobs.
pub open spec fn group_table(jobs: Seq<Job>, groups: Seq<Seq<char>>) -> Seq<(Seq<char>, Seq<Seq<char>>)> {
    group_order(groups).map_values(|g: Seq<char>| (g, group_members(jobs, g)))
}

/// The entries that come before the first one of group `g` (all of them when
/// there is none).
pub open spec fn groups_before(table: Seq<(Seq<char>, Seq<Seq<char>>)>, g: Seq<char>) -> Seq<(Seq<char>, Seq<Seq<char>>)>
    decreases table.len(),
{
    if table.len() == 0 || table[0].0 == g {
        Seq::empty()
    } else {
        seq![table[0]] + groups_before(table.drop_first(), g)
    }
}

/// Each job of the entries, in order, blocking the job named `name`.
pub open spec fn pairs_of_groups(entries: Seq<(Seq<char>, Seq<Seq<char>>)>, name: Seq<char>) -> Seq<(Seq<char>, Seq<char>)>
    decreases entries.len(),
{
    if entries.len() == 0 {
        Seq::empty()
    } else {
        pairs_of_groups(entries.drop_last(), name) + entries.last().1.map_values(|m: Seq<char>| (m, name))
    }
}

/// The constraints that the groups put on one job: every job of every group
/// before its own blocks it.
pub open spec fn job_group_pairs(table: Seq<(Seq<char>, Seq<Seq<char>>)>, job: Job) -> Seq<(Seq<char>, Seq<char>)> {
    match job.group_view() {
        Some(g) => pairs_of_groups(groups_before(table, g), job.name_view()),
        None => Seq::empty(),
    }
}

/// The constraints that the groups put on the jobs, job after job.
pub open spec fn group_pairs(table: Seq<(Seq<char>, Seq<Seq<char>>)>, jobs: Seq<Job>) -> Seq<(Seq<char>, Seq<char>)>
    decreases jobs.len(),
{
    if jobs.len() == 0 {
        Seq::empty()
    } else {
        group_pairs(table, jobs.drop_last()) + job_group_pairs(table, jobs.last())
    }
}

/// The constraints that the groups, in order, put on the jobs.
pub open spec fn group_constraints(jobs: Seq<Job>, groups: Seq<Seq<char>>) -> Seq<(Seq<char>, Seq<char>)> {
    group_pairs(group_table(jobs, groups), jobs)
}

} // verus!

verus! {

/// A group occurs once in the order of the groups.
proof fn lemma_group_order(groups: Seq<Seq<char>>)
    ensures
        group_order(groups).no_duplicates(),
        forall|g: Seq<char>| group_order(groups).contains(g) <==> groups.contains(g),
    decreases groups.len(),
{
    if groups.len() > 0 {
        let init = groups.drop_last();
        lemma_group_order(init);
        let r = group_order(init);
        assert forall|g: Seq<char>| group_order(groups).contains(g) <==> groups.contains(g) by {
            if groups.contains(g) {
                let k = choose|k: int| 0 <= k < groups.len() && groups[k] == g;
                if k < groups.len() - 1 {
                    assert(init[k] == g);
                }
            }
            if init.contains(g) {
                let k = choose|k: int| 0 <= k < init.len() && init[k] == g;
                assert(groups[k] == g);
            }
            if !r.contains(groups.last()) {
                assert(r.push(groups.last())[r.len() as int] == groups.last());
                if r.push(groups.last()).contains(g) && g != groups.last() {
                    let k = choose|k: int| 0 <= k < r.len() + 1 && r.push(groups.last())[k] == g;
                    assert(r[k] == g);
                }
                if r.contains(g) {
                    let k = choose|k: int| 0 <= k < r.len() && r[k] == g;
                    assert(r.push(groups.last())[k] == g);
                }
            }
        }
    }
}

/// The jobs of a group among the first `t + 1` jobs.
proof fn lemma_group_members_next(jobs: Seq<Job>, t: int, g: Seq<char>)
    requires
        0 <= t < jobs.len(),
    ensures
        group_members(jobs.take(t + 1), g) == if jobs[t].group_view() == Some(g) {
            group_members(jobs.take(t), g).push(jobs[t].name_view())
        } else {
            group_members(jobs.take(t), g)
        },
{
    assert(jobs.take(t + 1).drop_last() =~= jobs.take(t));
    assert(jobs.take(t + 1).last() == jobs[t]);
}

/// The entries before group `g`'s are the first `k` when none of them is
/// `g`'s and the next one, if any, is.
proof fn lemma_groups_before(table: Seq<(Seq<char>, Seq<Seq<char>>)>, g: Seq<char>, k: int)
    requires
        0 <= k <= table.len(),
        forall|m: int| 0 <= m < k ==> (#[trigger] table[m]).0 != g,
        k == table.len() || table[k].0 == g,
    ensures
        groups_before(table, g) == table.take(k),
    decreases k,
{
    if k == 0 {
        assert(table.take(0) =~= Seq::<(Seq<char>, Seq<Seq<char>>)>::empty());
    } else {
        let rest = table.drop_first();
        assert forall|m: int| 0 <= m < k - 1 implies (#[trigger] rest[m]).0 != g by {
            assert(rest[m] == table[m + 1]);
        }
        if k < table.len() {
            assert(rest[k - 1] == table[k]);
        }
        lemma_groups_before(rest, g, k - 1);
        assert(table.take(k) =~= seq![table[0]] + rest.take(k - 1));
    }
}

impl Dag {
    /// The constraints that the groups put on the jobs: every job of a group
    /// blocks every job of each group that comes later in `groups`; a job
    /// whose group is not in `groups` is blocked by the jobs of every group.
    fn compute_group_constraints(jobs: &[Job], groups: &[String]) -> (r: Vec<(String, String)>)
        ensures
            constraint_views(r@) == group_constraints(jobs@, names_view(groups@)),
    {
        let ghost gv = names_view(groups@);
        let ghost order = group_order(gv);
        let mut blocking_jobs_by_groups = group_map_new();
        let mut i: usize = 0;
        proof {
            assert(gv.take(0) =~= Seq::<Seq<char>>::empty());
            assert(group_entries(blocking_jobs_by_groups) =~= group_order(gv.take(0)).map_values(|g: Seq<char>| (g, Seq::<Seq<char>>::empty())));
        }
        while i < groups.len()
            invariant
                i <= groups.len(),
                gv == names_view(groups@),
                group_entries(blocking_jobs_by_groups) == group_order(gv.take(i as int)).map_values(|g: Seq<char>| (g, Seq::<Seq<char>>::empty())),
            decreases groups.len() - i,
        {
            let ghost before = group_entries(blocking_jobs_by_groups);
            let ghost o = group_order(gv.take(i as int));
            let empty: Vec<String> = Vec::new();
            let ghost ev = names_view(empty@);
            group_map_insert(&mut blocking_jobs_by_groups, groups[i].clone(), empty);
            proof {
                let g = gv[i as int];
                assert(gv.take(i + 1).drop_last() =~= gv.take(i as int));
                assert(gv.take(i + 1).last() == g);
                assert(entry_keys(before) =~= o);
                assert(ev =~= Seq::<Seq<char>>::empty());
                if o.contains(g) {
                    let k = choose|k: int| 0 <= k < before.len() && before[k].0 == g
                        && group_entries(blocking_jobs_by_groups) == before.update(k, (g, ev));
                    assert(group_entries(blocking_jobs_by_groups) =~= before);
                } else {
                    assert(group_entries(blocking_jobs_by_groups) =~= o.push(g).map_values(|g: Seq<char>| (g, Seq::<Seq<char>>::empty())));
                }
            }
            i = i + 1;
        }
        proof {
            assert(gv.take(groups.len() as int) =~= gv);
            lemma_group_order(gv);
            assert(jobs@.take(0) =~= Seq::<Job>::empty());
            assert(group_entries(blocking_jobs_by_groups) =~= order.map_values(|g: Seq<char>| (g, group_members(jobs@.take(0), g))));
        }
        let mut t: usize = 0;
        while t < jobs.len()
            invariant
                t <= jobs.len(),
                order == group_order(gv),
                order.no_duplicates(),
                group_entries(blocking_jobs_by_groups) == order.map_values(|g: Seq<char>| (g, group_members(jobs@.take(t as int), g))),
            decreases jobs.len() - t,
        {
            let ghost before = group_entries(blocking_jobs_by_groups);
            proof {
                assert(entry_keys(before) =~= order);
                assert forall|g: Seq<char>| true implies #[trigger] group_members(jobs@.take(t + 1), g) == if jobs@[t as int].group_view() == Some(g) {
                    group_members(jobs@.take(t as int), g).push(jobs@[t as int].name_view())
                } else {
                    group_members(jobs@.take(t as int), g)
                } by {
                    lemma_group_members_next(jobs@, t as int, g);
                }
            }
            match jobs[t].group() {
                Some(group) => {
                    match group_map_get(&blocking_jobs_by_groups, group) {
                        Some(collection) => {
                            let mut grown = copy_strings(collection.as_slice());
                            grown.push(jobs[t].name().to_owned());
                            let ghost v = names_view(grown@);
                            proof {
                                let k = choose|k: int| 0 <= k < before.len() && before[k].0 == group@ && before[k].1 == names_view(collection@);
                                assert(v =~= names_view(collection@).push(jobs@[t as int].name_view()));
                                assert(entry_keys(before)[k] == group@);
                            }
                            group_map_insert(&mut blocking_jobs_by_groups, group.to_owned(), grown);
                            proof {
                                let k = choose|k: int| 0 <= k < before.len() && before[k].0 == group@
                                    && group_entries(blocking_jobs_by_groups) == before.update(k, (group@, v));
                                let k2 = choose|k: int| 0 <= k < before.len() && before[k].0 == group@ && before[k].1 == names_view(collection@);
                                assert(order[k] == group@);
                                assert(order[k2] == group@);
                                assert(k == k2);
                                assert forall|m: int| 0 <= m < order.len() implies
                                    #[trigger] group_entries(blocking_jobs_by_groups)[m] == (order[m], group_members(jobs@.take(t + 1), order[m])) by {
                                    if m != k {
                                        assert(order[m] != group@);
                                    }
                                }
                                assert(group_entries(blocking_jobs_by_groups) =~= order.map_values(|g: Seq<char>| (g, group_members(jobs@.take(t + 1), g))));
                            }
                        },
                        None => {
                            proof {
                                assert forall|m: int| 0 <= m < order.len() implies order[m] != group@ by {
                                    assert(entry_keys(before)[m] == order[m]);
                                }
                                assert(group_entries(blocking_jobs_by_groups) =~= order.map_values(|g: Seq<char>| (g, group_members(jobs@.take(t + 1), g))));
                            }
                        },
                    }
                },
                None => {
                    proof {
                        assert(group_entries(blocking_jobs_by_groups) =~= order.map_values(|g: Seq<char>| (g, group_members(jobs@.take(t + 1), g))));
                    }
                },
            }
            t = t + 1;
        }
        let ghost table = group_table(jobs@, gv);
        proof {
            assert(jobs@.take(jobs.len() as int) =~= jobs@);
            assert(group_entries(blocking_jobs_by_groups) == table);
        }
        let count = group_map_len(&blocking_jobs_by_groups);
        let mut group_constraints: Vec<(String, String)> = Vec::new();
        let mut t: usize = 0;
        proof {
            assert(jobs@.take(0) =~= Seq::<Job>::empty());
            assert(constraint_views(group_constraints@) =~= group_pairs(table, jobs@.take(0)));
        }
        while t < jobs.len()
            invariant
                t <= jobs.len(),
                table == group_table(jobs@, gv),
                group_entries(blocking_jobs_by_groups) == table,
                count == table.len(),
                constraint_views(group_constraints@) == group_pairs(table, jobs@.take(t as int)),
            decreases jobs.len() - t,
        {
            let ghost base = constraint_views(group_constraints@);
            let name = jobs[t].name();
            proof {
                assert(jobs@.take(t + 1).drop_last() =~= jobs@.take(t as int));
                assert(jobs@.take(t + 1).last() == jobs@[t as int]);
            }
            match jobs[t].group() {
                Some(job_group) => {
                    let mut k: usize = 0;
                    let mut reached = false;
                    proof {
                        assert(table.take(0) =~= Seq::<(Seq<char>, Seq<Seq<char>>)>::empty());
                        assert(base + pairs_of_groups(table.take(0), name@) =~= base);
                    }
                    while k < count && !reached
                        invariant
                            k <= count,
                            count == table.len(),
                            group_entries(blocking_jobs_by_groups) == table,
                            forall|m: int| 0 <= m < k ==> (#[trigger] table[m]).0 != job_group@,
                            reached ==> k < count && table[k as int].0 == job_group@,
                            constraint_views(group_constraints@) == base + pairs_of_groups(table.take(k as int), name@),
                        decreases count - k, if reached { 0int } else { 1int },
                    {
                        let (group, blocking_job) = group_map_get_index(&blocking_jobs_by_groups, k).unwrap();
                        if str_eq(group.as_str(), job_group) {
                            reached = true;
                        } else {
                            let ghost mid = constraint_views(group_constraints@);
                            let mut q: usize = 0;
                            while q < blocking_job.len()
                                invariant
                                    q <= blocking_job.len(),
                                    constraint_views(group_constraints@) == mid + names_view(blocking_job@).take(q as int).map_values(|m: Seq<char>| (m, name@)),
                                decreases blocking_job.len() - q,
                            {
                                let ghost prev = group_constraints@;
                                group_constraints.push((blocking_job[q].clone(), name.to_owned()));
                                proof {
                                    assert(group_constraints@ =~= prev.push((blocking_job@[q as int], group_constraints@.last().1)));
                                    assert(constraint_views(group_constraints@) =~= constraint_views(prev).push((blocking_job@[q as int]@, name@)));
                                    assert(names_view(blocking_job@).take(q + 1) =~= names_view(blocking_job@).take(q as int).push(blocking_job@[q as int]@));
                                }
                                q = q + 1;
                            }
                            proof {
                                assert(names_view(blocking_job@).take(blocking_job.len() as int) =~= names_view(blocking_job@));
                                assert(table.take(k + 1).drop_last() =~= table.take(k as int));
                                assert(table.take(k + 1).last() == table[k as int]);
                                assert(base + pairs_of_groups(table.take(k + 1), name@) =~= base + pairs_of_groups(table.take(k as int), name@)
                                    + table[k as int].1.map_values(|m: Seq<char>| (m, name@)));
                            }
                            k = k + 1;
                        }
                    }
                    proof {
                        lemma_groups_before(table, job_group@, k as int);
                    }
                },
                None => {
                    proof {
                        assert(base + job_group_pairs(table, jobs@[t as int]) =~= base);
                    }
                },
            }
            t = t + 1;
        }
        proof {
            assert(jobs@.take(jobs.len() as int) =~= jobs@);
        }
        group_constraints
    }
}

} // verus!

verus! {

/// A job with the variables named `keys` handed on to its container, if it
/// has one.
pub open spec fn with_env(m: JobModel, keys: Seq<Seq<char>>) -> JobModel {
    (
        m.0,
        m.1,
        match m.2 {
            Some(c) => Some((c.0, c.1 + keys, c.2, c.3, c.4)),
            None => None,
        },
        m.3,
        m.4,
    )
}

/// The last position of `x` in `s`, or -1.
pub open spec fn last_index(s: Seq<Seq<char>>, x: Seq<char>) -> int
    decreases s.len(),
{
    if s.len() == 0 {
        -1
    } else if s.last() == x {
        s.len() - 1
    } else {
        last_index(s.drop_last(), x)
    }
}

/// The last position of a name that occurs is one where it occurs.
pub proof fn lemma_last_index(s: Seq<Seq<char>>, x: Seq<char>)
    ensures
        s.contains(x) ==> 0 <= last_index(s, x) < s.len() && s[last_index(s, x)] == x,
        !s.contains(x) ==> last_index(s, x) == -1,
    decreases s.len(),
{
    if s.len() > 0 {
        lemma_last_index(s.drop_last(), x);
        if s.last() != x {
            if s.contains(x) {
                let k = choose|k: int| 0 <= k < s.len() && s[k] == x;
                assert(s.drop_last()[k] == x);
            }
            if s.drop_last().contains(x) {
                let k = choose|k: int| 0 <= k < s.drop_last().len() && s.drop_last()[k] == x;
                assert(s[k] == x);
            }
        }
    }
}

/// The constraints of a run: the given ones, then those of the groups.
pub open spec fn all_constraints(jobs: Seq<Job>, constraints: Seq<(String, String)>, groups: Seq<String>) -> Seq<(Seq<char>, Seq<char>)> {
    constraint_views(constraints) + group_constraints(jobs, names_view(groups))
}

/// The job named `name` blocks itself through the constraints.
pub open spec fn in_cycle(names: Seq<Seq<char>>, cs: Seq<(Seq<char>, Seq<char>)>, name: Seq<char>) -> bool {
    reachable(blocked_by_graph(names, cs), name).contains(name)
}

/// The first job, in order, that blocks itself, if any does.
pub open spec fn first_cycle(names: Seq<Seq<char>>, cs: Seq<(Seq<char>, Seq<char>)>) -> Option<Seq<char>>
    decreases names.len(),
{
    first_cycle_from(names, cs, 0)
}

/// The first job from position `k` on that blocks itself, if any does.
pub open spec fn first_cycle_from(names: Seq<Seq<char>>, cs: Seq<(Seq<char>, Seq<char>)>, k: int) -> Option<Seq<char>>
    decreases names.len() - k,
{
    if k < 0 || k >= names.len() {
        None
    } else if in_cycle(names, cs, names[k]) {
        Some(names[k])
    } else {
        first_cycle_from(names, cs, k + 1)
    }
}

/// What the scheduler holds of a job when a run starts, for the jobs named
/// in `seen`: the last job of that name, with the variables of the
/// environment; the jobs it blocks, in descending order; the jobs that block
/// it, in ascending order; pending when none does, blocked otherwise.
pub open spec fn initial_watcher(
    jobs: Seq<Job>,
    cs: Seq<(Seq<char>, Seq<char>)>,
    env_keys: Seq<Seq<char>>,
    seen: Seq<Seq<char>>,
    w: WatcherView,
) -> bool {
    let names = job_names(jobs);
    let n = w.0.0;
    &&& 0 <= last_index(seen, n) < jobs.len()
    &&& w.0 == with_env(jobs[last_index(seen, n)]@, env_keys)
    &&& strictly_descending(w.2)
    &&& w.2.to_set() == reachable(blocks_graph(names, cs), n)
    &&& crate::names::strictly_ascending(w.3)
    &&& w.3.to_set() == reachable(blocked_by_graph(names, cs), n)
    &&& w.1 == if w.3.len() == 0 { JobStateView::Pending } else { JobStateView::Blocked }
}

/// The reverse of an ascending sequence is descending, with the same elements.
pub proof fn lemma_reverse_ascending(s: Seq<Seq<char>>)
    requires
        strictly_ascending(s),
    ensures
        strictly_descending(s.reverse()),
        s.reverse().to_set() == s.to_set(),
        s.reverse().reverse() == s,
{
    let r = s.reverse();
    assert forall|i: int, j: int| 0 <= i < j < r.len() implies crate::text::seq_lt(#[trigger] r[j], #[trigger] r[i]) by {
        assert(r[i] == s[s.len() - 1 - i]);
        assert(r[j] == s[s.len() - 1 - j]);
    }
    assert forall|x: Seq<char>| r.to_set().contains(x) <==> s.to_set().contains(x) by {
        if r.contains(x) {
            let k = choose|k: int| 0 <= k < r.len() && r[k] == x;
            assert(s[s.len() - 1 - k] == x);
        }
        if s.contains(x) {
            let k = choose|k: int| 0 <= k < s.len() && s[k] == x;
            assert(r[s.len() - 1 - k] == x);
        }
    }
    assert(r.to_set() =~= s.to_set());
    assert(r.reverse() =~= s);
}

/// With valid constraints, whatever a job blocks is a job.
pub proof fn lemma_reached_is_job(names: Seq<Seq<char>>, cs: Seq<(Seq<char>, Seq<char>)>, a: Seq<char>, b: Seq<char>)
    requires
        forall|i: int| 0 <= i < cs.len() ==> constraint_fault(names, #[trigger] cs[i]) is None,
        reaches(blocks_graph(names, cs), a, b),
    ensures
        names.contains(b),
{
    let g = blocks_graph(names, cs);
    let p = choose|p: Seq<Seq<char>>| #[trigger] is_path(g, p) && p.len() >= 2 && p[0] == a && p.last() == b;
    let x = p[p.len() - 2];
    assert(g.contains_key(x) && g[x].contains(p[p.len() - 2 + 1]));
    assert(cs.contains((x, b)));
    let k = choose|k: int| 0 <= k < cs.len() && cs[k] == (x, b);
    assert(constraint_fault(names, cs[k]) is None);
}

/// With valid constraints, `a` blocks `b` exactly when `b` is blocked by `a`.
pub proof fn lemma_transpose(names: Seq<Seq<char>>, cs: Seq<(Seq<char>, Seq<char>)>, a: Seq<char>, b: Seq<char>)
    requires
        forall|i: int| 0 <= i < cs.len() ==> constraint_fault(names, #[trigger] cs[i]) is None,
        reaches(blocks_graph(names, cs), a, b),
    ensures
        reaches(blocked_by_graph(names, cs), b, a),
{
    let g = blocks_graph(names, cs);
    let h = blocked_by_graph(names, cs);
    let p = choose|p: Seq<Seq<char>>| #[trigger] is_path(g, p) && p.len() >= 2 && p[0] == a && p.last() == b;
    let q = p.reverse();
    assert forall|m: int| 0 <= m < q.len() - 1 implies h.contains_key(#[trigger] q[m]) && h[q[m]].contains(q[m + 1]) by {
        let x = p[p.len() - 2 - m];
        let y = p[p.len() - 1 - m];
        assert(q[m] == y);
        assert(q[m + 1] == x);
        assert(g.contains_key(x) && g[x].contains(p[p.len() - 2 - m + 1]));
        assert(cs.contains((x, y)));
        let k = choose|k: int| 0 <= k < cs.len() && cs[k] == (x, y);
        assert(constraint_fault(names, cs[k]) is None);
    }
    assert(is_path(h, q));
    assert(q[0] == b);
    assert(q.last() == a);
}

} // verus!

verus! {

/// The views of watchers.
pub open spec fn watcher_views(v: Seq<JobWatcher>) -> Seq<WatcherView> {
    v.map_values(|w: JobWatcher| w@)
}

/// The first job from `k` on that blocks itself is the one at `i` when none
/// between them does.
proof fn lemma_first_cycle_at(names: Seq<Seq<char>>, cs: Seq<(Seq<char>, Seq<char>)>, k: int, i: int)
    requires
        0 <= k <= i < names.len(),
        forall|j: int| k <= j < i ==> !in_cycle(names, cs, #[trigger] names[j]),
        in_cycle(names, cs, names[i]),
    ensures
        first_cycle_from(names, cs, k) == Some(names[i]),
    decreases i - k,
{
    if k < i {
        lemma_first_cycle_at(names, cs, k + 1, i);
    }
}

/// No job from `k` on blocks itself when none does.
proof fn lemma_no_cycle_from(names: Seq<Seq<char>>, cs: Seq<(Seq<char>, Seq<char>)>, k: int)
    requires
        0 <= k <= names.len(),
        forall|j: int| k <= j < names.len() ==> !in_cycle(names, cs, #[trigger] names[j]),
    ensures
        first_cycle_from(names, cs, k) is None,
    decreases names.len() - k,
{
    if k < names.len() {
        lemma_no_cycle_from(names, cs, k + 1);
    }
}

/// With valid constraints, `b` is blocked by `a` exactly when `a` blocks `b`.
pub proof fn lemma_transpose_back(names: Seq<Seq<char>>, cs: Seq<(Seq<char>, Seq<char>)>, a: Seq<char>, b: Seq<char>)
    requires
        forall|i: int| 0 <= i < cs.len() ==> constraint_fault(names, #[trigger] cs[i]) is None,
        reaches(blocked_by_graph(names, cs), b, a),
    ensures
        reaches(blocks_graph(names, cs), a, b),
{
    let g = blocked_by_graph(names, cs);
    let h = blocks_graph(names, cs);
    let p = choose|p: Seq<Seq<char>>| #[trigger] is_path(g, p) && p.len() >= 2 && p[0] == b && p.last() == a;
    let q = p.reverse();
    assert forall|m: int| 0 <= m < q.len() - 1 implies h.contains_key(#[trigger] q[m]) && h[q[m]].contains(q[m + 1]) by {
        let x = p[p.len() - 2 - m];
        let y = p[p.len() - 1 - m];
        assert(q[m] == y);
        assert(q[m + 1] == x);
        assert(g.contains_key(x) && g[x].contains(p[p.len() - 2 - m + 1]));
        assert(cs.contains((y, x)));
        let k = choose|k: int| 0 <= k < cs.len() && cs[k] == (y, x);
        assert(constraint_fault(names, cs[k]) is None);
    }
    assert(is_path(h, q));
    assert(q[0] == a);
    assert(q.last() == b);
}

/// The watchers of a run that starts hold the links between the jobs.
proof fn lemma_initial_links(
    jobs: Seq<Job>,
    cs: Seq<(Seq<char>, Seq<char>)>,
    env_keys: Seq<Seq<char>>,
    e: Seq<WatcherView>,
)
    requires
        forall|c: int| 0 <= c < cs.len() ==> constraint_fault(job_names(jobs), #[trigger] cs[c]) is None,
        strictly_ascending(watcher_names(e)),
        forall|x: Seq<char>| watcher_names(e).contains(x) <==> job_names(jobs).contains(x),
        forall|k: int| 0 <= k < e.len() ==> initial_watcher(jobs, cs, env_keys, job_names(jobs), #[trigger] e[k]),
    ensures
        links_ok(e),
{
    let names = job_names(jobs);
    let n = watcher_names(e);
    assert forall|i: int| 0 <= i < e.len() implies strictly_descending(#[trigger] e[i].2) by {
        assert(initial_watcher(jobs, cs, env_keys, names, e[i]));
    }
    assert forall|i: int, x: Seq<char>| 0 <= i < e.len() && (#[trigger] e[i].2.contains(x)) implies n.contains(x) by {
        assert(initial_watcher(jobs, cs, env_keys, names, e[i]));
        assert(e[i].2.to_set().contains(x));
        lemma_reached_is_job(names, cs, e[i].0.0, x);
    }
    assert forall|i: int| 0 <= i < e.len() && !(e[i].1 is Blocked) && !(e[i].1 is Cancelled) implies (#[trigger] e[i].3).len() == 0 by {
        assert(initial_watcher(jobs, cs, env_keys, names, e[i]));
    }
    assert forall|i: int, j: int| 0 <= i < e.len() && 0 <= j < e.len() && #[trigger] e[i].2.contains(#[trigger] n[j])
        && e[i].1 != JobStateView::Terminated(JobResult::Success) implies e[j].3.contains(n[i]) by {
        assert(initial_watcher(jobs, cs, env_keys, names, e[i]));
        assert(initial_watcher(jobs, cs, env_keys, names, e[j]));
        assert(n[i] == e[i].0.0);
        assert(n[j] == e[j].0.0);
        assert(e[i].2.to_set().contains(n[j]));
        lemma_transpose(names, cs, n[i], n[j]);
        assert(e[j].3.to_set().contains(n[i]));
    }
    assert forall|i: int, j: int| 0 <= i < e.len() && 0 <= j < e.len() && #[trigger] e[i].2.contains(#[trigger] n[j])
        && e[i].1 == JobStateView::Terminated(JobResult::Failure) implies e[j].1 is Cancelled by {
        assert(initial_watcher(jobs, cs, env_keys, names, e[i]));
    }
}

impl Dag {
    /// Puts `w` among the watchers, in the order of their names, in place of
    /// the watcher of the same name if there is one.
    fn insert_watcher(all: &mut Vec<JobWatcher>, w: JobWatcher)
        requires
            strictly_ascending(watcher_names(watcher_views(old(all)@))),
        ensures
            strictly_ascending(watcher_names(watcher_views(final(all)@))),
            forall|x: Seq<char>| watcher_names(watcher_views(final(all)@)).contains(x)
                <==> (watcher_names(watcher_views(old(all)@)).contains(x) || x == w@.0.0),
            forall|k: int| 0 <= k < final(all)@.len() ==> #[trigger] watcher_views(final(all)@)[k] == w@
                || (watcher_views(final(all)@)[k].0.0 != w@.0.0 && watcher_views(old(all)@).contains(watcher_views(final(all)@)[k])),
    {
        let ghost ov = watcher_views(all@);
        let ghost on = watcher_names(ov);
        let ghost wn = w@.0.0;
        let mut p: usize = 0;
        while p < all.len() && crate::text::str_lt(all[p].job.name(), w.job.name())
            invariant
                p <= all.len(),
                all@ == old(all)@,
                ov == watcher_views(all@),
                on == watcher_names(ov),
                wn == w@.0.0,
                forall|k: int| 0 <= k < p ==> crate::text::seq_lt(#[trigger] on[k], wn),
            decreases all.len() - p,
        {
            p = p + 1;
        }
        if p < all.len() && str_eq(all[p].job.name(), w.job.name()) {
            all.set(p, w);
            proof {
                let nv = watcher_views(all@);
                assert(watcher_names(nv) =~= on);
                assert(on[p as int] == wn);
                assert(on.contains(wn));
                assert forall|x: Seq<char>| watcher_names(nv).contains(x) <==> (on.contains(x) || x == wn) by {
                    if x == wn {
                        assert(watcher_names(nv)[p as int] == x);
                    }
                }
                assert forall|k: int| 0 <= k < all@.len() && k != p implies nv[k] == ov[k] && ov[k].0.0 != wn by {
                    crate::names::lemma_ascending_no_duplicates(on);
                    assert(on[k] != on[p as int]);
                }
                assert forall|k: int| 0 <= k < all@.len() implies #[trigger] nv[k] == w@
                    || (nv[k].0.0 != wn && ov.contains(nv[k])) by {
                    if k != p {
                        assert(ov[k] == nv[k]);
                    }
                }
                assert(forall|x: Seq<char>| watcher_names(watcher_views(all@)).contains(x) <==> (watcher_names(watcher_views(old(all)@)).contains(x) || x == w@.0.0));
            }
        } else {
            let ghost wv = w@;
            all.insert(p, w);
            proof {
                let nv = watcher_views(all@);
                assert(nv =~= ov.insert(p as int, wv));
                assert(watcher_names(nv) =~= on.insert(p as int, wn));
                if p < on.len() {
                    crate::text::lemma_seq_lt_total(on[p as int], wn);
                    assert(crate::text::seq_lt(wn, on[p as int]));
                }
                assert forall|a: int, b: int| 0 <= a < b < watcher_names(nv).len() implies
                    crate::text::seq_lt(#[trigger] watcher_names(nv)[a], #[trigger] watcher_names(nv)[b]) by {
                    let nn = watcher_names(nv);
                    if b < p {
                        assert(nn[a] == on[a] && nn[b] == on[b]);
                    } else if b == p {
                        assert(nn[a] == on[a]);
                    } else if a == p {
                        assert(nn[b] == on[b - 1]);
                        if b - 1 > p {
                            crate::text::lemma_seq_lt_transitive(wn, on[p as int], on[b - 1]);
                        }
                    } else if a < p {
                        assert(nn[a] == on[a]);
                        assert(nn[b] == on[b - 1]);
                    } else {
                        assert(nn[a] == on[a - 1]);
                        assert(nn[b] == on[b - 1]);
                    }
                }
                assert forall|x: Seq<char>| watcher_names(nv).contains(x) <==> (on.contains(x) || x == wn) by {
                    let nn = watcher_names(nv);
                    if nn.contains(x) {
                        let k = choose|k: int| 0 <= k < nn.len() && nn[k] == x;
                        if k < p {
                            assert(on[k] == x);
                        } else if k > p {
                            assert(on[k - 1] == x);
                        }
                    }
                    if on.contains(x) {
                        let k = choose|k: int| 0 <= k < on.len() && on[k] == x;
                        if k < p {
                            assert(nn[k] == x);
                        } else {
                            assert(nn[k + 1] == x);
                        }
                    }
                    if x == wn {
                        assert(nn[p as int] == x);
                    }
                }
                assert forall|k: int| 0 <= k < all@.len() implies #[trigger] nv[k] == wv
                    || (nv[k].0.0 != wn && ov.contains(nv[k])) by {
                    if k < p {
                        assert(nv[k] == ov[k]);
                        assert(crate::text::seq_lt(on[k], wn));
                        crate::text::lemma_seq_lt_irreflexive(wn);
                    } else if k > p {
                        assert(nv[k] == ov[k - 1]);
                        if k - 1 > p {
                            crate::text::lemma_seq_lt_transitive(wn, on[p as int], on[k - 1]);
                        }
                        crate::text::lemma_seq_lt_irreflexive(wn);
                    }
                }
                assert(wv.0.0 == wn);
                assert(forall|x: Seq<char>| watcher_names(nv).contains(x) <==> (on.contains(x) || x == wn));
                assert(on == watcher_names(watcher_views(old(all)@)));
                assert(wn == w@.0.0);
                assert(nv == watcher_views(all@));
                assert forall|x: Seq<char>| watcher_names(watcher_views(all@)).contains(x) <==> (watcher_names(watcher_views(old(all)@)).contains(x) || x == w@.0.0) by {
                    assert(watcher_names(nv).contains(x) <==> (on.contains(x) || x == wn));
                }
            }
        }
    }
}

} // verus!

verus! {

/// A copy of the constraints.
fn copy_constraints(cs: &[(String, String)]) -> (r: Vec<(String, String)>)
    ensures
        constraint_views(r@) == constraint_views(cs@),
{
    let mut r: Vec<(String, String)> = Vec::new();
    let mut i: usize = 0;
    while i < cs.len()
        invariant
            i <= cs.len(),
            constraint_views(r@) == constraint_views(cs@).take(i as int),
        decreases cs.len() - i,
    {
        let ghost before = r@;
        r.push((cs[i].0.clone(), cs[i].1.clone()));
        proof {
            assert(constraint_views(r@) =~= constraint_views(before).push((cs@[i as int].0@, cs@[i as int].1@)));
            assert(constraint_views(cs@).take(i + 1) =~= constraint_views(cs@).take(i as int).push((cs@[i as int].0@, cs@[i as int].1@)));
        }
        i = i + 1;
    }
    assert(constraint_views(cs@).take(cs.len() as int) =~= constraint_views(cs@));
    r
}

impl Dag {
    /// The jobs of a run: checks the constraints, the given ones and those of
    /// the groups (see `ConstraintMatrix::new`), hands each job the variables
    /// of `env`, and finds, for each job in order, the jobs it blocks and the
    /// jobs that block it, failing on the first job that blocks itself. A job
    /// that no job blocks is pending, the others are blocked.
    pub fn new(jobs: &[Job], constraints: &[(String, String)], groups: &[String], env: &EnvMap) -> (r: Result<Self, Error>)
        ensures
            match r {
                Ok(d) => {
                    let names = job_names(jobs@);
                    let cs = all_constraints(jobs@, constraints@, groups@);
                    &&& first_fault(names, cs) is None
                    &&& first_cycle(names, cs) is None
                    &&& d.wf()
                    &&& strictly_ascending(watcher_names(d.entries()))
                    &&& forall|x: Seq<char>| watcher_names(d.entries()).contains(x) <==> names.contains(x)
                    &&& forall|k: int| 0 <= k < d.entries().len() ==> initial_watcher(jobs@, cs, env.keys_view(), names, #[trigger] d.entries()[k])
                },
                Err(e) => {
                    let names = job_names(jobs@);
                    let cs = all_constraints(jobs@, constraints@, groups@);
                    match first_fault(names, cs) {
                        Some(f) => e@ == f,
                        None => first_cycle(names, cs) is Some && e@ == ErrorView::CycleExistsBecauseOf(first_cycle(names, cs).unwrap()),
                    }
                },
            },
    {
        let ghost names = job_names(jobs@);
        let ghost cs = all_constraints(jobs@, constraints@, groups@);
        let mut all = copy_constraints(constraints);
        let extra = Self::compute_group_constraints(jobs, groups);
        let mut x: usize = 0;
        while x < extra.len()
            invariant
                x <= extra.len(),
                constraint_views(all@) == constraint_views(constraints@) + constraint_views(extra@).take(x as int),
            decreases extra.len() - x,
        {
            let ghost before = all@;
            all.push((extra[x].0.clone(), extra[x].1.clone()));
            proof {
                assert(constraint_views(all@) =~= constraint_views(before).push((extra@[x as int].0@, extra@[x as int].1@)));
                assert(constraint_views(extra@).take(x + 1) =~= constraint_views(extra@).take(x as int).push((extra@[x as int].0@, extra@[x as int].1@)));
            }
            x = x + 1;
        }
        proof {
            assert(constraint_views(extra@).take(extra.len() as int) =~= constraint_views(extra@));
            assert(constraint_views(all@) == cs);
        }
        let matrix = match ConstraintMatrix::new(jobs, all.as_slice()) {
            Ok(m) => m,
            Err(e) => {
                return Err(e);
            },
        };
        proof {
            crate::ci::job::dag::lemma_first_fault(names, cs);
        }
        let mut all_jobs: Vec<JobWatcher> = Vec::new();
        let mut i: usize = 0;
        proof {
            assert(names.take(0) =~= Seq::<Seq<char>>::empty());
            assert(watcher_names(watcher_views(all_jobs@)) =~= Seq::<Seq<char>>::empty());
        }
        while i < jobs.len()
            invariant
                i <= jobs.len(),
                names == job_names(jobs@),
                cs == all_constraints(jobs@, constraints@, groups@),
                first_fault(names, cs) is None,
                forall|c: int| 0 <= c < cs.len() ==> constraint_fault(names, #[trigger] cs[c]) is None,
                matrix.wf(),
                matrix.blocks_view() == blocks_graph(names, cs),
                matrix.blocked_by_view() == blocked_by_graph(names, cs),
                strictly_ascending(watcher_names(watcher_views(all_jobs@))),
                forall|y: Seq<char>| watcher_names(watcher_views(all_jobs@)).contains(y) <==> names.take(i as int).contains(y),
                forall|k: int| 0 <= k < all_jobs@.len() ==> initial_watcher(jobs@, cs, env.keys_view(), names.take(i as int), #[trigger] watcher_views(all_jobs@)[k]),
                forall|j: int| 0 <= j < i ==> !in_cycle(names, cs, #[trigger] names[j]),
            decreases jobs.len() - i,
        {
            let mut job = jobs[i].clone();
            let ghost cloned = job@;
            job.forward_env(env);
            let ghost jn = job.name_view();
            proof {
                assert(cloned == jobs@[i as int]@);
                assert(job@ == with_env(jobs@[i as int]@, env.keys_view()));
                assert(jn == names[i as int]);
                assert(names.contains(jn));
            }
            let blocking = matrix.blocked_by(job.name());
            let ghost bitems = blocking.items();
            let blockers = matrix.blocking(job.name());
            let ghost items = blockers.items();
            let blocked_by_jobs: Vec<String> = blockers.into_vec();
            let ghost bb = names_view(blocked_by_jobs@);
            proof {
                lemma_reverse_ascending(items);
                lemma_reverse_ascending(bitems);
                assert(bb == items.reverse());
                assert(bb.to_set() == reachable(blocked_by_graph(names, cs), jn));
            }
            let state = if blocked_by_jobs.len() == 0 {
                JobState::Pending
            } else {
                let mut m: usize = 0;
                while m < blocked_by_jobs.len()
                    invariant
                        m <= blocked_by_jobs.len(),
                        bb == names_view(blocked_by_jobs@),
                        jn == job.name_view(),
                        forall|q: int| 0 <= q < m ==> bb[q] != jn,
                        i < jobs.len(),
                        names == job_names(jobs@),
                        jn == names[i as int],
                        bb.to_set() == reachable(blocked_by_graph(names, cs), jn),
                        forall|j: int| 0 <= j < i ==> !in_cycle(names, cs, #[trigger] names[j]),
                        cs == all_constraints(jobs@, constraints@, groups@),
                        first_fault(names, cs) is None,
                    decreases blocked_by_jobs.len() - m,
                {
                    if str_eq(blocked_by_jobs[m].as_str(), job.name()) {
                        proof {
                            assert(bb[m as int] == jn);
                            assert(bb.to_set().contains(jn));
                            assert(in_cycle(names, cs, names[i as int]));
                            lemma_first_cycle_at(names, cs, 0, i as int);
                        }
                        return Err(Error::CycleExistsBecauseOf(blocked_by_jobs[m].clone()));
                    }
                    m = m + 1;
                }
                JobState::Blocked
            };
            proof {
                if bb.to_set().contains(jn) {
                    let q = choose|q: int| 0 <= q < bb.len() && bb[q] == jn;
                }
                assert(!in_cycle(names, cs, names[i as int]));
            }
            let blocks_job = blocking.into_vec();
            let blocked_list = JobList::from(blocked_by_jobs.as_slice());
            proof {
                assert(names_view(blocks_job@) == bitems.reverse());
                assert(blocked_list.items() == items);
            }
            let w = JobWatcher::new(job, state, blocks_job, blocked_list);
            let ghost seen = names.take(i + 1);
            proof {
                assert(seen.drop_last() =~= names.take(i as int));
                assert(seen.last() == jn);
                assert(last_index(seen, jn) == i);
                assert(initial_watcher(jobs@, cs, env.keys_view(), seen, w@));
            }
            let ghost before = watcher_views(all_jobs@);
            Self::insert_watcher(&mut all_jobs, w);
            proof {
                let after = watcher_views(all_jobs@);
                assert forall|y: Seq<char>| watcher_names(after).contains(y) <==> seen.contains(y) by {
                    lemma_take_next(names, i as int, y);
                }
                assert forall|k: int| 0 <= k < all_jobs@.len() implies initial_watcher(jobs@, cs, env.keys_view(), seen, #[trigger] watcher_views(all_jobs@)[k]) by {
                    let v = after[k];
                    if v != w@ {
                        let j = choose|j: int| 0 <= j < before.len() && before[j] == v;
                        assert(initial_watcher(jobs@, cs, env.keys_view(), names.take(i as int), before[j]));
                        assert(last_index(seen, v.0.0) == last_index(names.take(i as int), v.0.0));
                    }
                }
            }
            i = i + 1;
        }
        proof {
            assert(names.take(jobs.len() as int) =~= names);
            lemma_no_cycle_from(names, cs, 0);
            lemma_initial_links(jobs@, cs, env.keys_view(), watcher_views(all_jobs@));
            lemma_progress_initial(jobs@, cs, env.keys_view(), watcher_views(all_jobs@));
        }
        let mut dag = Dag { all_jobs, available_jobs: JobList::new() };
        dag.actualize_job_list();
        Ok(dag)
    }
}

} // verus!

verus! {

/// `a` comes strictly before `b` in the lexicographic order of sequences of
/// names (the order of `Vec<String>`'s `Ord`).
pub open spec fn names_lt(a: Seq<Seq<char>>, b: Seq<Seq<char>>) -> bool
    decreases a.len(),
{
    if a.len() == 0 {
        b.len() > 0
    } else if b.len() == 0 {
        false
    } else if a[0] == b[0] {
        names_lt(a.drop_first(), b.drop_first())
    } else {
        crate::text::seq_lt(a[0], b[0])
    }
}

/// The order of names is irreflexive.
pub proof fn lemma_names_lt_irreflexive(a: Seq<Seq<char>>)
    ensures
        !names_lt(a, a),
    decreases a.len(),
{
    if a.len() > 0 {
        lemma_names_lt_irreflexive(a.drop_first());
    }
}

/// The order of names is transitive.
pub proof fn lemma_names_lt_transitive(a: Seq<Seq<char>>, b: Seq<Seq<char>>, c: Seq<Seq<char>>)
    requires
        names_lt(a, b),
        names_lt(b, c),
    ensures
        names_lt(a, c),
    decreases a.len(),
{
    if a.len() > 0 && b.len() > 0 && c.len() > 0 {
        if a[0] == b[0] && b[0] == c[0] {
            lemma_names_lt_transitive(a.drop_first(), b.drop_first(), c.drop_first());
        } else if a[0] == b[0] {
        } else if b[0] == c[0] {
        } else {
            crate::text::lemma_seq_lt_transitive(a[0], b[0], c[0]);
            if a[0] == c[0] {
                crate::text::lemma_seq_lt_irreflexive(a[0]);
            }
        }
    }
}

/// Two different sequences of names are ordered one way or the other, and
/// never both ways.
pub proof fn lemma_names_lt_total(a: Seq<Seq<char>>, b: Seq<Seq<char>>)
    ensures
        a != b ==> (names_lt(a, b) || names_lt(b, a)),
        !(names_lt(a, b) && names_lt(b, a)),
    decreases a.len(),
{
    if a.len() > 0 && b.len() > 0 {
        lemma_names_lt_total(a.drop_first(), b.drop_first());
        lemma_seq_lt_total(a[0], b[0]);
        if a[0] == b[0] && a != b {
            assert(a =~= seq![a[0]] + a.drop_first());
            assert(b =~= seq![b[0]] + b.drop_first());
        }
    } else if a.len() == 0 && b.len() == 0 {
        assert(a =~= b);
    }
}

/// Whether `a` comes strictly before `b`, as `Vec<String>`'s `<` decides it.
pub fn names_before(a: &Vec<String>, b: &Vec<String>) -> (r: bool)
    ensures
        r == names_lt(names_view(a@), names_view(b@)),
{
    let ghost x = names_view(a@);
    let ghost y = names_view(b@);
    let mut i: usize = 0;
    assert(x.skip(0) =~= x);
    assert(y.skip(0) =~= y);
    while i < a.len() && i < b.len() && str_eq(a[i].as_str(), b[i].as_str())
        invariant
            i <= a.len(),
            i <= b.len(),
            x == names_view(a@),
            y == names_view(b@),
            names_lt(x, y) == names_lt(x.skip(i as int), y.skip(i as int)),
        decreases a.len() - i,
    {
        proof {
            assert(x.skip(i as int).drop_first() =~= x.skip(i + 1));
            assert(y.skip(i as int).drop_first() =~= y.skip(i + 1));
            assert(x.skip(i as int)[0] == x[i as int]);
            assert(y.skip(i as int)[0] == y[i as int]);
        }
        i = i + 1;
    }
    proof {
        if i < a.len() && i < b.len() {
            assert(x.skip(i as int)[0] == x[i as int]);
            assert(y.skip(i as int)[0] == y[i as int]);
        }
    }
    if i < a.len() && i < b.len() {
        crate::text::str_lt(a[i].as_str(), b[i].as_str())
    } else {
        i == a.len() && i < b.len()
    }
}

/// What a query of the states gives of a job: its name, its state and the
/// jobs that still block it.
pub type EnumerationView = (Seq<char>, JobStateView, Seq<Seq<char>>);

/// The state of one job, by name.
#[derive(Debug)]
pub struct JobEnumeration {
    pub name: String,
    pub state: JobState,
    pub block: Vec<String>,
}

impl View for JobEnumeration {
    type V = EnumerationView;

    open spec fn view(&self) -> EnumerationView {
        (self.name@, self.state@, names_view(self.block@))
    }
}

/// `a` comes before `b`: two different jobs are ordered by the jobs that
/// still block them, then by name.
pub open spec fn enumeration_lt(a: EnumerationView, b: EnumerationView) -> bool {
    a.0 != b.0 && (names_lt(a.2, b.2) || (a.2 == b.2 && crate::text::seq_lt(a.0, b.0)))
}

/// What a query of the states gives of a watched job.
pub open spec fn enumeration_of(w: WatcherView) -> EnumerationView {
    (w.0.0, w.1, w.3)
}

fn jobenum(name: String, state: JobState, block: Vec<String>) -> (r: JobEnumeration)
    ensures
        r@ == (name@, state@, names_view(block@)),
{
    JobEnumeration { name, state, block }
}

impl JobEnumeration {
    /// Whether this job comes before `other`: two different jobs are ordered
    /// by the jobs that still block them, then by name.
    pub fn precedes(&self, other: &JobEnumeration) -> (r: bool)
        ensures
            r == enumeration_lt(self@, other@),
    {
        if str_eq(self.name.as_str(), other.name.as_str()) {
            return false;
        }
        if names_before(&self.block, &other.block) {
            return true;
        }
        if names_before(&other.block, &self.block) {
            proof {
                lemma_names_lt_total(self@.2, other@.2);
            }
            return false;
        }
        proof {
            lemma_names_lt_total(self@.2, other@.2);
        }
        crate::text::str_lt(self.name.as_str(), other.name.as_str())
    }
}

/// Putting a query with a new name after those that come before it keeps
/// the queries sorted.
proof fn lemma_sorted_insert(before: Seq<EnumerationView>, p: int, x: EnumerationView)
    requires
        enumeration_sorted(before),
        0 <= p <= before.len(),
        forall|k: int| 0 <= k < p ==> enumeration_lt(#[trigger] before[k], x),
        p == before.len() || !enumeration_lt(before[p], x),
        forall|k: int| 0 <= k < before.len() ==> (#[trigger] before[k]).0 != x.0,
    ensures
        enumeration_sorted(before.insert(p, x)),
{
    let after = before.insert(p, x);
    if p < before.len() {
        lemma_enumeration_lt_total(before[p], x);
    }
    assert forall|a: int, b: int| 0 <= a < b < after.len() implies enumeration_lt(#[trigger] after[a], #[trigger] after[b]) by {
        if b < p {
            assert(after[a] == before[a] && after[b] == before[b]);
        } else if b == p {
            assert(after[a] == before[a]);
        } else if a == p {
            assert(after[b] == before[b - 1]);
            if b - 1 > p {
                lemma_enumeration_lt_transitive(x, before[p], before[b - 1]);
            }
        } else if a < p {
            assert(after[a] == before[a]);
            assert(after[b] == before[b - 1]);
        } else {
            assert(after[a] == before[a - 1]);
            assert(after[b] == before[b - 1]);
        }
    }
}

/// The order of queries is transitive among jobs with different names.
proof fn lemma_enumeration_lt_transitive(a: EnumerationView, b: EnumerationView, c: EnumerationView)
    requires
        enumeration_lt(a, b),
        enumeration_lt(b, c),
        a.0 != c.0,
    ensures
        enumeration_lt(a, c),
{
    if names_lt(a.2, b.2) && names_lt(b.2, c.2) {
        lemma_names_lt_transitive(a.2, b.2, c.2);
    } else if names_lt(a.2, b.2) {
    } else if names_lt(b.2, c.2) {
    } else {
        crate::text::lemma_seq_lt_transitive(a.0, b.0, c.0);
    }
}

/// Two queries of jobs with different names are ordered one way or the other.
proof fn lemma_enumeration_lt_total(a: EnumerationView, b: EnumerationView)
    requires
        a.0 != b.0,
    ensures
        enumeration_lt(a, b) || enumeration_lt(b, a),
        !(enumeration_lt(a, b) && enumeration_lt(b, a)),
{
    lemma_names_lt_total(a.2, b.2);
    lemma_seq_lt_total(a.0, b.0);
    lemma_names_lt_irreflexive(a.2);
}

/// The views of queries.
pub open spec fn enumeration_views(v: Seq<JobEnumeration>) -> Seq<EnumerationView> {
    v.map_values(|q: JobEnumeration| q@)
}

/// The queries are those of the watched jobs: each query is that of a job,
/// and each job has a query.
pub open spec fn same_jobs(v: Seq<EnumerationView>, e: Seq<WatcherView>) -> bool {
    &&& forall|k: int| 0 <= k < v.len() ==> is_query_of_some(v[k], e)
    &&& forall|m: int| 0 <= m < e.len() ==> has_query(v, #[trigger] e[m])
}

/// `q` is the query of some watched job.
pub open spec fn is_query_of_some(q: EnumerationView, e: Seq<WatcherView>) -> bool {
    exists|m: int| 0 <= m < e.len() && q == enumeration_of(#[trigger] e[m])
}

/// Some query is that of `w`.
pub open spec fn has_query(v: Seq<EnumerationView>, w: WatcherView) -> bool {
    exists|k: int| 0 <= k < v.len() && #[trigger] v[k] == enumeration_of(w)
}

/// Each query comes strictly before the next ones.
pub open spec fn enumeration_sorted(s: Seq<EnumerationView>) -> bool {
    forall|i: int, j: int| 0 <= i < j < s.len() ==> enumeration_lt(#[trigger] s[i], #[trigger] s[j])
}

impl Dag {
    /// The state of every job: one query per job, ordered by the jobs that
    /// still block them, then by name.
    pub fn enumerate(&self) -> (r: Vec<JobEnumeration>)
        requires
            self.wf(),
        ensures
            r@.len() == self.entries().len(),
            enumeration_sorted(enumeration_views(r@)),
            same_jobs(enumeration_views(r@), self.entries()),
    {
        let ghost e = self.entries();
        let ghost n = watcher_names(e);
        proof {
            crate::names::lemma_ascending_no_duplicates(n);
        }
        let mut vec: Vec<JobEnumeration> = Vec::new();
        let ghost mut perm: Seq<int> = Seq::empty();
        let ghost mut pos: Seq<int> = Seq::empty();
        let mut i: usize = 0;
        while i < self.all_jobs.len()
            invariant
                i <= self.all_jobs.len(),
                e == self.entries(),
                n == watcher_names(e),
                n.no_duplicates(),
                vec@.len() == i,
                perm.len() == i,
                pos.len() == i,
                enumeration_sorted(enumeration_views(vec@)),
                forall|k: int| 0 <= k < i ==> 0 <= #[trigger] perm[k] < i
                    && enumeration_views(vec@)[k] == enumeration_of(e[perm[k]]),
                forall|m: int| 0 <= m < i ==> 0 <= #[trigger] pos[m] < i
                    && enumeration_views(vec@)[pos[m]] == enumeration_of(e[m]),
            decreases self.all_jobs.len() - i,
        {
            let watcher = &self.all_jobs[i];
            let item = jobenum(watcher.job.name().to_owned(), watcher.state.clone(), watcher.blocked_by_jobs.to_vec());
            let ghost x = item@;
            let ghost before = enumeration_views(vec@);
            proof {
                assert(x == enumeration_of(e[i as int]));
                assert forall|k: int| 0 <= k < before.len() implies (#[trigger] before[k]).0 != x.0 by {
                    assert(0 <= perm[k] < i);
                    assert(n[perm[k]] != n[i as int]);
                }
            }
            let mut p: usize = 0;
            while p < vec.len() && vec[p].precedes(&item)
                invariant
                    p <= vec@.len(),
                    before == enumeration_views(vec@),
                    x == item@,
                    forall|k: int| 0 <= k < p ==> enumeration_lt(#[trigger] before[k], x),
                decreases vec.len() - p,
            {
                p = p + 1;
            }
            vec.insert(p, item);
            proof {
                let after = enumeration_views(vec@);
                assert(after =~= before.insert(p as int, x));
                lemma_sorted_insert(before, p as int, x);
                let perm2 = perm.insert(p as int, i as int);
                let pos2 = Seq::new((i + 1) as nat, |m: int| if m == i { p as int } else if pos[m] >= p { pos[m] + 1 } else { pos[m] });
                assert forall|k: int| 0 <= k < i + 1 implies 0 <= #[trigger] perm2[k] < i + 1
                    && after[k] == enumeration_of(e[perm2[k]]) by {
                    if k < p {
                        assert(perm2[k] == perm[k]);
                        assert(after[k] == before[k]);
                    } else if k > p {
                        assert(perm2[k] == perm[k - 1]);
                        assert(after[k] == before[k - 1]);
                    }
                }
                assert forall|m: int| 0 <= m < i + 1 implies 0 <= #[trigger] pos2[m] < i + 1
                    && after[pos2[m]] == enumeration_of(e[m]) by {
                    if m < i {
                        assert(0 <= pos[m] < i);
                        if pos[m] >= p {
                            assert(after[pos[m] + 1] == before[pos[m]]);
                        } else {
                            assert(after[pos[m]] == before[pos[m]]);
                        }
                    }
                }
                perm = perm2;
                pos = pos2;
            }
            i = i + 1;
        }
        proof {
            let v = enumeration_views(vec@);
            let es = self.entries();
            assert forall|k: int| 0 <= k < v.len() implies is_query_of_some(v[k], es) by {
                assert(0 <= perm[k] < i);
                assert(v[k] == enumeration_of(es[perm[k]]));
            }
            assert forall|m: int| 0 <= m < es.len() implies has_query(v, #[trigger] es[m]) by {
                assert(0 <= pos[m] < i);
                assert(v[pos[m]] == enumeration_of(es[m]));
            }
            assert(same_jobs(v, es));
        }
        vec
    }
}

} // verus!

verus! {

impl Dag {
    /// A job is pending, started or ended only once every job that blocks it
    /// has succeeded.
    pub proof fn lemma_blockers_succeeded_first(&self, i: int, j: int)
        requires
            self.wf(),
            0 <= i < self.entries().len(),
            0 <= j < self.entries().len(),
            self.entries()[i].2.contains(self.entries()[j].0.0),
            !(self.entries()[j].1 is Blocked),
            !(self.entries()[j].1 is Cancelled),
        ensures
            self.entries()[i].1 == JobStateView::Terminated(JobResult::Success),
    {
        let e = self.entries();
        let n = watcher_names(e);
        assert(n[j] == e[j].0.0);
        assert(e[i].2.contains(n[j]));
        if e[i].1 != JobStateView::Terminated(JobResult::Success) {
            assert(e[j].3.contains(n[i]));
            assert(e[j].3.len() == 0);
        }
    }

    /// Every job that a failed job blocks is cancelled.
    pub proof fn lemma_failure_cancels(&self, i: int, j: int)
        requires
            self.wf(),
            0 <= i < self.entries().len(),
            0 <= j < self.entries().len(),
            self.entries()[i].1 == JobStateView::Terminated(JobResult::Failure),
            self.entries()[i].2.contains(self.entries()[j].0.0),
        ensures
            self.entries()[j].1 is Cancelled,
    {
        let e = self.entries();
        let n = watcher_names(e);
        assert(n[j] == e[j].0.0);
        assert(e[i].2.contains(n[j]));
    }

    /// The jobs that a started job blocks are blocked or cancelled: none of
    /// them runs while it runs.
    pub proof fn lemma_started_blocks_waiting(&self, i: int, j: int)
        requires
            self.wf(),
            0 <= i < self.entries().len(),
            0 <= j < self.entries().len(),
            self.entries()[i].1 is Started,
            self.entries()[i].2.contains(self.entries()[j].0.0),
        ensures
            self.entries()[j].1 is Blocked || self.entries()[j].1 is Cancelled,
    {
        lemma_started_successors(self.entries(), i, j);
    }

    /// A run does not get stuck while no job has failed: when no job runs
    /// and some job has not ended, some job is pending, ready to be handed
    /// out.
    pub proof fn lemma_no_deadlock(&self)
        requires
            self.wf(),
            no_failure(self.entries()),
            forall|i: int| 0 <= i < self.entries().len() ==> !((#[trigger] self.entries()[i]).1 is Started),
            exists|i: int| 0 <= i < self.entries().len() && (#[trigger] self.entries()[i]).1.unresolved(),
        ensures
            has_pending(self.entries()),
    {
        lemma_progress_pending(self.entries());
    }

    /// A job that was handed out, has ended or was cancelled never becomes
    /// pending or blocked again when a job ends: each job is handed out at
    /// most once.
    pub proof fn lemma_handed_out_once(&self, job: Seq<char>, result: JobResult, k: int)
        requires
            self.wf(),
            watcher_names(self.entries()).contains(job),
            state_named(self.entries(), job) is Started,
            0 <= k < self.entries().len(),
            self.entries()[k].1 is Started || self.entries()[k].1 is Terminated || self.entries()[k].1 is Cancelled,
        ensures
            !(after_event(self.entries(), job, result)[k].1 is Pending),
            !(after_event(self.entries(), job, result)[k].1 is Blocked),
    {
        let e = self.entries();
        let n = watcher_names(e);
        let j = choose|j: int| 0 <= j < n.len() && n[j] == job;
        assert(e[j].0.0 == job);
        lemma_name_index(e, j);
        let i = name_index(e, job);
        let b = e[i].2;
        let e1 = e.update(i, with_state(e[i], JobStateView::Terminated(result)));
        if k == i {
            match result {
                JobResult::Failure => {
                    if b.contains(e1[k].0.0) {
                        assert(e[i].2.contains(e[i].0.0));
                        lemma_started_successors(e, i, i);
                    }
                },
                JobResult::Success => {
                    let p = unlock_stop(e1, b);
                    lemma_unlock_stop_bounds(e1, b);
                    if b.take(p).contains(e[k].0.0) {
                        let m = choose|m: int| 0 <= m < b.take(p).len() && b.take(p)[m] == e[k].0.0;
                        assert(b[m] == e[i].0.0);
                        assert(e[i].2.contains(e[i].0.0));
                        lemma_started_successors(e, i, i);
                    }
                },
            }
        } else if !b.contains(e[k].0.0) {
            lemma_name_index(e, k);
            self.lemma_event_locality(job, result, k);
        } else {
            lemma_started_successors(e, i, k);
            assert(e[k].1 is Cancelled);
            match result {
                JobResult::Failure => {},
                JobResult::Success => {
                    let p = unlock_stop(e1, b);
                    lemma_unlock_stop_bounds(e1, b);
                    if b.take(p).contains(e[k].0.0) {
                        let m = choose|m: int| 0 <= m < b.take(p).len() && b.take(p)[m] == e[k].0.0;
                        assert(b[m] == e[k].0.0);
                        lemma_unlock_stop_uncancelled(e1, b, m);
                        assert(watcher_names(e1) =~= watcher_names(e));
                        lemma_name_index(e1, k);
                        assert(e1[k] == e[k]);
                    }
                },
            }
        }
    }

    /// The end of a job changes no job but itself and the jobs it blocks; in
    /// particular, a job that was handed out or has ended keeps its state.
    pub proof fn lemma_event_locality(&self, job: Seq<char>, result: JobResult, k: int)
        requires
            self.wf(),
            watcher_names(self.entries()).contains(job),
            state_named(self.entries(), job) is Started,
            0 <= k < self.entries().len(),
            self.entries()[k].0.0 != job,
            !self.entries()[name_index(self.entries(), job)].2.contains(self.entries()[k].0.0),
        ensures
            after_event(self.entries(), job, result)[k] == self.entries()[k],
    {
        let e = self.entries();
        let n = watcher_names(e);
        let j = choose|j: int| 0 <= j < n.len() && n[j] == job;
        assert(e[j].0.0 == job);
        lemma_name_index(e, j);
        let i = name_index(e, job);
        let b = e[i].2;
        let e1 = e.update(i, with_state(e[i], JobStateView::Terminated(result)));
        assert(e1[k] == e[k]);
        assert(k != i);
        match result {
            JobResult::Failure => {
                assert(after_event(e, job, result) == cancel_all(e1, b, job));
                assert(!b.contains(e1[k].0.0));
            },
            JobResult::Success => {
                let p = unlock_stop(e1, b);
                lemma_unlock_stop_bounds(e1, b);
                assert(after_event(e, job, result) == unlock_all(e1, b.take(p), job));
                if b.take(p).contains(e[k].0.0) {
                    let m = choose|m: int| 0 <= m < b.take(p).len() && b.take(p)[m] == e[k].0.0;
                    assert(b[m] == e[k].0.0);
                }
            },
        }
    }
}

} // verus!

verus! {

/// The job at `i` is handed out when it goes from pending to started.
pub open spec fn started_at(e: Seq<WatcherView>, i: int) -> Seq<WatcherView> {
    e.update(i, (e[i].0, JobStateView::Started, e[i].2, e[i].3))
}

/// One step of a run, on the watched jobs: a `poll`, which starts the first
/// pending job and changes nothing when none is pending, or the end of a
/// started job (`record_event`).
pub open spec fn dag_step(e: Seq<WatcherView>, next: Seq<WatcherView>) -> bool {
    ||| has_pending(e) && next == started_at(e, first_pending(e))
    ||| !has_pending(e) && next == e
    ||| exists|job: Seq<char>, result: JobResult|
        watcher_names(e).contains(job) && state_named(e, job) is Started && next == #[trigger] after_event(e, job, result)
}

/// The job at `k` is handed out between `e` and `next`: pending before,
/// started after.
pub open spec fn handed_out_between(e: Seq<WatcherView>, next: Seq<WatcherView>, k: int) -> bool {
    e[k].1 is Pending && next[k].1 is Started
}

/// A job that was handed out, has ended or was cancelled.
pub open spec fn past_pending(s: JobStateView) -> bool {
    s is Started || s is Terminated || s is Cancelled
}

impl Dag {
    /// A step of a run keeps the number of jobs.
    proof fn lemma_step_keeps_len(&self, next: Seq<WatcherView>)
        requires
            self.wf(),
            dag_step(self.entries(), next),
        ensures
            next.len() == self.entries().len(),
    {
        let e = self.entries();
        if has_pending(e) && next == started_at(e, first_pending(e)) {
            lemma_first_pending(e);
        } else if !has_pending(e) && next == e {
        } else {
            let (job, result) = choose|job: Seq<char>, result: JobResult|
                watcher_names(e).contains(job) && state_named(e, job) is Started && next == #[trigger] after_event(e, job, result);
            let n = watcher_names(e);
            let j = choose|j: int| 0 <= j < n.len() && n[j] == job;
            assert(e[j].0.0 == job);
            lemma_name_index(e, j);
        }
    }

    /// A job that was handed out, has ended or was cancelled stays so through
    /// one step of a run, and the jobs stay where they are.
    proof fn lemma_step_keeps_past_pending(&self, next: Seq<WatcherView>, k: int)
        requires
            self.wf(),
            dag_step(self.entries(), next),
            0 <= k < self.entries().len(),
            past_pending(self.entries()[k].1),
        ensures
            next.len() == self.entries().len(),
            past_pending(next[k].1),
    {
        let e = self.entries();
        if has_pending(e) && next == started_at(e, first_pending(e)) {
            lemma_first_pending(e);
        } else if !has_pending(e) && next == e {
        } else {
            let (job, result) = choose|job: Seq<char>, result: JobResult|
                watcher_names(e).contains(job) && state_named(e, job) is Started && next == #[trigger] after_event(e, job, result);
            self.lemma_handed_out_once(job, result, k);
        }
        self.lemma_step_keeps_len(next);
    }
}

/// Through the steps of a run from `run[a + 1]` to `run[i]`, the job at `k`,
/// handed out at step `a`, stays handed out, ended or cancelled.
proof fn lemma_stays_past_pending(run: Seq<Dag>, a: int, i: int, k: int)
    requires
        forall|j: int| 0 <= j < run.len() ==> (#[trigger] run[j]).wf(),
        forall|j: int| 0 <= j < run.len() - 1 ==> dag_step(#[trigger] run[j].entries(), run[j + 1].entries()),
        0 <= a < i < run.len(),
        0 <= k < run[a].entries().len(),
        handed_out_between(run[a].entries(), run[a + 1].entries(), k),
    ensures
        run[i].entries().len() == run[a].entries().len(),
        past_pending(run[i].entries()[k].1),
    decreases i - a,
{
    if i == a + 1 {
        assert(dag_step(run[a].entries(), run[a + 1].entries()));
        run[a].lemma_step_keeps_len(run[a + 1].entries());
    } else {
        lemma_stays_past_pending(run, a, i - 1, k);
        assert(dag_step(run[i - 1].entries(), run[i].entries()));
        run[i - 1].lemma_step_keeps_past_pending(run[i].entries(), k);
    }
}

/// No job is handed out twice in a run of a Dag, whose every state comes
/// from the one before by a `poll` or by a `record_event` of a started job:
/// a job handed out at step `a` is not handed out at any later step `b`.
pub proof fn lemma_never_handed_out_twice(run: Seq<Dag>, a: int, b: int, k: int)
    requires
        forall|j: int| 0 <= j < run.len() ==> (#[trigger] run[j]).wf(),
        forall|j: int| 0 <= j < run.len() - 1 ==> dag_step(#[trigger] run[j].entries(), run[j + 1].entries()),
        0 <= a < b < run.len() - 1,
        0 <= k < run[a].entries().len(),
        handed_out_between(run[a].entries(), run[a + 1].entries(), k),
    ensures
        !handed_out_between(run[b].entries(), run[b + 1].entries(), k),
{
    lemma_stays_past_pending(run, a, b, k);
}

/// Before any job is handed out, each job that `enumerate` lists of a new
/// Dag (whose jobs are as `Dag::new` sets them up) is pending when no job
/// blocks it and blocked otherwise, and lists every job that blocks it, in
/// ascending order.
pub proof fn lemma_new_dag_enumeration(
    jobs: Seq<Job>,
    cs: Seq<(Seq<char>, Seq<char>)>,
    env_keys: Seq<Seq<char>>,
    entries: Seq<WatcherView>,
    listed: Seq<EnumerationView>,
)
    requires
        forall|k: int| 0 <= k < entries.len() ==> initial_watcher(jobs, cs, env_keys, job_names(jobs), #[trigger] entries[k]),
        same_jobs(listed, entries),
    ensures
        forall|i: int| 0 <= i < listed.len() ==> {
            &&& (#[trigger] listed[i]).1 == if listed[i].2.len() == 0 { JobStateView::Pending } else { JobStateView::Blocked }
            &&& crate::names::strictly_ascending(listed[i].2)
            &&& listed[i].2.to_set() == reachable(blocked_by_graph(job_names(jobs), cs), listed[i].0)
        },
{
    assert forall|i: int| 0 <= i < listed.len() implies {
        &&& (#[trigger] listed[i]).1 == if listed[i].2.len() == 0 { JobStateView::Pending } else { JobStateView::Blocked }
        &&& crate::names::strictly_ascending(listed[i].2)
        &&& listed[i].2.to_set() == reachable(blocked_by_graph(job_names(jobs), cs), listed[i].0)
    } by {
        assert(is_query_of_some(listed[i], entries));
        let m = choose|m: int| 0 <= m < entries.len() && listed[i] == enumeration_of(#[trigger] entries[m]);
        assert(initial_watcher(jobs, cs, env_keys, job_names(jobs), entries[m]));
    }
}

} // verus!

verus! {

impl Dag {
    /// Whether the job named `name` has been handed out and has not ended.
    pub fn is_started(&self, name: &str) -> (r: bool)
        requires
            self.wf(),
        ensures
            r == (watcher_names(self.entries()).contains(name@) && state_named(self.entries(), name@) is Started),
    {
        match self.find(name) {
            Some(i) => {
                proof {
                    lemma_name_index(self.entries(), i as int);
                }
                matches!(self.all_jobs[i].state, JobState::Started)
            },
            None => false,
        }
    }
}

} // verus!

verus! {

/// No job has failed.
pub open spec fn no_failure(e: Seq<WatcherView>) -> bool {
    forall|i: int| 0 <= i < e.len() ==> (#[trigger] e[i]).1 != JobStateView::Terminated(JobResult::Failure)
}

/// What keeps a run going: no job blocks itself; a job blocks every job that
/// a job it blocks blocks; a blocked job waits on some job; and, while no job
/// has failed, no job is cancelled and each job that a blocked job waits on
/// blocks it and has not succeeded.
pub closed spec fn progress_ok(e: Seq<WatcherView>) -> bool {
    let n = watcher_names(e);
    &&& forall|i: int| 0 <= i < e.len() ==> !(#[trigger] e[i]).2.contains(e[i].0.0)
    &&& forall|i: int, j: int, x: Seq<char>| 0 <= i < e.len() && 0 <= j < e.len() && #[trigger] e[i].2.contains(
        #[trigger] n[j]) && #[trigger] e[j].2.contains(x) ==> e[i].2.contains(x)
    &&& forall|i: int| 0 <= i < e.len() && (#[trigger] e[i]).1 is Blocked ==> e[i].3.len() > 0
    &&& no_failure(e) ==> forall|i: int| 0 <= i < e.len() ==> !((#[trigger] e[i]).1 is Cancelled)
    &&& no_failure(e) ==> forall|b: int, x: Seq<char>| 0 <= b < e.len() && (#[trigger] e[b]).1 is Blocked
        && #[trigger] e[b].3.contains(x) ==> exists|i: int| 0 <= i < e.len() && #[trigger] n[i] == x
            && e[i].2.contains(n[b]) && e[i].1 != JobStateView::Terminated(JobResult::Success)
}

/// When nothing runs or is pending and no job has failed, a blocked job
/// waits on a blocked job that blocks strictly more jobs.
proof fn lemma_larger_blocker(e: Seq<WatcherView>, b: int)
    requires
        links_ok(e),
        progress_ok(e),
        no_failure(e),
        forall|i: int| 0 <= i < e.len() ==> !((#[trigger] e[i]).1 is Started),
        !has_pending(e),
        0 <= b < e.len(),
        e[b].1 is Blocked,
    ensures
        exists|i: int| 0 <= i < e.len() && (#[trigger] e[i]).1 is Blocked && e[i].2.to_set().len() > e[b].2.to_set().len(),
{
    let n = watcher_names(e);
    let x = e[b].3[0];
    assert(e[b].3.contains(x));
    let i = choose|i: int| 0 <= i < e.len() && #[trigger] n[i] == x && e[i].2.contains(n[b])
        && e[i].1 != JobStateView::Terminated(JobResult::Success);
    assert(!(e[i].1 is Cancelled));
    assert(!(e[i].1 is Started));
    if e[i].1 is Pending {
        assert(has_pending(e));
    }
    assert(e[i].1 != JobStateView::Terminated(JobResult::Failure));
    assert(e[i].1 is Blocked);
    let small = e[b].2.to_set();
    let big = e[i].2.to_set();
    assert(n[b] == e[b].0.0);
    assert(!e[b].2.contains(e[b].0.0));
    assert forall|y: Seq<char>| small.insert(n[b]).contains(y) implies big.contains(y) by {
        if y != n[b] {
            assert(e[b].2.contains(y));
            assert(e[i].2.contains(y));
        }
    }
    vstd::seq_lib::seq_to_set_is_finite(e[b].2);
    vstd::seq_lib::seq_to_set_is_finite(e[i].2);
    vstd::set_lib::lemma_len_subset(small.insert(n[b]), big);
}

/// The jobs that a job blocks are no more than the jobs.
proof fn lemma_blocks_bounded(e: Seq<WatcherView>, i: int)
    requires
        links_ok(e),
        0 <= i < e.len(),
    ensures
        e[i].2.to_set().len() <= e.len(),
{
    let n = watcher_names(e);
    assert forall|y: Seq<char>| e[i].2.to_set().contains(y) implies n.to_set().contains(y) by {
        assert(e[i].2.contains(y));
    }
    vstd::seq_lib::seq_to_set_is_finite(n);
    vstd::set_lib::lemma_len_subset(e[i].2.to_set(), n.to_set());
    n.lemma_cardinality_of_set();
}

/// Under the same conditions, some blocked job blocks at least `m` jobs.
proof fn lemma_growing_blockers(e: Seq<WatcherView>, b: int, m: nat)
    requires
        links_ok(e),
        progress_ok(e),
        no_failure(e),
        forall|i: int| 0 <= i < e.len() ==> !((#[trigger] e[i]).1 is Started),
        !has_pending(e),
        0 <= b < e.len(),
        e[b].1 is Blocked,
    ensures
        exists|i: int| 0 <= i < e.len() && (#[trigger] e[i]).1 is Blocked && e[i].2.to_set().len() >= m,
    decreases m,
{
    if m > 0 {
        lemma_growing_blockers(e, b, (m - 1) as nat);
        let k = choose|i: int| 0 <= i < e.len() && (#[trigger] e[i]).1 is Blocked && e[i].2.to_set().len() >= m - 1;
        lemma_larger_blocker(e, k);
    }
}

/// While no job has failed, a run whose jobs do not all have an end and
/// none of which runs has a pending job.
proof fn lemma_progress_pending(e: Seq<WatcherView>)
    requires
        links_ok(e),
        progress_ok(e),
        no_failure(e),
        forall|i: int| 0 <= i < e.len() ==> !((#[trigger] e[i]).1 is Started),
        exists|i: int| 0 <= i < e.len() && (#[trigger] e[i]).1.unresolved(),
    ensures
        has_pending(e),
{
    if !has_pending(e) {
        let b = choose|i: int| 0 <= i < e.len() && (#[trigger] e[i]).1.unresolved();
        assert(e[b].1 is Blocked);
        lemma_growing_blockers(e, b, (e.len() + 1) as nat);
        let k = choose|i: int| 0 <= i < e.len() && (#[trigger] e[i]).1 is Blocked && e[i].2.to_set().len() >= e.len() + 1;
        lemma_blocks_bounded(e, k);
    }
}

/// Handing out a pending job keeps what keeps a run going.
proof fn lemma_progress_poll(e: Seq<WatcherView>, i: int)
    requires
        progress_ok(e),
        0 <= i < e.len(),
        e[i].1 is Pending,
    ensures
        progress_ok(e.update(i, (e[i].0, JobStateView::Started, e[i].2, e[i].3))),
{
    let e2 = e.update(i, (e[i].0, JobStateView::Started, e[i].2, e[i].3));
    let n = watcher_names(e);
    assert(watcher_names(e2) =~= n);
    assert forall|k: int| 0 <= k < e2.len() implies e2[k].2 == e[k].2 && e2[k].0 == e[k].0 && e2[k].3 == e[k].3 by {}
    assert(no_failure(e2) == no_failure(e)) by {
        if no_failure(e) {
            assert forall|k: int| 0 <= k < e2.len() implies (#[trigger] e2[k]).1 != JobStateView::Terminated(JobResult::Failure) by {
                if k != i {
                    assert(e2[k] == e[k]);
                }
            }
        } else {
            let k = choose|k: int| 0 <= k < e.len() && !((#[trigger] e[k]).1 != JobStateView::Terminated(JobResult::Failure));
            assert(e2[k] == e[k]);
        }
    }
    if no_failure(e2) {
        assert forall|b: int, x: Seq<char>| 0 <= b < e2.len() && (#[trigger] e2[b]).1 is Blocked && #[trigger] e2[b].3.contains(x)
            implies exists|k: int| 0 <= k < e2.len() && #[trigger] watcher_names(e2)[k] == x && e2[k].2.contains(watcher_names(e2)[b])
                && e2[k].1 != JobStateView::Terminated(JobResult::Success) by {
            assert(b != i);
            assert(e2[b] == e[b]);
            let k = choose|k: int| 0 <= k < e.len() && #[trigger] n[k] == x && e[k].2.contains(n[b])
                && e[k].1 != JobStateView::Terminated(JobResult::Success);
            assert(watcher_names(e2)[k] == x);
        }
        assert forall|k: int| 0 <= k < e2.len() implies !((#[trigger] e2[k]).1 is Cancelled) by {
            if k != i {
                assert(e2[k] == e[k]);
            }
        }
    }
    assert forall|k: int| 0 <= k < e2.len() && (#[trigger] e2[k]).1 is Blocked implies e2[k].3.len() > 0 by {
        assert(k != i);
        assert(e2[k] == e[k]);
    }
    assert forall|a: int, j: int, x: Seq<char>| 0 <= a < e2.len() && 0 <= j < e2.len() && #[trigger] e2[a].2.contains(
        #[trigger] watcher_names(e2)[j]) && #[trigger] e2[j].2.contains(x) implies e2[a].2.contains(x) by {
        assert(e[a].2.contains(n[j]));
        assert(e[j].2.contains(x));
    }
    assert forall|k: int| 0 <= k < e2.len() implies !(#[trigger] e2[k]).2.contains(e2[k].0.0) by {
        assert(!e[k].2.contains(e[k].0.0));
    }
}

/// No job is released short of the end when none of them is cancelled.
proof fn lemma_unlock_full(e: Seq<WatcherView>, b: Seq<Seq<char>>)
    requires
        forall|m: int| 0 <= m < b.len() ==> !(state_named(e, #[trigger] b[m]) is Cancelled),
    ensures
        unlock_stop(e, b) == b.len(),
    decreases b.len(),
{
    if b.len() > 0 {
        assert(!(state_named(e, b[0]) is Cancelled));
        assert forall|m: int| 0 <= m < b.drop_first().len() implies !(state_named(e, #[trigger] b.drop_first()[m]) is Cancelled) by {
            assert(b.drop_first()[m] == b[m + 1]);
        }
        lemma_unlock_full(e, b.drop_first());
    }
}

/// The end of a job that was handed out keeps what keeps a run going.
proof fn lemma_progress_event(e: Seq<WatcherView>, job: Seq<char>, result: JobResult)
    requires
        links_ok(e),
        progress_ok(e),
        watcher_names(e).contains(job),
        state_named(e, job) is Started,
    ensures
        progress_ok(after_event(e, job, result)),
{
    let n = watcher_names(e);
    let j0 = choose|j: int| 0 <= j < n.len() && n[j] == job;
    assert(e[j0].0.0 == job);
    lemma_name_index(e, j0);
    let i = name_index(e, job);
    let b = e[i].2;
    let e1 = e.update(i, with_state(e[i], JobStateView::Terminated(result)));
    let e2 = after_event(e, job, result);
    assert(!b.contains(job)) by {
        assert(!e[i].2.contains(e[i].0.0));
    }
    assert(watcher_names(e1) =~= n);
    let d = match result {
        JobResult::Failure => b,
        JobResult::Success => b.take(unlock_stop(e1, b)),
    };
    lemma_unlock_stop_bounds(e1, b);
    assert forall|x: Seq<char>| d.contains(x) implies b.contains(x) by {
        if result is Success {
            let m = choose|m: int| 0 <= m < d.len() && d[m] == x;
            assert(b[m] == x);
        }
    }
    assert(e2.len() == e.len());
    assert forall|k: int| 0 <= k < e2.len() implies (#[trigger] e2[k]).0 == e[k].0 && e2[k].2 == e[k].2
        && (!d.contains(e[k].0.0) && k != i ==> e2[k] == e[k]) by {
        if result is Failure {
            assert(e2 == cancel_all(e1, b, job));
        } else {
            assert(e2 == unlock_all(e1, d, job));
        }
    }
    assert(watcher_names(e2) =~= n);
    assert(e2[i].1 == JobStateView::Terminated(result)) by {
        assert(!d.contains(e[i].0.0));
        if result is Failure {
            assert(e2 == cancel_all(e1, b, job));
        } else {
            assert(e2 == unlock_all(e1, d, job));
        }
    }
    // The jobs of `d` follow the job that ended: blocked or cancelled before.
    assert forall|k: int| 0 <= k < e.len() && d.contains(#[trigger] e[k].0.0) implies
        (e[k].1 is Blocked || e[k].1 is Cancelled) && k != i by {
        assert(b.contains(e[k].0.0));
        lemma_started_successors(e, i, k);
    }
    // A job blocks no more and no less than before.
    assert forall|k: int| 0 <= k < e2.len() implies !(#[trigger] e2[k]).2.contains(e2[k].0.0) by {
        assert(!e[k].2.contains(e[k].0.0));
    }
    assert forall|a: int, j: int, x: Seq<char>| 0 <= a < e2.len() && 0 <= j < e2.len() && #[trigger] e2[a].2.contains(
        #[trigger] watcher_names(e2)[j]) && #[trigger] e2[j].2.contains(x) implies e2[a].2.contains(x) by {
        assert(e[a].2.contains(n[j]));
        assert(e[j].2.contains(x));
    }
    // A blocked job still waits on some job.
    assert forall|k: int| 0 <= k < e2.len() && (#[trigger] e2[k]).1 is Blocked implies e2[k].3.len() > 0 by {
        if k == i {
        } else if d.contains(e[k].0.0) {
            if result is Failure {
                assert(e2 == cancel_all(e1, b, job));
            } else {
                assert(e2 == unlock_all(e1, d, job));
                assert(e1[k] == e[k]);
            }
        } else {
            assert(e2[k] == e[k]);
        }
    }
    if result is Failure {
        assert(!no_failure(e2));
    } else {
        assert(e2 == unlock_all(e1, d, job));
        if !no_failure(e) {
            let f = choose|f: int| 0 <= f < e.len() && !((#[trigger] e[f]).1 != JobStateView::Terminated(JobResult::Failure));
            assert(f != i);
            if d.contains(e[f].0.0) {
            }
            assert(e2[f] == e[f]);
            assert(!no_failure(e2));
        } else {
            // No job is cancelled, so every job that the ended job blocks is released.
            assert forall|m: int| 0 <= m < b.len() implies !(state_named(e1, #[trigger] b[m]) is Cancelled) by {
                assert(e[i].2.contains(b[m]));
                assert(n.contains(b[m]));
                let q = choose|q: int| 0 <= q < n.len() && n[q] == b[m];
                assert(watcher_names(e1)[q] == b[m]);
                lemma_name_index(e1, q);
                if q != i {
                    assert(e1[q] == e[q]);
                }
            }
            lemma_unlock_full(e1, b);
            assert(d =~= b);
            assert forall|k: int| 0 <= k < e2.len() implies (#[trigger] e2[k]).1 != JobStateView::Terminated(JobResult::Failure)
                && !(e2[k].1 is Cancelled) by {
                if k != i && d.contains(e[k].0.0) {
                    assert(e1[k] == e[k]);
                } else if k != i {
                    assert(e2[k] == e[k]);
                }
            }
            assert(no_failure(e2));
            assert forall|bb: int, x: Seq<char>| 0 <= bb < e2.len() && (#[trigger] e2[bb]).1 is Blocked && #[trigger] e2[bb].3.contains(x)
                implies exists|k: int| 0 <= k < e2.len() && #[trigger] watcher_names(e2)[k] == x && e2[k].2.contains(watcher_names(e2)[bb])
                    && e2[k].1 != JobStateView::Terminated(JobResult::Success) by {
                assert(bb != i);
                let was_released = d.contains(e[bb].0.0);
                if was_released {
                    assert(e1[bb] == e[bb]);
                    assert(e2[bb].3 == e[bb].3.filter(other_than(job)));
                    assert(e2[bb].1 == e[bb].1);
                    assert(e[bb].3.filter(other_than(job)).contains(x));
                    e[bb].3.lemma_filter_contains_rev(other_than(job), x);
                    e[bb].3.filter_lemma(other_than(job));
                    let t = choose|t: int| 0 <= t < e[bb].3.filter(other_than(job)).len() && e[bb].3.filter(other_than(job))[t] == x;
                    assert(other_than(job)(e[bb].3.filter(other_than(job))[t]));
                    assert(x != job);
                } else {
                    assert(e2[bb] == e[bb]);
                }
                assert(e[bb].1 is Blocked && e[bb].3.contains(x));
                let k = choose|k: int| 0 <= k < e.len() && #[trigger] n[k] == x && e[k].2.contains(n[bb])
                    && e[k].1 != JobStateView::Terminated(JobResult::Success);
                if k == i {
                    assert(b.contains(n[bb]));
                    assert(!was_released);
                    assert(x == job);
                    assert(false);
                }
                assert(watcher_names(e2)[k] == x);
                if d.contains(e[k].0.0) {
                    assert(e1[k] == e[k]);
                } else {
                    assert(e2[k] == e[k]);
                }
            }
        }
    }
}

/// A job that blocks itself is found by the search for the first one.
proof fn lemma_cycle_found(names: Seq<Seq<char>>, cs: Seq<(Seq<char>, Seq<char>)>, k: int, j: int)
    requires
        0 <= k <= j < names.len(),
        in_cycle(names, cs, names[j]),
    ensures
        first_cycle_from(names, cs, k) is Some,
    decreases j - k,
{
    if !in_cycle(names, cs, names[k]) {
        lemma_cycle_found(names, cs, k + 1, j);
    }
}

/// The jobs of a run that starts keep it going: the jobs each job blocks
/// are those it reaches, which never include itself, and the jobs that a job
/// waits on are those that reach it.
proof fn lemma_progress_initial(
    jobs: Seq<Job>,
    cs: Seq<(Seq<char>, Seq<char>)>,
    env_keys: Seq<Seq<char>>,
    e: Seq<WatcherView>,
)
    requires
        forall|c: int| 0 <= c < cs.len() ==> constraint_fault(job_names(jobs), #[trigger] cs[c]) is None,
        first_cycle(job_names(jobs), cs) is None,
        forall|x: Seq<char>| watcher_names(e).contains(x) <==> job_names(jobs).contains(x),
        forall|k: int| 0 <= k < e.len() ==> initial_watcher(jobs, cs, env_keys, job_names(jobs), #[trigger] e[k]),
    ensures
        progress_ok(e),
{
    let names = job_names(jobs);
    let n = watcher_names(e);
    let g = blocks_graph(names, cs);
    let h = blocked_by_graph(names, cs);
    assert forall|k: int| 0 <= k < e.len() implies (#[trigger] e[k]).1 is Pending || e[k].1 is Blocked by {
        assert(initial_watcher(jobs, cs, env_keys, names, e[k]));
    }
    assert forall|i: int| 0 <= i < e.len() implies !(#[trigger] e[i]).2.contains(e[i].0.0) by {
        assert(initial_watcher(jobs, cs, env_keys, names, e[i]));
        if e[i].2.contains(e[i].0.0) {
            assert(e[i].2.to_set().contains(e[i].0.0));
            assert(reaches(g, e[i].0.0, e[i].0.0));
            lemma_transpose(names, cs, e[i].0.0, e[i].0.0);
            assert(n[i] == e[i].0.0);
            assert(names.contains(e[i].0.0));
            let q = choose|q: int| 0 <= q < names.len() && names[q] == e[i].0.0;
            lemma_cycle_found(names, cs, 0, q);
        }
    }
    assert forall|i: int, j: int, x: Seq<char>| 0 <= i < e.len() && 0 <= j < e.len() && #[trigger] e[i].2.contains(
        #[trigger] n[j]) && #[trigger] e[j].2.contains(x) implies e[i].2.contains(x) by {
        assert(initial_watcher(jobs, cs, env_keys, names, e[i]));
        assert(initial_watcher(jobs, cs, env_keys, names, e[j]));
        assert(e[i].2.to_set().contains(n[j]));
        assert(e[j].2.to_set().contains(x));
        let a = e[i].0.0;
        let s = reachable(g, a);
        assert(reaches(g, a, n[j]));
        assert(reaches(g, e[j].0.0, x));
        assert forall|u: Seq<char>, v: Seq<char>| (u == n[j] || s.contains(u)) && g.contains_key(u) && #[trigger] g[u].contains(v)
            implies s.contains(v) by {
            lemma_reaches_extend(g, a, u, v);
        }
        lemma_reachable_within(g, n[j], s, x);
        assert(e[i].2.to_set().contains(x));
    }
    assert forall|i: int| 0 <= i < e.len() && (#[trigger] e[i]).1 is Blocked implies e[i].3.len() > 0 by {
        assert(initial_watcher(jobs, cs, env_keys, names, e[i]));
    }
    assert forall|bb: int, x: Seq<char>| 0 <= bb < e.len() && (#[trigger] e[bb]).1 is Blocked && #[trigger] e[bb].3.contains(x)
        implies exists|k: int| 0 <= k < e.len() && #[trigger] n[k] == x && e[k].2.contains(n[bb])
            && e[k].1 != JobStateView::Terminated(JobResult::Success) by {
        assert(initial_watcher(jobs, cs, env_keys, names, e[bb]));
        assert(e[bb].3.to_set().contains(x));
        assert(reaches(h, e[bb].0.0, x));
        lemma_transpose_back(names, cs, x, e[bb].0.0);
        let p = choose|p: Seq<Seq<char>>| #[trigger] is_path(g, p) && p.len() >= 2 && p[0] == x && p.last() == e[bb].0.0;
        assert(g.contains_key(p[0]));
        assert(names.contains(x));
        assert(n.contains(x));
        let k = choose|k: int| 0 <= k < n.len() && n[k] == x;
        assert(initial_watcher(jobs, cs, env_keys, names, e[k]));
        assert(e[k].0.0 == x);
        assert(reachable(g, x).contains(e[bb].0.0));
        assert(e[k].2.to_set().contains(e[bb].0.0));
        assert(e[k].2.contains(n[bb]));
    }
}

} // verus!
