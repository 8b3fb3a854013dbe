//! The constraints between the jobs of a run, checked, and the jobs that each
//! job blocks or is blocked by, directly or through other jobs.
use vstd::prelude::*;
use crate::ci::job::Job;
use crate::ci::job::dag::{
    Constraint, ConstraintTable, Error, ErrorView, constraint_fault, constraint_views, first_fault,
    lemma_first_fault, lemma_first_fault_prefix,
};
use crate::graph::{Graph, NameGraph, closed_graph, reachable, reachable_names};
use crate::names::{names_view, strictly_ascending};

verus! {

/// The names of the jobs, in order.
pub open spec fn job_names(jobs: Seq<Job>) -> Seq<Seq<char>> {
    jobs.map_values(|j: Job| j.name_view())
}

/// Each job with the jobs that the constraints say it blocks.
pub open spec fn blocks_graph(names: Seq<Seq<char>>, cs: Seq<(Seq<char>, Seq<char>)>) -> Graph {
    Map::new(
        |k: Seq<char>| names.contains(k),
        |k: Seq<char>| Set::new(|b: Seq<char>| cs.contains((k, b))),
    )
}

/// Each job with the jobs that the constraints say block it.
pub open spec fn blocked_by_graph(names: Seq<Seq<char>>, cs: Seq<(Seq<char>, Seq<char>)>) -> Graph {
    Map::new(
        |k: Seq<char>| names.contains(k),
        |k: Seq<char>| Set::new(|a: Seq<char>| cs.contains((a, k))),
    )
}

/// The table of every ordered pair of the names: a name is free of itself and
/// indifferent to the others.
pub open spec fn initial_table(names: Seq<Seq<char>>) -> Map<(Seq<char>, Seq<char>), Constraint> {
    Map::new(
        |k: (Seq<char>, Seq<char>)| names.contains(k.0) && names.contains(k.1),
        |k: (Seq<char>, Seq<char>)| if k.0 == k.1 { Constraint::Free } else { Constraint::Indifferent },
    )
}

/// The table of the pairs of `names` once each constraint of `cs` has blocked its pair.
pub open spec fn constrained_table(names: Seq<Seq<char>>, cs: Seq<(Seq<char>, Seq<char>)>) -> Map<(Seq<char>, Seq<char>), Constraint>
    decreases cs.len(),
{
    if cs.len() == 0 {
        initial_table(names)
    } else {
        let t = constrained_table(names, cs.drop_last());
        let c = cs.last();
        if t.contains_key(c) {
            match t[c] {
                Constraint::Free => t,
                Constraint::Indifferent => t.insert(c, Constraint::Blocked(1)),
                Constraint::Blocked(n) => t.insert(c, Constraint::Blocked((n + 1) as usize)),
            }
        } else {
            t
        }
    }
}

/// The first `p + 1` names hold `x` when the first `p` do or `x` is the next.
pub proof fn lemma_take_push_contains(s: Seq<Seq<char>>, p: int, x: Seq<char>)
    requires
        0 <= p < s.len(),
    ensures
        s.take(p + 1).contains(x) == (s.take(p).contains(x) || x == s[p]),
{
    if s.take(p + 1).contains(x) {
        let tp = s.take(p + 1);
        let j = choose|j: int| 0 <= j < tp.len() && tp[j] == x;
        if j < p {
            assert(s.take(p)[j] == x);
        }
    }
    if s.take(p).contains(x) {
        let tq = s.take(p);
        let j = choose|j: int| 0 <= j < tq.len() && tq[j] == x;
        assert(s.take(p + 1)[j] == x);
    }
    if x == s[p] {
        assert(s.take(p + 1)[p] == x);
    }
}

/// The table of every pair of the jobs' names.
pub fn pair_table(jobs: &[Job]) -> (r: ConstraintTable)
    ensures
        r.wf(),
        r.table() == initial_table(job_names(jobs@)),
{
    let ghost names = job_names(jobs@);
    let mut table = ConstraintTable::new();
    let mut o: usize = 0;
    while o < jobs.len()
        invariant
            o <= jobs.len(),
            names == job_names(jobs@),
            table.wf(),
            table.table() == Map::new(
                |k: (Seq<char>, Seq<char>)| names.take(o as int).contains(k.0) && names.contains(k.1),
                |k: (Seq<char>, Seq<char>)| if k.0 == k.1 { Constraint::Free } else { Constraint::Indifferent },
            ),
        decreases jobs.len() - o,
    {
        let mut p: usize = 0;
        while p < jobs.len()
            invariant
                o < jobs.len(),
                p <= jobs.len(),
                names == job_names(jobs@),
                table.wf(),
                table.table() == Map::new(
                    |k: (Seq<char>, Seq<char>)| (names.take(o as int).contains(k.0) && names.contains(k.1))
                        || (k.0 == names[o as int] && names.take(p as int).contains(k.1)),
                    |k: (Seq<char>, Seq<char>)| if k.0 == k.1 { Constraint::Free } else { Constraint::Indifferent },
                ),
            decreases jobs.len() - p,
        {
            let outer = jobs[o].name();
            let inner = jobs[p].name();
            let c = if crate::text::str_eq(outer, inner) {
                Constraint::Free
            } else {
                Constraint::Indifferent
            };
            let ghost before = table.table();
            table.set(outer, inner, c);
            proof {
                assert(names[o as int] == outer@);
                assert(names[p as int] == inner@);
                assert(names.take(p + 1) =~= names.take(p as int).push(inner@));
                let m = Map::new(
                    |k: (Seq<char>, Seq<char>)| (names.take(o as int).contains(k.0) && names.contains(k.1))
                        || (k.0 == names[o as int] && names.take(p + 1).contains(k.1)),
                    |k: (Seq<char>, Seq<char>)| if k.0 == k.1 { Constraint::Free } else { Constraint::Indifferent },
                );
                assert forall|k: (Seq<char>, Seq<char>)| m.dom().contains(k) implies names.contains(k.1) by {
                    if k.0 == names[o as int] && names.take(p + 1).contains(k.1) {
                        let tp = names.take(p + 1);
                        let j = choose|j: int| 0 <= j < tp.len() && tp[j] == k.1;
                        assert(names[j] == k.1);
                    }
                }
                assert forall|k: (Seq<char>, Seq<char>)| table.table().dom().contains(k) <==> m.dom().contains(k) by {
                    let in_before = (names.take(o as int).contains(k.0) && names.contains(k.1))
                        || (k.0 == names[o as int] && names.take(p as int).contains(k.1));
                    assert(before.dom().contains(k) == in_before);
                    assert(table.table().dom().contains(k) == (in_before || k == (outer@, inner@)));
                    lemma_take_push_contains(names, p as int, k.1);
                    if k == (outer@, inner@) {
                        assert(names.contains(inner@));
                    }
                }
                assert forall|k: (Seq<char>, Seq<char>)| #[trigger] m.dom().contains(k) implies table.table()[k] == m[k] by {
                    if k != (outer@, inner@) {
                        assert(before.dom().contains(k));
                    }
                }
                assert(table.table() =~= m);
            }
            p = p + 1;
        }
        proof {
            assert(names.take(o + 1) =~= names.take(o as int).push(names[o as int]));
            assert(names.take(jobs.len() as int) =~= names);
            let m = Map::new(
                |k: (Seq<char>, Seq<char>)| names.take(o + 1).contains(k.0) && names.contains(k.1),
                |k: (Seq<char>, Seq<char>)| if k.0 == k.1 { Constraint::Free } else { Constraint::Indifferent },
            );
            assert(table.table() =~= m);
        }
        o = o + 1;
    }
    proof {
        assert(names.take(jobs.len() as int) =~= names);
        assert(table.table() =~= initial_table(names));
    }
    table
}

/// In a table built from valid constraints, a pair is free only when it is a
/// name with itself, and it is blocked no more times than there were constraints.
pub open spec fn table_bounded(t: Map<(Seq<char>, Seq<char>), Constraint>, bound: nat) -> bool {
    forall|k: (Seq<char>, Seq<char>)| #[trigger] t.contains_key(k) ==> {
        &&& (t[k] is Free <==> k.0 == k.1)
        &&& (t[k] matches Constraint::Blocked(n) ==> n <= bound)
    }
}

/// Blocks the pair of each constraint in the table; none of them fails when
/// every constraint is valid.
pub fn apply_constraints(table: &mut ConstraintTable, constraints: &[(String, String)], Ghost(names): Ghost<Seq<Seq<char>>>)
    requires
        old(table).wf(),
        old(table).table() == initial_table(names),
        forall|i: int| 0 <= i < constraints@.len() ==> constraint_fault(names, #[trigger] constraint_views(constraints@)[i]) is None,
    ensures
        final(table).wf(),
        final(table).table() == constrained_table(names, constraint_views(constraints@)),
{
    let ghost cs = constraint_views(constraints@);
    let mut i: usize = 0;
    proof {
        assert(cs.take(0) =~= Seq::<(Seq<char>, Seq<char>)>::empty());
    }
    while i < constraints.len()
        invariant
            i <= constraints@.len(),
            cs == constraint_views(constraints@),
            forall|j: int| 0 <= j < constraints@.len() ==> constraint_fault(names, #[trigger] cs[j]) is None,
            table.wf(),
            table.table() == constrained_table(names, cs.take(i as int)),
            table_bounded(table.table(), i as nat),
        decreases constraints@.len() - i,
    {
        let ghost t = table.table();
        proof {
            assert(cs[i as int] == (constraints@[i as int].0@, constraints@[i as int].1@));
            assert(constraint_fault(names, cs[i as int]) is None);
            if t.contains_key(cs[i as int]) {
                assert(!(t[cs[i as int]] is Free));
            }
        }
        let r = table.constrain(constraints[i].0.as_str(), constraints[i].1.as_str());
        proof {
            assert(r is Ok);
            assert(cs.take(i + 1).drop_last() =~= cs.take(i as int));
            assert(cs.take(i + 1).last() == cs[i as int]);
            assert forall|k: (Seq<char>, Seq<char>)| #[trigger] table.table().contains_key(k) implies {
                &&& (table.table()[k] is Free <==> k.0 == k.1)
                &&& (table.table()[k] matches Constraint::Blocked(n) ==> n <= i + 1)
            } by {
                assert(t.contains_key(k));
            }
        }
        i = i + 1;
    }
    assert(cs.take(constraints@.len() as int) =~= cs);
}

/// The constraints between the jobs: which jobs each job blocks, and by which
/// jobs each job is blocked.
#[derive(Debug)]
pub struct ConstraintMatrix {
    blocked_by_jobs: NameGraph,
    blocks_jobs: NameGraph,
}


/// The jobs' names, in order.
pub fn names_of(jobs: &[Job]) -> (r: Vec<String>)
    ensures
        names_view(r@) == job_names(jobs@),
{
    let mut r: Vec<String> = Vec::new();
    let mut i: usize = 0;
    while i < jobs.len()
        invariant
            i <= jobs.len(),
            names_view(r@) == job_names(jobs@).take(i as int),
        decreases jobs.len() - i,
    {
        let ghost before = r@;
        r.push(jobs[i].name().to_owned());
        proof {
            assert(r@ =~= before.push(r@.last()));
            assert(names_view(r@) =~= names_view(before).push(jobs@[i as int].name_view()));
            assert(job_names(jobs@).take(i + 1) =~= job_names(jobs@).take(i as int).push(jobs@[i as int].name_view()));
        }
        i = i + 1;
    }
    assert(job_names(jobs@).take(jobs.len() as int) =~= job_names(jobs@));
    r
}

/// Whether `name` is one of `names`.
pub fn contains_name(names: &Vec<String>, name: &str) -> (r: bool)
    ensures
        r == names_view(names@).contains(name@),
{
    let mut i: usize = 0;
    while i < names.len()
        invariant
            i <= names.len(),
            forall|j: int| 0 <= j < i ==> names@[j]@ != name@,
        decreases names.len() - i,
    {
        if crate::text::str_eq(names[i].as_str(), name) {
            assert(names_view(names@)[i as int] == name@);
            return true;
        }
        i = i + 1;
    }
    false
}

/// The first fault among the constraints, checked in order, as an error.
pub fn check_constraints(names: &Vec<String>, constraints: &[(String, String)]) -> (r: Result<(), Error>)
    ensures
        match r {
            Ok(()) => first_fault(names_view(names@), constraint_views(constraints@)) is None,
            Err(e) => first_fault(names_view(names@), constraint_views(constraints@)) == Some(e@),
        },
{
    let ghost nv = names_view(names@);
    let ghost cs = constraint_views(constraints@);
    let mut i: usize = 0;
    assert(cs.take(0) =~= Seq::<(Seq<char>, Seq<char>)>::empty());
    while i < constraints.len()
        invariant
            i <= constraints@.len(),
            nv == names_view(names@),
            cs == constraint_views(constraints@),
            first_fault(nv, cs.take(i as int)) is None,
        decreases constraints@.len() - i,
    {
        let a = constraints[i].0.as_str();
        let b = constraints[i].1.as_str();
        proof {
            assert(cs[i as int] == (a@, b@));
            lemma_first_fault_prefix(nv, cs, i as int);
            lemma_first_fault(nv, cs.take(i + 1));
            lemma_first_fault(nv, cs);
            assert forall|j: int| 0 <= j < cs.take(i + 1).len() implies cs.take(i + 1)[j] == cs[j] by {}
        }
        if crate::text::str_eq(a, b) {
            proof {
                lemma_first_fault_prefix_whole(nv, cs, i as int);
            }
            return Err(Error::JobCannotBlockItself(constraints[i].1.clone()));
        }
        if !contains_name(names, a) {
            proof {
                lemma_first_fault_prefix_whole(nv, cs, i as int);
            }
            return Err(Error::UnknownJobInConstraint(constraints[i].0.clone()));
        }
        if !contains_name(names, b) {
            proof {
                lemma_first_fault_prefix_whole(nv, cs, i as int);
            }
            return Err(Error::UnknownJobInConstraint(constraints[i].1.clone()));
        }
        i = i + 1;
    }
    assert(cs.take(constraints@.len() as int) =~= cs);
    Ok(())
}

/// When the first constraints have no fault, the first fault of all of them is
/// that of the next one, if it has one.
proof fn lemma_first_fault_prefix_whole(names: Seq<Seq<char>>, cs: Seq<(Seq<char>, Seq<char>)>, i: int)
    requires
        0 <= i < cs.len(),
        first_fault(names, cs.take(i)) is None,
        constraint_fault(names, cs[i]) is Some,
    ensures
        first_fault(names, cs) == constraint_fault(names, cs[i]),
    decreases i,
{
    if i == 0 {
    } else {
        assert(cs.take(i)[0] == cs[0]);
        assert(cs.drop_first()[i - 1] == cs[i]);
        assert(cs.take(i).drop_first() =~= cs.drop_first().take(i - 1));
        lemma_first_fault_prefix_whole(names, cs.drop_first(), i - 1);
    }
}


/// The two graphs of the constraints: each job with the jobs it blocks, and
/// each job with the jobs that block it.
pub fn constraint_graphs(names: &Vec<String>, constraints: &[(String, String)]) -> (r: (NameGraph, NameGraph))
    requires
        forall|i: int| 0 <= i < constraints@.len() ==> constraint_fault(names_view(names@), #[trigger] constraint_views(constraints@)[i]) is None,
    ensures
        r.0.wf(),
        r.1.wf(),
        r.0.graph() == blocks_graph(names_view(names@), constraint_views(constraints@)),
        r.1.graph() == blocked_by_graph(names_view(names@), constraint_views(constraints@)),
{
    let ghost nv = names_view(names@);
    let ghost cs = constraint_views(constraints@);
    let mut blocks = NameGraph::new();
    let mut blocked_by = NameGraph::new();
    let mut o: usize = 0;
    proof {
        assert(blocks.graph() =~= Map::new(|k: Seq<char>| nv.take(0).contains(k), |k: Seq<char>| Set::<Seq<char>>::empty()));
    }
    while o < names.len()
        invariant
            o <= names.len(),
            nv == names_view(names@),
            blocks.wf(),
            blocked_by.wf(),
            blocks.graph() == Map::new(|k: Seq<char>| nv.take(o as int).contains(k), |k: Seq<char>| Set::<Seq<char>>::empty()),
            blocked_by.graph() == Map::new(|k: Seq<char>| nv.take(o as int).contains(k), |k: Seq<char>| Set::<Seq<char>>::empty()),
        decreases names.len() - o,
    {
        blocks.add_node(names[o].clone());
        blocked_by.add_node(names[o].clone());
        proof {
            assert(nv[o as int] == names@[o as int]@);
            assert forall|k: Seq<char>| nv.take(o + 1).contains(k) == (nv.take(o as int).contains(k) || k == nv[o as int]) by {
                lemma_take_push_contains(nv, o as int, k);
            }
            let m = Map::new(|k: Seq<char>| nv.take(o + 1).contains(k), |k: Seq<char>| Set::<Seq<char>>::empty());
            assert forall|k: Seq<char>| blocks.graph().dom().contains(k) == m.dom().contains(k)
                && blocked_by.graph().dom().contains(k) == m.dom().contains(k) by {
                lemma_take_push_contains(nv, o as int, k);
            }
            assert(blocks.graph().dom() =~= m.dom());
            assert(blocked_by.graph().dom() =~= m.dom());
            assert(blocks.graph() =~= m);
            assert(blocked_by.graph() =~= m);
        }
        o = o + 1;
    }
    let mut i: usize = 0;
    proof {
        assert(nv.take(names.len() as int) =~= nv);
        assert(cs.take(0) =~= Seq::<(Seq<char>, Seq<char>)>::empty());
        let e = cs.take(0);
        assert forall|k: Seq<char>| #[trigger] blocks.graph().contains_key(k) implies
            blocks.graph()[k] =~= blocks_graph(nv, e)[k] && blocked_by.graph()[k] =~= blocked_by_graph(nv, e)[k] by {
            assert forall|x: (Seq<char>, Seq<char>)| !e.contains(x) by {}
        }
        assert(blocks.graph().dom() =~= blocks_graph(nv, e).dom());
        assert(blocked_by.graph().dom() =~= blocked_by_graph(nv, e).dom());
        assert(blocks.graph() =~= blocks_graph(nv, e));
        assert(blocked_by.graph() =~= blocked_by_graph(nv, e));
    }
    while i < constraints.len()
        invariant
            i <= constraints@.len(),
            nv == names_view(names@),
            cs == constraint_views(constraints@),
            forall|j: int| 0 <= j < constraints@.len() ==> constraint_fault(nv, #[trigger] cs[j]) is None,
            blocks.wf(),
            blocked_by.wf(),
            blocks.graph() == blocks_graph(nv, cs.take(i as int)),
            blocked_by.graph() == blocked_by_graph(nv, cs.take(i as int)),
        decreases constraints@.len() - i,
    {
        let a = &constraints[i].0;
        let b = &constraints[i].1;
        proof {
            assert(cs[i as int] == (a@, b@));
            assert(constraint_fault(nv, cs[i as int]) is None);
        }
        blocks.add_edge(a.as_str(), b.clone());
        blocked_by.add_edge(b.as_str(), a.clone());
        proof {
            let t = cs.take(i + 1);
            assert forall|x: (Seq<char>, Seq<char>)| t.contains(x) == (cs.take(i as int).contains(x) || x == (a@, b@)) by {
                if t.contains(x) {
                    let j = choose|j: int| 0 <= j < t.len() && t[j] == x;
                    if j < i {
                        assert(cs.take(i as int)[j] == x);
                    }
                }
                if cs.take(i as int).contains(x) {
                    let tq = cs.take(i as int);
                    let j = choose|j: int| 0 <= j < tq.len() && tq[j] == x;
                    assert(t[j] == x);
                }
                if x == (a@, b@) {
                    assert(t[i as int] == x);
                }
            }
            let p = cs.take(i as int);
            assert(blocks.graph().dom() =~= blocks_graph(nv, t).dom());
            assert(blocked_by.graph().dom() =~= blocked_by_graph(nv, t).dom());
            assert forall|k: Seq<char>| #[trigger] blocks_graph(nv, t).contains_key(k) implies
                blocks.graph()[k] =~= blocks_graph(nv, t)[k] by {
                assert(blocks_graph(nv, p)[k] == Set::new(|y: Seq<char>| p.contains((k, y))));
            }
            assert forall|k: Seq<char>| #[trigger] blocked_by_graph(nv, t).contains_key(k) implies
                blocked_by.graph()[k] =~= blocked_by_graph(nv, t)[k] by {
                assert(blocked_by_graph(nv, p)[k] == Set::new(|y: Seq<char>| p.contains((y, k))));
            }
            assert(blocks.graph() =~= blocks_graph(nv, t));
            assert(blocked_by.graph() =~= blocked_by_graph(nv, t));
        }
        i = i + 1;
    }
    assert(cs.take(constraints@.len() as int) =~= cs);
    (blocks, blocked_by)
}

impl ConstraintMatrix {
    /// Each job with the jobs it blocks.
    pub closed spec fn blocks_view(&self) -> Graph {
        self.blocks_jobs.graph()
    }

    /// Each job with the jobs that block it.
    pub closed spec fn blocked_by_view(&self) -> Graph {
        self.blocked_by_jobs.graph()
    }

    /// Both graphs are well formed.
    pub closed spec fn wf(&self) -> bool {
        self.blocks_jobs.wf() && self.blocked_by_jobs.wf()
    }

    /// Checks the constraints against the jobs, in order, and tabulates them.
    /// A constraint fails when a job blocks itself or names a job that is not
    /// one of `jobs`.
    pub fn new(jobs: &[Job], constraints: &[(String, String)]) -> (r: Result<Self, Error>)
        ensures
            match r {
                Ok(m) => {
                    &&& first_fault(job_names(jobs@), constraint_views(constraints@)) is None
                    &&& m.wf()
                    &&& m.blocks_view() == blocks_graph(job_names(jobs@), constraint_views(constraints@))
                    &&& m.blocked_by_view() == blocked_by_graph(job_names(jobs@), constraint_views(constraints@))
                },
                Err(e) => first_fault(job_names(jobs@), constraint_views(constraints@)) == Some(e@),
            },
    {
        let names = names_of(jobs);
        let mut matrix = pair_table(jobs);
        check_constraints(&names, constraints)?;
        proof {
            lemma_first_fault(job_names(jobs@), constraint_views(constraints@));
        }
        apply_constraints(&mut matrix, constraints, Ghost(job_names(jobs@)));
        let (blocks_jobs, blocked_by_jobs) = constraint_graphs(&names, constraints);
        Ok(ConstraintMatrix { blocked_by_jobs, blocks_jobs })
    }

    /// The jobs that `link` blocks, directly or through other jobs, last first.
    pub fn blocked_by(&self, link: &str) -> (r: ConstraintIterator)
        requires
            self.wf(),
            self.blocks_view().contains_key(link@),
        ensures
            strictly_ascending(r.items()),
            r.items().to_set() == reachable(self.blocks_view(), link@),
    {
        ConstraintIterator::new(&self.blocks_jobs, link.to_owned())
    }

    /// The jobs that block `link`, directly or through other jobs, last first.
    pub fn blocking(&self, link: &str) -> (r: ConstraintIterator)
        requires
            self.wf(),
            self.blocked_by_view().contains_key(link@),
        ensures
            strictly_ascending(r.items()),
            r.items().to_set() == reachable(self.blocked_by_view(), link@),
    {
        ConstraintIterator::new(&self.blocked_by_jobs, link.to_owned())
    }
}

impl ConstraintMatrix {
    /// A job blocks another, directly or through other jobs, exactly when the
    /// other is blocked by it: the two graphs of a matrix mirror each other.
    pub proof fn lemma_graphs_mirror(&self, jobs: Seq<Job>, constraints: Seq<(String, String)>, a: Seq<char>, b: Seq<char>)
        requires
            first_fault(job_names(jobs), constraint_views(constraints)) is None,
            self.blocks_view() == blocks_graph(job_names(jobs), constraint_views(constraints)),
            self.blocked_by_view() == blocked_by_graph(job_names(jobs), constraint_views(constraints)),
        ensures
            reachable(self.blocks_view(), a).contains(b) <==> reachable(self.blocked_by_view(), b).contains(a),
    {
        let names = job_names(jobs);
        let cs = constraint_views(constraints);
        lemma_first_fault(names, cs);
        if reachable(self.blocks_view(), a).contains(b) {
            crate::ci::job::dag::lemma_transpose(names, cs, a, b);
        }
        if reachable(self.blocked_by_view(), b).contains(a) {
            crate::ci::job::dag::lemma_transpose_back(names, cs, a, b);
        }
    }
}

/// Names handed out one by one, from the last to the first.
#[derive(Debug)]
pub struct ConstraintIterator {
    proximity: Vec<String>,
}

impl ConstraintIterator {
    /// The names still to be handed out; the last comes first.
    pub closed spec fn items(&self) -> Seq<Seq<char>> {
        names_view(self.proximity@)
    }

    /// The names reachable in `cm` from `blocking`, in ascending order, so
    /// that they are handed out in descending order.
    pub fn new(cm: &NameGraph, blocking: String) -> (r: Self)
        requires
            cm.wf(),
            cm.graph().contains_key(blocking@),
        ensures
            strictly_ascending(r.items()),
            r.items().to_set() == reachable(cm.graph(), blocking@),
    {
        let accumulator = reachable_names(cm, blocking.as_str());
        let proximity = accumulator.to_vec();
        Self { proximity }
    }

    /// The next name, if any is left.
    pub fn next(&mut self) -> (r: Option<String>)
        ensures
            old(self).items().len() == 0 ==> r is None && final(self).items() == old(self).items(),
            old(self).items().len() > 0 ==> r is Some && r.unwrap()@ == old(self).items().last()
                && final(self).items() == old(self).items().drop_last(),
    {
        let r = self.proximity.pop();
        proof {
            if old(self).proximity@.len() > 0 {
                assert(self.proximity@ =~= old(self).proximity@.drop_last());
                assert(names_view(self.proximity@) =~= names_view(old(self).proximity@).drop_last());
            }
        }
        r
    }

    /// All the names that are left, in the order in which they would be handed out.
    pub fn into_vec(self) -> (r: Vec<String>)
        ensures
            names_view(r@) == self.items().reverse(),
    {
        let mut it = self;
        let mut r: Vec<String> = Vec::new();
        let ghost all = it.items();
        while it.proximity.len() > 0
            invariant
                all.len() == r@.len() + it.items().len(),
                it.items() == all.take(it.items().len() as int),
                names_view(r@) == all.reverse().take(r@.len() as int),
            decreases it.proximity.len(),
        {
            let ghost before = r@;
            let ghost left = it.items();
            let n = it.next().unwrap();
            r.push(n);
            proof {
                assert(names_view(r@) =~= names_view(before).push(left.last()));
                assert(left.last() == all[left.len() - 1]);
                assert(all.reverse()[before.len() as int] == all[all.len() - 1 - before.len()]);
                assert(all.reverse().take(r@.len() as int) =~= all.reverse().take(before.len() as int).push(all.reverse()[before.len() as int]));
                assert(it.items() =~= all.take(it.items().len() as int));
            }
        }
        assert(all.reverse().take(r@.len() as int) =~= all.reverse());
        r
    }
}

} // verus!
