//! The table of the constraints between jobs, with the jobs that each job
//! blocks and is blocked by, directly or through other jobs.
use vstd::prelude::*;
use crate::ci::job::Job;
use crate::ci::job::constraint_matrix::{
    apply_constraints, blocked_by_graph, blocks_graph, check_constraints, constrained_table,
    constraint_graphs, job_names, names_of, pair_table,
};
use crate::ci::job::dag::constraint_matrix_constraint_iterator::ConstraintMatrixConstraintIterator;
use crate::ci::job::dag::{
    Constraint, ConstraintTable, DagError, DagErrorView, Error, ErrorView, constraint_views, first_fault,
    lemma_first_fault,
};
use crate::graph::{Graph, NameGraph, reachable};
use crate::names::strictly_descending;

verus! {

/// The error of the table for a fault of the constraints.
pub open spec fn table_fault(f: ErrorView) -> DagErrorView {
    match f {
        ErrorView::JobCannotBlockItself(j) => DagErrorView::JobCannotBlockItself(j),
        ErrorView::UnknownJobInConstraint(j) => DagErrorView::UnknownJobInConstraint(j),
        ErrorView::CycleExistsBecauseOf(j) => DagErrorView::CycleExistsBetween(j, j),
    }
}

fn to_table_error(e: Error) -> (r: DagError)
    ensures
        r@ == table_fault(e@),
{
    match e {
        Error::JobCannotBlockItself(j) => DagError::JobCannotBlockItself(j),
        Error::UnknownJobInConstraint(j) => DagError::UnknownJobInConstraint(j),
        Error::CycleExistsBecauseOf(j) => DagError::CycleExistsBetween(j.clone(), j),
    }
}

/// The constraint of every ordered pair of jobs, and, for each job, the
/// jobs it blocks and the jobs that block it.
#[derive(Debug)]
pub struct ConstraintMatrix {
    matrix: ConstraintTable,
    blocked_by: NameGraph,
    blocking: NameGraph,
}

impl ConstraintMatrix {
    /// The constraint of each ordered pair of jobs.
    pub closed spec fn table(&self) -> Map<(Seq<char>, Seq<char>), Constraint> {
        self.matrix.table()
    }

    /// Each job with the jobs it blocks.
    pub closed spec fn blocks_view(&self) -> Graph {
        self.blocked_by.graph()
    }

    /// Each job with the jobs that block it.
    pub closed spec fn blocked_by_view(&self) -> Graph {
        self.blocking.graph()
    }

    /// The table and both graphs are well formed.
    pub closed spec fn wf(&self) -> bool {
        self.matrix.wf() && self.blocked_by.wf() && self.blocking.wf()
    }

    /// Checks the constraints against the jobs, in order (a job that blocks
    /// itself, then an unknown job), and tabulates them: a job is free of
    /// itself, indifferent to a job it does not block, and blocks a job as
    /// many times as the constraints say so.
    pub fn new(jobs: &[Job], constraints: &[(String, String)]) -> (r: Result<Self, DagError>)
        ensures
            match r {
                Ok(m) => {
                    &&& first_fault(job_names(jobs@), constraint_views(constraints@)) is None
                    &&& m.wf()
                    &&& m.table() == constrained_table(job_names(jobs@), constraint_views(constraints@))
                    &&& m.blocks_view() == blocks_graph(job_names(jobs@), constraint_views(constraints@))
                    &&& m.blocked_by_view() == blocked_by_graph(job_names(jobs@), constraint_views(constraints@))
                },
                Err(e) => first_fault(job_names(jobs@), constraint_views(constraints@)) is Some
                    && e@ == table_fault(first_fault(job_names(jobs@), constraint_views(constraints@)).unwrap()),
            },
    {
        let names = names_of(jobs);
        let mut matrix = pair_table(jobs);
        match check_constraints(&names, constraints) {
            Ok(()) => {},
            Err(e) => {
                return Err(to_table_error(e));
            },
        }
        proof {
            lemma_first_fault(job_names(jobs@), constraint_views(constraints@));
        }
        apply_constraints(&mut matrix, constraints, Ghost(job_names(jobs@)));
        let (blocks, blocked_by) = constraint_graphs(&names, constraints);
        Ok(ConstraintMatrix { matrix, blocked_by: blocks, blocking: blocked_by })
    }

    /// The constraint of the pair (`blocking`, `blocked`), if both are jobs.
    pub fn constraint(&self, blocking: &str, blocked: &str) -> (r: Option<&Constraint>)
        requires
            self.wf(),
        ensures
            match r {
                Some(c) => self.table().contains_key((blocking@, blocked@)) && self.table()[(blocking@, blocked@)] == *c,
                None => !self.table().contains_key((blocking@, blocked@)),
            },
    {
        self.matrix.get(blocking, blocked)
    }

    /// The jobs that block `link`, directly or through other jobs, first first.
    pub fn blocking(&self, link: &str) -> (r: ConstraintMatrixConstraintIterator)
        requires
            self.wf(),
            self.blocked_by_view().contains_key(link@),
        ensures
            strictly_descending(r.items()),
            r.items().to_set() == reachable(self.blocked_by_view(), link@),
    {
        ConstraintMatrixConstraintIterator::new(&self.blocking, link.to_owned())
    }

    /// The jobs that `link` blocks, directly or through other jobs, first first.
    pub fn blocked_by(&self, link: &str) -> (r: ConstraintMatrixConstraintIterator)
        requires
            self.wf(),
            self.blocks_view().contains_key(link@),
        ensures
            strictly_descending(r.items()),
            r.items().to_set() == reachable(self.blocks_view(), link@),
    {
        ConstraintMatrixConstraintIterator::new(&self.blocked_by, link.to_owned())
    }
}

} // verus!
