//! Names handed out one by one, in ascending order.
use vstd::prelude::*;
use crate::graph::{NameGraph, reachable, reachable_names};
use crate::names::{names_view, strictly_descending};

verus! {

/// The names reachable from a job, handed out from the first to the last.
#[derive(Debug)]
pub struct ConstraintMatrixConstraintIterator {
    proximity: Vec<String>,
}

impl ConstraintMatrixConstraintIterator {
    /// The names still to be handed out; the last comes first.
    pub closed spec fn items(&self) -> Seq<Seq<char>> {
        names_view(self.proximity@)
    }

    /// The names reachable in `cm` from `blocking`, kept in descending order
    /// so that they are handed out in ascending order.
    pub fn new(cm: &NameGraph, blocking: String) -> (r: Self)
        requires
            cm.wf(),
            cm.graph().contains_key(blocking@),
        ensures
            strictly_descending(r.items()),
            r.items().to_set() == reachable(cm.graph(), blocking@),
    {
        let accumulator = reachable_names(cm, blocking.as_str());
        let ascending = accumulator.to_vec();
        let mut proximity: Vec<String> = Vec::new();
        let mut i: usize = ascending.len();
        let ghost a = names_view(ascending@);
        proof {
            crate::ci::job::dag::lemma_reverse_ascending(a);
        }
        while i > 0
            invariant
                i <= ascending.len(),
                a == names_view(ascending@),
                names_view(proximity@) == a.reverse().take((a.len() - i) as int),
            decreases i,
        {
            i = i - 1;
            let ghost before = proximity@;
            proximity.push(ascending[i].clone());
            proof {
                assert(names_view(proximity@) =~= names_view(before).push(a[i as int]));
                assert(a.reverse()[(a.len() - i - 1) as int] == a[i as int]);
                assert(a.reverse().take((a.len() - i) as int) =~= a.reverse().take((a.len() - i - 1) as int).push(a[i as int]));
            }
        }
        proof {
            assert(a.reverse().take(a.len() as int) =~= a.reverse());
        }
        Self { proximity }
    }

    /// The next name, if any is left.
    pub fn next(&mut self) -> (r: Option<String>)
        ensures
            old(self).items().len() == 0 ==> r is None && final(self).items() == old(self).items(),
            old(self).items().len() > 0 ==> r is Some && r.unwrap()@ == old(self).items().last()
                && final(self).items() == old(self).items().drop_last(),
    {
        let r = self.proximity.pop();
        proof {
            if old(self).proximity@.len() > 0 {
                assert(self.proximity@ =~= old(self).proximity@.drop_last());
                assert(names_view(self.proximity@) =~= names_view(old(self).proximity@).drop_last());
            }
        }
        r
    }

    /// All the names that are left, in the order in which they would be handed out.
    pub fn into_vec(self) -> (r: Vec<String>)
        ensures
            names_view(r@) == self.items().reverse(),
    {
        let mut it = self;
        let mut r: Vec<String> = Vec::new();
        let ghost all = it.items();
        while it.proximity.len() > 0
            invariant
                all.len() == r@.len() + it.items().len(),
                it.items() == all.take(it.items().len() as int),
                names_view(r@) == all.reverse().take(r@.len() as int),
            decreases it.proximity.len(),
        {
            let ghost before = r@;
            let ghost left = it.items();
            let n = it.next().unwrap();
            r.push(n);
            proof {
                assert(names_view(r@) =~= names_view(before).push(left.last()));
                assert(left.last() == all[left.len() - 1]);
                assert(all.reverse()[before.len() as int] == all[all.len() - 1 - before.len()]);
                assert(all.reverse().take(r@.len() as int) =~= all.reverse().take(before.len() as int).push(all.reverse()[before.len() as int]));
                assert(it.items() =~= all.take(it.items().len() as int));
            }
        }
        assert(all.reverse().take(r@.len() as int) =~= all.reverse());
        r
    }
}

} // verus!
