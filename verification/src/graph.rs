//! Graphs over names: each name with the set of names it points to, and the
//! names reachable from a name.
use vstd::prelude::*;
use crate::names::{NameSet, names_view, strictly_ascending};
use crate::text::str_eq;

verus! {

/// A graph over names.
pub type Graph = Map<Seq<char>, Set<Seq<char>>>;

/// `p` follows edges of `g` from its first name to its last.
pub open spec fn is_path(g: Graph, p: Seq<Seq<char>>) -> bool {
    &&& p.len() >= 1
    &&& forall|i: int| 0 <= i < p.len() - 1 ==> g.contains_key(#[trigger] p[i]) && g[p[i]].contains(p[i + 1])
}

/// `b` can be reached from `a` by following one edge or more.
pub open spec fn reaches(g: Graph, a: Seq<char>, b: Seq<char>) -> bool {
    exists|p: Seq<Seq<char>>| #[trigger] is_path(g, p) && p.len() >= 2 && p[0] == a && p.last() == b
}

/// The names reachable from `a` by one edge or more.
pub open spec fn reachable(g: Graph, a: Seq<char>) -> Set<Seq<char>> {
    Set::new(|b: Seq<char>| reaches(g, a, b))
}

/// Every edge of `g` ends at a name of `g`.
pub open spec fn closed_graph(g: Graph) -> bool {
    forall|a: Seq<char>, b: Seq<char>| #[trigger] g.contains_key(a) && g[a].contains(b) ==> #[trigger] g.contains_key(b)
}

/// One edge is a path.
pub proof fn lemma_reaches_edge(g: Graph, a: Seq<char>, b: Seq<char>)
    requires
        g.contains_key(a),
        g[a].contains(b),
    ensures
        reaches(g, a, b),
{
    let p = seq![a, b];
    assert(is_path(g, p));
}

/// A path followed by an edge is a path.
pub proof fn lemma_reaches_extend(g: Graph, a: Seq<char>, b: Seq<char>, c: Seq<char>)
    requires
        reaches(g, a, b),
        g.contains_key(b),
        g[b].contains(c),
    ensures
        reaches(g, a, c),
{
    let p = choose|p: Seq<Seq<char>>| #[trigger] is_path(g, p) && p.len() >= 2 && p[0] == a && p.last() == b;
    let q = p.push(c);
    assert forall|i: int| 0 <= i < q.len() - 1 implies g.contains_key(#[trigger] q[i]) && g[q[i]].contains(q[i + 1]) by {
        if i < p.len() - 1 {
            assert(q[i] == p[i] && q[i + 1] == p[i + 1]);
        } else {
            assert(q[i] == b);
        }
    }
    assert(is_path(g, q));
}

/// When `s`, together with `a`, holds every edge's end that starts in it, all
/// that is reachable from `a` is in `s`.
pub proof fn lemma_reachable_within(g: Graph, a: Seq<char>, s: Set<Seq<char>>, b: Seq<char>)
    requires
        forall|x: Seq<char>, y: Seq<char>| (x == a || s.contains(x)) && g.contains_key(x) && #[trigger] g[x].contains(y) ==> s.contains(y),
        reaches(g, a, b),
    ensures
        s.contains(b),
{
    let p = choose|p: Seq<Seq<char>>| #[trigger] is_path(g, p) && p.len() >= 2 && p[0] == a && p.last() == b;
    lemma_path_within(g, a, s, p, p.len() - 1);
}

proof fn lemma_path_within(g: Graph, a: Seq<char>, s: Set<Seq<char>>, p: Seq<Seq<char>>, k: int)
    requires
        forall|x: Seq<char>, y: Seq<char>| (x == a || s.contains(x)) && g.contains_key(x) && #[trigger] g[x].contains(y) ==> s.contains(y),
        is_path(g, p),
        p[0] == a,
        1 <= k < p.len(),
    ensures
        s.contains(p[k]),
    decreases k,
{
    if k > 1 {
        lemma_path_within(g, a, s, p, k - 1);
    }
    assert(g.contains_key(p[k - 1]) && g[p[k - 1]].contains(p[k]));
}

/// A graph over names: each name with the names it points to. A name occurs
/// once, and each edge ends at a name of the graph: a walk from a name looks
/// up each name it reaches, and a name that is not in the graph has no entry
/// to look up (the lookup would panic). Every graph the library builds joins
/// job names only, which are checked before it is built. It is held in a
/// `Vec`: with `String` keys, vstd's specification of `BTreeMap` states
/// nothing of what the map holds.
#[derive(Debug)]
pub struct NameGraph {
    entries: Vec<(String, NameSet)>,
}

/// The names of a sequence of entries.
pub open spec fn graph_keys(e: Seq<(String, NameSet)>) -> Seq<Seq<char>> {
    e.map_values(|p: (String, NameSet)| p.0@)
}

impl NameGraph {
    /// The names, in the order in which they were added.
    pub closed spec fn keys(&self) -> Seq<Seq<char>> {
        graph_keys(self.entries@)
    }

    /// The graph.
    pub closed spec fn graph(&self) -> Graph {
        Map::new(
            |k: Seq<char>| self.keys().contains(k),
            |k: Seq<char>| self.entries@[self.index_of(k)].1.set(),
        )
    }

    /// A position of `k`.
    pub closed spec fn index_of(&self, k: Seq<char>) -> int {
        choose|i: int| 0 <= i < self.entries@.len() && self.entries@[i].0@ == k
    }

    /// No name occurs twice, each set is ordered, and each edge ends at a name
    /// of the graph.
    pub closed spec fn wf(&self) -> bool {
        &&& self.keys().no_duplicates()
        &&& forall|i: int| 0 <= i < self.entries@.len() ==> (#[trigger] self.entries@[i]).1.wf()
        &&& closed_graph(self.graph())
    }

    proof fn lemma_entry(&self, i: int)
        requires
            self.keys().no_duplicates(),
            0 <= i < self.entries@.len(),
        ensures
            self.graph().contains_key(self.entries@[i].0@),
            self.graph()[self.entries@[i].0@] == self.entries@[i].1.set(),
            self.index_of(self.entries@[i].0@) == i,
    {
        let k = self.entries@[i].0@;
        assert(self.keys()[i] == k);
        let j = self.index_of(k);
        assert(self.keys()[j] == k);
        if j != i {
            assert(self.keys()[j] != self.keys()[i]);
        }
    }

    /// An empty graph.
    pub fn new() -> (r: NameGraph)
        ensures
            r.wf(),
            r.graph() == Graph::empty(),
            r.keys() == Seq::<Seq<char>>::empty(),
    {
        let r = NameGraph { entries: Vec::new() };
        assert(r.graph() =~= Graph::empty());
        r
    }

    fn position(&self, key: &str) -> (r: Option<usize>)
        ensures
            match r {
                Some(i) => i < self.entries@.len() && self.entries@[i as int].0@ == key@,
                None => !self.keys().contains(key@),
            },
    {
        let mut i: usize = 0;
        while i < self.entries.len()
            invariant
                i <= self.entries.len(),
                forall|j: int| 0 <= j < i ==> self.entries@[j].0@ != key@,
            decreases self.entries.len() - i,
        {
            if str_eq(self.entries[i].0.as_str(), key) {
                return Some(i);
            }
            i = i + 1;
        }
        None
    }

    /// Adds the name `key` with no edges, or takes the edges away from it if
    /// it is there (an ordered map's `insert` of an empty set).
    pub fn add_node(&mut self, key: String)
        requires
            old(self).wf(),
        ensures
            final(self).wf(),
            final(self).graph() == old(self).graph().insert(key@, Set::empty()),
    {
        let ghost old_self = *self;
        let ghost old_entries = self.entries@;
        let ghost at: int;
        match self.position(key.as_str()) {
            Some(i) => {
                self.entries.set(i, (key, NameSet::new()));
                proof {
                    at = i as int;
                    assert(graph_keys(self.entries@) =~= graph_keys(old_entries));
                    assert(graph_keys(old_entries)[at] == key@);
                }
            },
            None => {
                self.entries.push((key, NameSet::new()));
                proof {
                    at = old_entries.len() as int;
                    assert(graph_keys(self.entries@) =~= graph_keys(old_entries).push(key@));
                    assert forall|a: int, b: int| 0 <= a < b < graph_keys(self.entries@).len()
                        implies graph_keys(self.entries@)[a] != graph_keys(self.entries@)[b] by {
                        if b == old_entries.len() {
                            assert(graph_keys(old_entries)[a] == graph_keys(self.entries@)[a]);
                        }
                    }
                }
            },
        }
        proof {
            assert(self.entries@[at].0@ == key@);
            assert(self.entries@[at].1.set() =~= Set::empty());
            self.lemma_same_keys_update(old_self, at, key@);
        }
    }

    proof fn lemma_same_keys_update(&self, old_self: NameGraph, at: int, key: Seq<char>)
        requires
            old_self.wf(),
            self.keys().no_duplicates(),
            0 <= at < self.entries@.len(),
            self.entries@[at].0@ == key,
            self.entries@[at].1.wf(),
            self.entries@.len() == old_self.entries@.len() || self.entries@.len() == old_self.entries@.len() + 1,
            self.entries@.len() == old_self.entries@.len() + 1 ==> at == old_self.entries@.len(),
            forall|i: int| 0 <= i < self.entries@.len() && i != at ==> self.entries@[i] == old_self.entries@[i],
            self.entries@.len() == old_self.entries@.len() ==> old_self.entries@[at].0@ == key,
            forall|b: Seq<char>| #[trigger] self.entries@[at].1.set().contains(b) ==> old_self.graph().contains_key(b) || b == key,
        ensures
            self.wf(),
            self.graph() == old_self.graph().insert(key, self.entries@[at].1.set()),
    {
        let m = self.graph();
        let m2 = old_self.graph().insert(key, self.entries@[at].1.set());
        assert forall|k: Seq<char>| m.dom().contains(k) <==> m2.dom().contains(k) by {
            if m.dom().contains(k) {
                let j = choose|j: int| 0 <= j < self.keys().len() && self.keys()[j] == k;
                if j != at {
                    assert(old_self.keys()[j] == k);
                }
            }
            if m2.dom().contains(k) && k != key {
                let j = choose|j: int| 0 <= j < old_self.keys().len() && old_self.keys()[j] == k;
                assert(self.keys()[j] == k);
            }
            if k == key {
                assert(self.keys()[at] == k);
            }
        }
        assert forall|k: Seq<char>| #[trigger] m.dom().contains(k) implies m[k] == m2[k] by {
            let j = choose|j: int| 0 <= j < self.keys().len() && self.keys()[j] == k;
            self.lemma_entry(j);
            if k != key {
                assert(j != at);
                old_self.lemma_entry(j);
            } else {
                self.lemma_entry(at);
            }
        }
        assert(m =~= m2);
        assert forall|i: int| 0 <= i < self.entries@.len() implies (#[trigger] self.entries@[i]).1.wf() by {
            if i != at {
                assert(old_self.entries@[i].1.wf());
            }
        }
        assert forall|a: Seq<char>, b: Seq<char>| #[trigger] m.contains_key(a) && m[a].contains(b) implies #[trigger] m.contains_key(b) by {
            if a == key {
            } else {
                assert(old_self.graph().contains_key(a) && old_self.graph()[a].contains(b));
            }
        }
    }

    /// Whether `key` is a name of the graph.
    pub fn contains_key(&self, key: &str) -> (r: bool)
        requires
            self.wf(),
        ensures
            r == self.graph().contains_key(key@),
    {
        match self.position(key) {
            Some(i) => {
                proof {
                    self.lemma_entry(i as int);
                }
                true
            },
            None => false,
        }
    }

    /// Adds the edge from `from` to `to`; both are names of the graph.
    pub fn add_edge(&mut self, from: &str, to: String)
        requires
            old(self).wf(),
            old(self).graph().contains_key(from@),
            old(self).graph().contains_key(to@),
        ensures
            final(self).wf(),
            final(self).graph() == old(self).graph().insert(from@, old(self).graph()[from@].insert(to@)),
    {
        let ghost old_self = *self;
        let i = match self.position(from) {
            Some(i) => i,
            None => {
                proof {
                    let j = choose|j: int| 0 <= j < self.keys().len() && self.keys()[j] == from@;
                }
                return;
            },
        };
        proof {
            old_self.lemma_entry(i as int);
        }
        let mut entry = self.entries.remove(i);
        entry.1.insert(to);
        self.entries.insert(i, entry);
        proof {
            assert(graph_keys(self.entries@) =~= graph_keys(old_self.entries@));
            assert forall|j: int| 0 <= j < self.entries@.len() && j != i implies self.entries@[j] == old_self.entries@[j] by {
            }
            self.lemma_same_keys_update(old_self, i as int, from@);
        }
    }

    /// The names that `key` points to.
    pub fn successors(&self, key: &str) -> (r: &NameSet)
        requires
            self.wf(),
            self.graph().contains_key(key@),
        ensures
            r.wf(),
            r.set() == self.graph()[key@],
    {
        let i = match self.position(key) {
            Some(i) => i,
            None => {
                proof {
                    let j = choose|j: int| 0 <= j < self.keys().len() && self.keys()[j] == key@;
                    assert(false);
                }
                0
            },
        };
        proof {
            self.lemma_entry(i as int);
        }
        &self.entries[i].1
    }
}

} // verus!

verus! {

proof fn lemma_subset_len(acc: &NameSet, g: &NameGraph)
    requires
        acc.wf(),
        g.wf(),
        forall|x: Seq<char>| acc.set().contains(x) ==> g.graph().contains_key(x),
    ensures
        acc.names().len() <= g.keys().len(),
{
    broadcast use vstd::seq_lib::seq_to_set_is_finite;
    crate::names::lemma_ascending_no_duplicates(acc.names());
    acc.names().unique_seq_to_set();
    g.keys().lemma_cardinality_of_set();
    assert forall|x: Seq<char>| acc.set().contains(x) implies g.keys().to_set().contains(x) by {
        assert(g.graph().contains_key(x));
    }
    vstd::set_lib::lemma_len_subset(acc.set(), g.keys().to_set());
}

/// The names reachable from `from` by one edge or more, found by a depth-first
/// walk of the graph.
pub fn reachable_names(g: &NameGraph, from: &str) -> (r: NameSet)
    requires
        g.wf(),
        g.graph().contains_key(from@),
    ensures
        r.wf(),
        r.set() == reachable(g.graph(), from@),
{
    let ghost gr = g.graph();
    let ghost n = g.keys().len();
    let mut acc = NameSet::new();
    let mut stack: Vec<String> = Vec::new();
    stack.push(from.to_owned());
    proof {
        assert(acc.set() =~= Set::empty());
        assert(names_view(stack@)[0] == from@);
    }
    while stack.len() > 0
        invariant
            g.wf(),
            gr == g.graph(),
            n == g.keys().len(),
            gr.contains_key(from@),
            acc.wf(),
            forall|i: int| 0 <= i < stack@.len() ==> gr.contains_key(#[trigger] stack@[i]@)
                && (stack@[i]@ == from@ || acc.set().contains(stack@[i]@)),
            forall|x: Seq<char>| #[trigger] acc.set().contains(x) ==> reaches(gr, from@, x) && gr.contains_key(x),
            forall|x: Seq<char>, y: Seq<char>|
                (x == from@ || acc.set().contains(x)) && !names_view(stack@).contains(x) && gr.contains_key(x) && #[trigger] gr[x].contains(y)
                    ==> acc.set().contains(y),
            acc.names().len() <= n,
        decreases 2 * (n - acc.names().len()) + stack@.len(),
    {
        let ghost m0 = 2 * (n - acc.names().len()) + stack@.len();
        let ghost old_stack = stack@;
        let current = stack.pop().unwrap();
        let ghost cur = current@;
        let ghost stack_after_pop = stack@;
        proof {
            assert(old_stack =~= stack_after_pop.push(current));
            assert(names_view(old_stack) =~= names_view(stack_after_pop).push(cur));
            assert forall|x: Seq<char>| !names_view(stack@).contains(x) && x != cur implies !names_view(old_stack).contains(x) by {
                if names_view(old_stack).contains(x) {
                    let k = choose|k: int| 0 <= k < old_stack.len() && names_view(old_stack)[k] == x;
                    if k < stack_after_pop.len() {
                        assert(names_view(stack@)[k] == x);
                    }
                }
            }
        }
        let items = g.successors(current.as_str()).to_vec();
        let mut i: usize = 0;
        while i < items.len()
            invariant
                g.wf(),
                gr == g.graph(),
                n == g.keys().len(),
                gr.contains_key(from@),
                gr.contains_key(cur),
                cur == from@ || acc.set().contains(cur),
                acc.wf(),
                i <= items.len(),
                names_view(items@).to_set() == gr[cur],
                forall|j: int| 0 <= j < i ==> acc.set().contains(#[trigger] names_view(items@)[j]),
                forall|k: int| 0 <= k < stack@.len() ==> gr.contains_key(#[trigger] stack@[k]@)
                    && (stack@[k]@ == from@ || acc.set().contains(stack@[k]@)),
                forall|x: Seq<char>| #[trigger] acc.set().contains(x) ==> reaches(gr, from@, x) && gr.contains_key(x),
                forall|x: Seq<char>, y: Seq<char>|
                    (x == from@ || acc.set().contains(x)) && !names_view(stack@).contains(x) && x != cur && gr.contains_key(x) && #[trigger] gr[x].contains(y)
                        ==> acc.set().contains(y),
                acc.names().len() <= n,
                2 * (n - acc.names().len()) + stack@.len() < m0,
            decreases items.len() - i,
        {
            let ghost before_acc = acc.set();
            let ghost before_stack = stack@;
            let name = items[i].clone();
            proof {
                lemma_subset_len(&acc, g);
            }
            let fresh = acc.insert(name);
            proof {
                assert(names_view(items@)[i as int] == items@[i as int]@);
                assert(gr[cur].contains(items@[i as int]@));
                if reaches(gr, from@, cur) {
                    lemma_reaches_extend(gr, from@, cur, items@[i as int]@);
                } else {
                    lemma_reaches_edge(gr, from@, items@[i as int]@);
                }
            }
            if fresh {
                stack.push(items[i].clone());
                proof {
                    assert(names_view(stack@)[before_stack.len() as int] == items@[i as int]@);
                    assert forall|x: Seq<char>| names_view(before_stack).contains(x) implies names_view(stack@).contains(x) by {
                        if names_view(before_stack).contains(x) {
                            let k = choose|k: int| 0 <= k < before_stack.len() && names_view(before_stack)[k] == x;
                            assert(names_view(stack@)[k] == x);
                        }
                    }
                }
            }
            proof {
                assert forall|x: Seq<char>, y: Seq<char>|
                    (x == from@ || acc.set().contains(x)) && !names_view(stack@).contains(x) && x != cur && gr.contains_key(x) && #[trigger] gr[x].contains(y)
                        implies acc.set().contains(y) by {
                    if x == from@ || before_acc.contains(x) {
                        assert(!names_view(before_stack).contains(x));
                        assert(before_acc.contains(y));
                    }
                }
            }
            proof {
                assert(gr.contains_key(items@[i as int]@));
                lemma_subset_len(&acc, g);
            }
            i = i + 1;
        }
        proof {
            assert forall|y: Seq<char>| gr[cur].contains(y) implies acc.set().contains(y) by {
                let j = choose|j: int| 0 <= j < names_view(items@).len() && names_view(items@)[j] == y;
            }
        }
    }
    proof {
        assert forall|x: Seq<char>| reaches(gr, from@, x) implies acc.set().contains(x) by {
            lemma_reachable_within(gr, from@, acc.set(), x);
        }
        assert(acc.set() =~= reachable(gr, from@));
    }
    acc
}

} // verus!
