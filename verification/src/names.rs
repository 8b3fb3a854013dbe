//! Sets of names kept in ascending order, as an ordered set of strings keeps them.
use vstd::prelude::*;
use crate::text::{seq_lt, str_lt, str_eq, lemma_seq_lt_irreflexive, lemma_seq_lt_transitive, lemma_seq_lt_total};

verus! {

/// The characters of each string of a sequence.
pub open spec fn names_view(v: Seq<String>) -> Seq<Seq<char>> {
    v.map_values(|s: String| s@)
}

/// Each element comes strictly before the next ones.
pub open spec fn strictly_ascending(s: Seq<Seq<char>>) -> bool {
    forall|i: int, j: int| 0 <= i < j < s.len() ==> seq_lt(#[trigger] s[i], #[trigger] s[j])
}

/// Each element comes strictly after the next ones.
pub open spec fn strictly_descending(s: Seq<Seq<char>>) -> bool {
    forall|i: int, j: int| 0 <= i < j < s.len() ==> seq_lt(#[trigger] s[j], #[trigger] s[i])
}

/// A strictly ascending sequence holds no element twice.
pub proof fn lemma_ascending_no_duplicates(s: Seq<Seq<char>>)
    requires
        strictly_ascending(s),
    ensures
        s.no_duplicates(),
{
    assert forall|i: int, j: int| 0 <= i < s.len() && 0 <= j < s.len() && i != j implies s[i]
        != s[j] by {
        if i < j {
            lemma_seq_lt_irreflexive(s[i]);
        } else {
            lemma_seq_lt_irreflexive(s[j]);
        }
    }
}

/// Two strictly ascending sequences with the same elements are the same sequence.
pub proof fn lemma_ascending_unique(a: Seq<Seq<char>>, b: Seq<Seq<char>>)
    requires
        strictly_ascending(a),
        strictly_ascending(b),
        a.to_set() == b.to_set(),
    ensures
        a == b,
    decreases a.len(),
{
    if a.len() == 0 {
        if b.len() > 0 {
            assert(b.to_set().contains(b[0]));
        }
        assert(a =~= b);
    } else if b.len() == 0 {
        assert(a.to_set().contains(a[0]));
    } else {
        // the first elements are the least of the same set
        assert(a.to_set().contains(a[0]));
        assert(b.to_set().contains(b[0]));
        let ia = choose|i: int| 0 <= i < a.len() && a[i] == b[0];
        let ib = choose|i: int| 0 <= i < b.len() && b[i] == a[0];
        if a[0] != b[0] {
            lemma_seq_lt_total(a[0], b[0]);
            if seq_lt(a[0], b[0]) {
                // a[0] = b[ib] with ib > 0, so b[0] < a[0]
                assert(ib > 0);
                assert(seq_lt(b[0], b[ib]));
            } else {
                assert(ia > 0);
                assert(seq_lt(a[0], a[ia]));
            }
        }
        let a2 = a.drop_first();
        let b2 = b.drop_first();
        lemma_ascending_no_duplicates(a);
        lemma_ascending_no_duplicates(b);
        assert forall|x: Seq<char>| a2.to_set().contains(x) implies b2.to_set().contains(x) by {
            let i = choose|i: int| 0 <= i < a2.len() && a2[i] == x;
            assert(a.to_set().contains(a[i + 1]));
            let k = choose|k: int| 0 <= k < b.len() && b[k] == x;
            if k == 0 {
                assert(a[i + 1] == a[0]);
            }
            assert(b2[k - 1] == x);
        }
        assert forall|x: Seq<char>| b2.to_set().contains(x) implies a2.to_set().contains(x) by {
            let i = choose|i: int| 0 <= i < b2.len() && b2[i] == x;
            assert(b.to_set().contains(b[i + 1]));
            let k = choose|k: int| 0 <= k < a.len() && a[k] == x;
            if k == 0 {
                assert(b[i + 1] == b[0]);
            }
            assert(a2[k - 1] == x);
        }
        assert(a2.to_set() =~= b2.to_set());
        lemma_ascending_unique(a2, b2);
        assert(a =~= seq![a[0]] + a2);
        assert(b =~= seq![b[0]] + b2);
    }
}

/// A set of names, kept in ascending order. It is held in a `Vec`: with a
/// `String` key, vstd's specification of `BTreeSet` states nothing of what the
/// set holds, so no contract over it could be proved.
#[derive(Debug)]
pub struct NameSet {
    items: Vec<String>,
}

impl NameSet {
    /// The names, in ascending order.
    pub closed spec fn names(&self) -> Seq<Seq<char>> {
        names_view(self.items@)
    }

    /// The names as a set.
    pub open spec fn set(&self) -> Set<Seq<char>> {
        self.names().to_set()
    }

    /// The names are strictly ascending.
    pub open spec fn wf(&self) -> bool {
        strictly_ascending(self.names())
    }

    /// An empty set.
    pub fn new() -> (r: NameSet)
        ensures
            r.wf(),
            r.names() == Seq::<Seq<char>>::empty(),
    {
        NameSet { items: Vec::new() }
    }

    /// The number of names.
    pub fn len(&self) -> (r: usize)
        ensures
            r == self.names().len(),
    {
        self.items.len()
    }

    /// Whether the set holds `name`.
    pub fn contains(&self, name: &str) -> (r: bool)
        ensures
            r == self.names().contains(name@),
    {
        let mut i: usize = 0;
        while i < self.items.len()
            invariant
                i <= self.items.len(),
                forall|j: int| 0 <= j < i ==> self.names()[j] != name@,
            decreases self.items.len() - i,
        {
            if str_eq(self.items[i].as_str(), name) {
                assert(self.names()[i as int] == name@);
                return true;
            }
            i = i + 1;
        }
        false
    }

    /// Adds `name`; true when it was not there before (the ordered set's `insert`).
    pub fn insert(&mut self, name: String) -> (r: bool)
        requires
            old(self).wf(),
        ensures
            final(self).wf(),
            r == !old(self).names().contains(name@),
            final(self).set() == old(self).set().insert(name@),
            final(self).names().len() == old(self).names().len() + (if r { 1int } else { 0int }),
    {
        let ghost old_names = self.names();
        let mut i: usize = 0;
        while i < self.items.len() && str_lt(self.items[i].as_str(), name.as_str())
            invariant
                i <= self.items.len(),
                self.names() == old_names,
                self.wf(),
                forall|j: int| 0 <= j < i ==> seq_lt(#[trigger] old_names[j], name@),
            decreases self.items.len() - i,
        {
            i = i + 1;
        }
        if i < self.items.len() && str_eq(self.items[i].as_str(), name.as_str()) {
            proof {
                assert(old_names[i as int] == name@);
                assert(old_names.to_set() =~= old_names.to_set().insert(name@));
            }
            return false;
        }
        proof {
            assert forall|j: int| 0 <= j < old_names.len() implies old_names[j] != name@ by {
                if j < i {
                    lemma_seq_lt_irreflexive(name@);
                } else {
                    lemma_seq_lt_total(old_names[i as int], name@);
                    if j > i {
                        assert(seq_lt(old_names[i as int], old_names[j]));
                        if old_names[j] == name@ {
                            lemma_seq_lt_total(old_names[i as int], name@);
                        }
                    }
                }
            }
        }
        self.items.insert(i, name);
        proof {
            let n = self.names();
            assert(n =~= old_names.insert(i as int, name@));
            assert forall|a: int, b: int| 0 <= a < b < n.len() implies seq_lt(
                #[trigger] n[a],
                #[trigger] n[b],
            ) by {
                if i < self.items.len() - 1 {
                    lemma_seq_lt_total(old_names[i as int], name@);
                }
                if a < i && b == i {
                } else if a == i && b > i {
                    if b > i + 1 {
                        lemma_seq_lt_transitive(name@, old_names[i as int], old_names[b - 1]);
                    }
                } else if a < i && b > i {
                }
            }
            assert(n.to_set() =~= old_names.to_set().insert(name@)) by {
                assert forall|x: Seq<char>| n.to_set().contains(x) implies old_names.to_set().insert(
                    name@,
                ).contains(x) by {
                    let k = choose|k: int| 0 <= k < n.len() && n[k] == x;
                    if k < i {
                        assert(old_names[k] == x);
                    } else if k > i {
                        assert(old_names[k - 1] == x);
                    }
                }
                assert forall|x: Seq<char>| old_names.to_set().insert(name@).contains(x) implies n.to_set().contains(x) by {
                    if x != name@ {
                        let k = choose|k: int| 0 <= k < old_names.len() && old_names[k] == x;
                        if k < i {
                            assert(n[k] == x);
                        } else {
                            assert(n[k + 1] == x);
                        }
                    } else {
                        assert(n[i as int] == x);
                    }
                }
            }
        }
        true
    }

    /// The names, in ascending order.
    pub fn to_vec(&self) -> (r: Vec<String>)
        ensures
            names_view(r@) == self.names(),
    {
        self.items.clone()
    }
}

/// Names in ascending order, equal names side by side.
pub open spec fn ascending(s: Seq<Seq<char>>) -> bool {
    forall|i: int, j: int| 0 <= i < j < s.len() ==> !seq_lt(#[trigger] s[j], #[trigger] s[i])
}

/// The names in ascending order (the order of `String`'s `sort`).
pub fn sorted(names: &Vec<String>) -> (r: Vec<String>)
    ensures
        ascending(names_view(r@)),
        names_view(r@).to_multiset() == names_view(names@).to_multiset(),
{
    let mut r: Vec<String> = Vec::new();
    let mut i: usize = 0;
    assert(names_view(r@) =~= names_view(names@).take(0));
    while i < names.len()
        invariant
            i <= names.len(),
            ascending(names_view(r@)),
            names_view(r@).to_multiset() == names_view(names@).take(i as int).to_multiset(),
        decreases names.len() - i,
    {
        let x = &names[i];
        let mut p: usize = 0;
        while p < r.len() && !crate::text::str_lt(x.as_str(), r[p].as_str())
            invariant
                p <= r.len(),
                forall|k: int| 0 <= k < p ==> !seq_lt(x@, #[trigger] names_view(r@)[k]),
            decreases r.len() - p,
        {
            p = p + 1;
        }
        let ghost before = names_view(r@);
        r.insert(p, x.clone());
        proof {
            let after = names_view(r@);
            assert(after =~= before.insert(p as int, x@));
            assert forall|a: int, b: int| 0 <= a < b < after.len() implies !seq_lt(#[trigger] after[b], #[trigger] after[a]) by {
                if b == p {
                    assert(after[a] == before[a]);
                } else if a == p {
                    assert(after[b] == before[b - 1]);
                    assert(seq_lt(x@, before[p as int]));
                    if seq_lt(before[b - 1], x@) {
                        crate::text::lemma_seq_lt_transitive(before[b - 1], x@, before[p as int]);
                        if b - 1 == p {
                            crate::text::lemma_seq_lt_irreflexive(before[p as int]);
                        }
                    }
                } else if b < p {
                    assert(after[a] == before[a] && after[b] == before[b]);
                } else if a < p {
                    assert(after[a] == before[a] && after[b] == before[b - 1]);
                } else {
                    assert(after[a] == before[a - 1] && after[b] == before[b - 1]);
                }
            }
            assert(names_view(names@).take(i + 1) =~= names_view(names@).take(i as int).push(x@));
            vstd::seq_lib::to_multiset_insert(before, p as int, x@);
            vstd::seq_lib::to_multiset_build(names_view(names@).take(i as int), x@);
        }
        i = i + 1;
    }
    assert(names_view(names@).take(names.len() as int) =~= names_view(names@));
    r
}

} // verus!
