//! The set of names that a run passes over.

use vstd::prelude::*;
use vstd::seq_lib::{to_multiset_build, to_multiset_insert};
use crate::order::{compare_names, lemma_name_lt_transitive, lemma_name_lt_trichotomy, name_lt, Order};

verus! {

/// The names held by a list of strings, in order.
pub open spec fn names_of(v: Seq<String>) -> Seq<Seq<char>> {
    Seq::new(v.len(), |i: int| v[i]@)
}

/// No name in `s` comes before an earlier one.
pub open spec fn sorted(s: Seq<Seq<char>>) -> bool {
    forall|i: int, j: int| 0 <= i < j < s.len() ==> !name_lt(s[j], s[i])
}

/// The names that a caller lists for exclusion; none where no list is given.
pub open spec fn listed(names: Option<Vec<String>>) -> Seq<Seq<char>> {
    match names {
        Some(v) => names_of(v@),
        None => Seq::empty(),
    }
}

/// Order and content fix the sequence: two sequences in order that hold the
/// same names, each as often, are equal.
pub proof fn lemma_sorted_is_unique(a: Seq<Seq<char>>, b: Seq<Seq<char>>)
    requires
        sorted(a),
        sorted(b),
        a.to_multiset() == b.to_multiset(),
    ensures
        a == b,
    decreases a.len(),
{
    a.to_multiset_ensures();
    b.to_multiset_ensures();
    if a.len() == 0 {
        assert(a =~= b);
    } else {
        assert(a.contains(a[0]));
        assert(b.to_multiset().count(a[0]) > 0);
        assert(b.contains(b[0]));
        assert(a.to_multiset().count(b[0]) > 0);
        let j = choose|j: int| 0 <= j < b.len() && b[j] == a[0];
        let i = choose|i: int| 0 <= i < a.len() && a[i] == b[0];
        lemma_name_lt_trichotomy(a[0], b[0]);
        assert(a[0] == b[0]);
        let a1 = a.remove(0);
        let b1 = b.remove(0);
        assert forall|p: int, q: int| 0 <= p < q < a1.len() implies !name_lt(a1[q], a1[p]) by {
            assert(a1[p] == a[p + 1] && a1[q] == a[q + 1]);
        }
        assert forall|p: int, q: int| 0 <= p < q < b1.len() implies !name_lt(b1[q], b1[p]) by {
            assert(b1[p] == b[p + 1] && b1[q] == b[q + 1]);
        }
        lemma_sorted_is_unique(a1, b1);
        assert forall|k: int| 0 <= k < a.len() implies a[k] == b[k] by {
            if k > 0 {
                assert(a[k] == a1[k - 1]);
                assert(b[k] == b1[k - 1]);
            }
        }
        assert(a =~= b);
    }
}

/// Bare names of files and directories that are skipped wherever they occur.
/// The names are kept in lexicographic order, so that a lookup can halve the
/// range it searches at each step.
pub struct ExclusionSet {
    names: Vec<String>,
}

impl View for ExclusionSet {
    type V = Seq<Seq<char>>;

    closed spec fn view(&self) -> Seq<Seq<char>> {
        names_of(self.names@)
    }
}

impl ExclusionSet {
    /// The names are in order.
    pub open spec fn wf(&self) -> bool {
        sorted(self@)
    }

    /// Whether `name` is one of the excluded names.
    pub open spec fn excludes(&self, name: Seq<char>) -> bool {
        self@.contains(name)
    }

    /// Builds the set from the caller's list, which may be absent, unordered
    /// and hold a name more than once. The set holds the listed names, each as
    /// often as it was listed, in lexicographic order.
    pub fn new(names: Option<Vec<String>>) -> (r: ExclusionSet)
        ensures
            r.wf(),
            r@.to_multiset() == listed(names).to_multiset(),
            r@.len() == listed(names).len(),
            forall|n: Seq<char>| r@.contains(n) <==> listed(names).contains(n),
    {
        let mut out: Vec<String> = Vec::new();
        let ghost src = listed(names);
        assert(names_of(out@) =~= src.take(0));
        if let Some(v) = names {
            let mut i: usize = 0;
            while i < v.len()
                invariant
                    0 <= i <= v.len(),
                    src == names_of(v@),
                    sorted(names_of(out@)),
                    names_of(out@).to_multiset() == src.take(i as int).to_multiset(),
                decreases v.len() - i,
            {
                let x = v[i].clone();
                let ghost before = names_of(out@);
                let mut j: usize = 0;
                while j < out.len() && compare_names(out[j].as_str(), x.as_str()) != Order::Greater
                    invariant
                        0 <= j <= out.len(),
                        before == names_of(out@),
                        forall|k: int| 0 <= k < j ==> !name_lt(x@, #[trigger] before[k]),
                    decreases out.len() - j,
                {
                    j += 1;
                }
                out.insert(j, x);
                proof {
                    let after = names_of(out@);
                    assert(after =~= before.insert(j as int, x@));
                    assert(x@ == src[i as int]);
                    assert forall|p: int, q: int| 0 <= p < q < after.len() implies !name_lt(
                        after[q],
                        after[p],
                    ) by {
                        if p == j {
                            if name_lt(after[q], x@) {
                                lemma_name_lt_trichotomy(before[q - 1], before[j as int]);
                                if before[q - 1] != before[j as int] {
                                    lemma_name_lt_transitive(x@, before[j as int], before[q - 1]);
                                }
                                lemma_name_lt_trichotomy(x@, before[q - 1]);
                            }
                        } else if q == j {
                            assert(after[p] == before[p]);
                        } else {
                            let pb = if p < j { p } else { p - 1 };
                            let qb = if q < j { q } else { q - 1 };
                            assert(after[p] == before[pb]);
                            assert(after[q] == before[qb]);
                        }
                    }
                    to_multiset_insert(before, j as int, x@);
                    assert(src.take(i + 1) =~= src.take(i as int).push(src[i as int]));
                    to_multiset_build(src.take(i as int), src[i as int]);
                }
                i += 1;
            }
            assert(src.take(i as int) =~= src);
        }
        let r = ExclusionSet { names: out };
        proof {
            r@.to_multiset_ensures();
            src.to_multiset_ensures();
            assert forall|n: Seq<char>| r@.contains(n) <==> src.contains(n) by {
                assert(r@.contains(n) <==> r@.to_multiset().count(n) > 0);
                assert(src.contains(n) <==> src.to_multiset().count(n) > 0);
            }
        }
        r
    }

    /// Looks `name` up by binary search.
    pub fn contains(&self, name: &str) -> (b: bool)
        requires
            self.wf(),
        ensures
            b == self.excludes(name@),
    {
        let ghost s = self@;
        let mut lo: usize = 0;
        let mut hi: usize = self.names.len();
        while lo < hi
            invariant
                0 <= lo <= hi <= self.names.len(),
                s == names_of(self.names@),
                sorted(s),
                forall|k: int| 0 <= k < lo ==> name_lt(#[trigger] s[k], name@),
                forall|k: int| hi <= k < s.len() ==> name_lt(name@, #[trigger] s[k]),
            decreases hi - lo,
        {
            let mid: usize = lo + (hi - lo) / 2;
            match compare_names(self.names[mid].as_str(), name) {
                Order::Equal => {
                    assert(s[mid as int] == name@);
                    return true;
                },
                Order::Less => {
                    assert forall|k: int| 0 <= k < mid + 1 implies name_lt(
                        #[trigger] s[k],
                        name@,
                    ) by {
                        if k < mid {
                            lemma_name_lt_trichotomy(s[k], s[mid as int]);
                            if s[k] != s[mid as int] {
                                lemma_name_lt_transitive(s[k], s[mid as int], name@);
                            }
                        }
                    }
                    lo = mid + 1;
                },
                Order::Greater => {
                    assert forall|k: int| mid <= k < s.len() implies name_lt(
                        name@,
                        #[trigger] s[k],
                    ) by {
                        if mid < k {
                            lemma_name_lt_trichotomy(s[mid as int], s[k]);
                            if s[k] != s[mid as int] {
                                lemma_name_lt_transitive(name@, s[mid as int], s[k]);
                            }
                        }
                    }
                    hi = mid;
                },
            }
        }
        proof {
            if s.contains(name@) {
                let k = choose|k: int| 0 <= k < s.len() && s[k] == name@;
                lemma_name_lt_trichotomy(s[k], name@);
            }
        }
        false
    }

    /// The names held, in their order.
    pub fn names(&self) -> (r: &Vec<String>)
        ensures
            names_of(r@) == self@,
    {
        &self.names
    }

    /// The number of names held, counting repeats.
    pub fn len(&self) -> (n: usize)
        ensures
            n == self@.len(),
    {
        self.names.len()
    }
}

} // verus!
