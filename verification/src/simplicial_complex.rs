//! Simplices and filtered simplicial complexes.
//!
//! A complex stores its simplices in ascending filtration order (stable:
//! ties keep their input order) together with one filtration-level key per
//! simplex, and offers the GF(2) boundary operator the persistence engine
//! consumes.

use crate::homology::{
    index_set, sorted_distinct, Chain, ChainComplex, ChainModel, HomologyError,
    PersistenceInterval,
};
use vstd::prelude::*;

verus! {

/// Why a simplex or complex was rejected.
#[derive(Debug, PartialEq, Eq, Structural)]
pub enum SimplicialComplexError {
    /// The number of simplices differs from the number of filtration
    /// levels.
    LengthMismatch { n_simplices: usize, n_levels: usize },
    /// A simplex is malformed: `duplicate` names the repeated vertex, or
    /// is `None` when the simplex has no vertices at all.
    InvalidSimplex { duplicate: Option<usize> },
}

/// A simplex, defined by its vertices: a point, an edge, a triangle, a
/// tetrahedron, and so on.
#[derive(Debug, PartialEq, Eq, Hash)]
pub struct Simplex {
    /// The vertex indices that define the simplex.
    pub vertices: Vec<usize>,
}

/// `x` inserted in front of the first member of the ascending sequence `s`
/// that is not below it.
pub open spec fn insert_sorted_spec(x: usize, s: Seq<usize>) -> Seq<usize>
    decreases s.len(),
{
    if s.len() == 0 {
        seq![x]
    } else if x <= s[0] {
        seq![x] + s
    } else {
        seq![s[0]] + insert_sorted_spec(x, s.drop_first())
    }
}

/// The ascending reordering of `s`, by insertion.
pub open spec fn sort_spec(s: Seq<usize>) -> Seq<usize>
    decreases s.len(),
{
    if s.len() == 0 {
        Seq::<usize>::empty()
    } else {
        insert_sorted_spec(s[0], sort_spec(s.drop_first()))
    }
}

/// Vertices in non-strict ascending order.
pub open spec fn sorted_ascending(s: Seq<usize>) -> bool {
    forall|p: int| 0 < p < s.len() ==> s[p - 1] <= #[trigger] s[p]
}

/// Insertion keeps a sorted sequence sorted and adds one member.
proof fn lemma_insert_sorted(x: usize, s: Seq<usize>)
    requires
        sorted_ascending(s),
    ensures
        sorted_ascending(insert_sorted_spec(x, s)),
        insert_sorted_spec(x, s).len() == s.len() + 1,
        forall|e: usize|
            #![trigger insert_sorted_spec(x, s).contains(e)]
            insert_sorted_spec(x, s).contains(e) <==> (e == x || s.contains(e)),
    decreases s.len(),
{
    let r = insert_sorted_spec(x, s);
    if s.len() == 0 {
        assert forall|e: usize| r.contains(e) implies (e == x || s.contains(e)) by {
            let p = choose|p: int| 0 <= p < r.len() && r[p] == e;
        }
        assert(r[0] == x);
    } else if x <= s[0] {
        assert(r == seq![x] + s);
        assert forall|p: int| 0 < p < r.len() implies r[p - 1] <= #[trigger] r[p] by {
            if p == 1 {
                assert(r[0] == x && r[1] == s[0]);
            } else {
                assert(r[p] == s[p - 1] && r[p - 1] == s[p - 2]);
            }
        }
        assert forall|e: usize| r.contains(e) implies (e == x || s.contains(e)) by {
            let p = choose|p: int| 0 <= p < r.len() && r[p] == e;
            if p > 0 {
                assert(s[p - 1] == e);
            }
        }
        assert forall|e: usize| (e == x || s.contains(e)) implies r.contains(e) by {
            if e == x {
                assert(r[0] == e);
            } else {
                let p = choose|p: int| 0 <= p < s.len() && s[p] == e;
                assert(r[p + 1] == e);
            }
        }
    } else {
        lemma_insert_sorted(x, s.drop_first());
        let sub = insert_sorted_spec(x, s.drop_first());
        assert(r == seq![s[0]] + sub);
        assert forall|p: int| 0 < p < s.drop_first().len() + 1 implies s.drop_first()[p - 1]
            <= s[p] by {}
        assert forall|p: int| 0 < p < r.len() implies r[p - 1] <= #[trigger] r[p] by {
            if p == 1 {
                // head stays below both candidates for the second position
                assert(r[1] == sub[0]);
                if s.drop_first().len() == 0 {
                    assert(sub[0] == x);
                } else if x <= s.drop_first()[0] {
                    assert(sub[0] == x);
                } else {
                    assert(sub[0] == s.drop_first()[0]);
                    assert(s[0] <= s[1]);
                }
            } else {
                assert(r[p] == sub[p - 1] && r[p - 1] == sub[p - 2]);
            }
        }
        assert forall|e: usize| r.contains(e) implies (e == x || s.contains(e)) by {
            let p = choose|p: int| 0 <= p < r.len() && r[p] == e;
            if p == 0 {
                assert(s[0] == e);
            } else {
                assert(sub[p - 1] == e);
                assert(sub.contains(e));
                if e != x {
                    assert(s.drop_first().contains(e));
                    let q = choose|q: int| 0 <= q < s.drop_first().len() && s.drop_first()[q] == e;
                    assert(s[q + 1] == e);
                }
            }
        }
        assert forall|e: usize| (e == x || s.contains(e)) implies r.contains(e) by {
            if e == x {
                assert(sub.contains(x));
                let q = choose|q: int| 0 <= q < sub.len() && sub[q] == x;
                assert(r[q + 1] == x);
            } else {
                let p = choose|p: int| 0 <= p < s.len() && s[p] == e;
                if p == 0 {
                    assert(r[0] == e);
                } else {
                    assert(s.drop_first()[p - 1] == e);
                    assert(s.drop_first().contains(e));
                    assert(sub.contains(e));
                    let q = choose|q: int| 0 <= q < sub.len() && sub[q] == e;
                    assert(r[q + 1] == e);
                }
            }
        }
    }
}

/// Sorting yields an ascending sequence with the same members and length.
#[verifier::rlimit(100)]
pub proof fn lemma_sort_spec(s: Seq<usize>)
    ensures
        sorted_ascending(sort_spec(s)),
        sort_spec(s).len() == s.len(),
        forall|e: usize| #![trigger sort_spec(s).contains(e)] sort_spec(s).contains(e) <==> s.contains(e),
    decreases s.len(),
{
    if s.len() > 0 {
        lemma_sort_spec(s.drop_first());
        lemma_insert_sorted(s[0], sort_spec(s.drop_first()));
        assert forall|e: usize| sort_spec(s).contains(e) implies s.contains(e) by {
            if e != s[0] {
                assert(s.drop_first().contains(e));
                let q = choose|q: int| 0 <= q < s.drop_first().len() && s.drop_first()[q] == e;
                assert(s[q + 1] == e);
            }
        }
        assert forall|e: usize| s.contains(e) implies sort_spec(s).contains(e) by {
            let p = choose|p: int| 0 <= p < s.len() && s[p] == e;
            if p > 0 {
                assert(s.drop_first()[p - 1] == e);
                assert(s.drop_first().contains(e));
            }
        }
    }
}

/// A sequence that is already ascending is its own sort.
#[verifier::rlimit(100)]
pub proof fn lemma_sort_spec_sorted_id(s: Seq<usize>)
    requires
        sorted_ascending(s),
    ensures
        sort_spec(s) == s,
    decreases s.len(),
{
    if s.len() > 0 {
        assert forall|p: int| 0 < p < s.drop_first().len() implies s.drop_first()[p - 1]
            <= #[trigger] s.drop_first()[p] by {
            assert(s.drop_first()[p - 1] == s[p] && s.drop_first()[p] == s[p + 1]);
        }
        lemma_sort_spec_sorted_id(s.drop_first());
        lemma_sort_spec(s.drop_first());
        if s.len() == 1 {
            assert(insert_sorted_spec(s[0], Seq::<usize>::empty()) =~= s);
        } else {
            assert(s[0] <= s.drop_first()[0]);
            assert(insert_sorted_spec(s[0], s.drop_first()) =~= seq![s[0]] + s.drop_first());
            assert(seq![s[0]] + s.drop_first() =~= s);
        }
    }
}

/// Inserts `x` into an ascending vector, in front of the first member not
/// below it.
#[verifier::loop_isolation(false)]
fn insert_sorted(v: &mut Vec<usize>, x: usize)
    requires
        sorted_ascending(old(v)@),
    ensures
        final(v)@ == insert_sorted_spec(x, old(v)@),
{
    let mut idx: usize = 0;
    while idx < v.len() && v[idx] < x
        invariant
            idx <= v@.len(),
            forall|q: int| 0 <= q < idx ==> #[trigger] v@[q] < x,
        decreases v@.len() - idx,
    {
        idx = idx + 1;
    }
    let ghost v0 = v@;
    v.insert(idx, x);
    proof {
        lemma_insert_sorted_at(x, v0, idx as int);
        assert(v@ =~= v0.take(idx as int) + seq![x] + v0.skip(idx as int));
    }
}

/// Where the first member not below `x` sits at `idx`, insertion splices
/// `x` there.
proof fn lemma_insert_sorted_at(x: usize, s: Seq<usize>, idx: int)
    requires
        sorted_ascending(s),
        0 <= idx <= s.len(),
        forall|q: int| 0 <= q < idx ==> #[trigger] s[q] < x,
        idx < s.len() ==> x <= s[idx],
    ensures
        insert_sorted_spec(x, s) == s.take(idx) + seq![x] + s.skip(idx),
    decreases idx,
{
    if idx == 0 {
        if s.len() == 0 {
            assert(insert_sorted_spec(x, s) =~= s.take(0) + seq![x] + s.skip(0));
        } else {
            assert(insert_sorted_spec(x, s) == seq![x] + s);
            assert(seq![x] + s =~= s.take(0) + seq![x] + s.skip(0));
        }
    } else {
        assert(s[0] < x);
        let s2 = s.drop_first();
        assert forall|p: int| 0 < p < s2.len() implies s2[p - 1] <= #[trigger] s2[p] by {
            assert(s2[p - 1] == s[p] && s2[p] == s[p + 1]);
        }
        assert forall|q: int| 0 <= q < idx - 1 implies #[trigger] s2[q] < x by {
            assert(s2[q] == s[q + 1]);
        }
        assert(idx - 1 < s2.len() ==> x <= s2[idx - 1]);
        lemma_insert_sorted_at(x, s2, idx - 1);
        assert(insert_sorted_spec(x, s) == seq![s[0]] + insert_sorted_spec(x, s2));
        assert(seq![s[0]] + (s2.take(idx - 1) + seq![x] + s2.skip(idx - 1)) =~= s.take(idx)
            + seq![x] + s.skip(idx));
    }
}

/// There is a repeated vertex at or before position `i`.
pub open spec fn dup_at(s: Seq<usize>, i: int) -> bool {
    exists|j: int| 0 <= j < i && s[j] == s[i]
}

/// Some vertex repeats.
pub open spec fn has_dup(s: Seq<usize>) -> bool {
    exists|i: int| 0 <= i < s.len() && dup_at(s, i)
}

/// The first position whose vertex appeared before.
pub open spec fn first_dup(s: Seq<usize>) -> int {
    choose|i: int|
        0 <= i < s.len() && dup_at(s, i) && (forall|i2: int| 0 <= i2 < i ==> !dup_at(s, i2))
}

/// What validation reports for a vertex list: nothing, the empty defect,
/// or the first repeated vertex.
pub open spec fn simplex_error(s: Seq<usize>) -> Option<SimplicialComplexError> {
    if s.len() == 0 {
        Some(SimplicialComplexError::InvalidSimplex { duplicate: None })
    } else if has_dup(s) {
        Some(SimplicialComplexError::InvalidSimplex { duplicate: Some(s[first_dup(s)]) })
    } else {
        None
    }
}

/// In a strictly ascending sequence, earlier members are strictly below
/// later ones.
pub proof fn lemma_strict_ascending_distinct(s: Seq<usize>, b: int, a: int)
    requires
        forall|p: int| 0 < p < s.len() ==> s[p - 1] < #[trigger] s[p],
        0 <= b < a < s.len(),
    ensures
        s[b] < s[a],
    decreases a - b,
{
    if b < a - 1 {
        lemma_strict_ascending_distinct(s, b, a - 1);
    }
}

/// A well-formed simplex: at least one vertex, no repeats.
pub open spec fn simplex_valid(s: Seq<usize>) -> bool {
    s.len() > 0 && (forall|i: int, j: int| 0 <= j < i < s.len() ==> s[j] != s[i])
}

impl Clone for Simplex {
    /// Clones the simplex, preserving its vertices.
    fn clone(&self) -> (r: Self)
        ensures
            r.vertices@ == self.vertices@,
    {
        let mut vertices: Vec<usize> = Vec::new();
        let mut t: usize = 0;
        while t < self.vertices.len()
            invariant
                t <= self.vertices@.len(),
                vertices@ == self.vertices@.take(t as int),
            decreases self.vertices@.len() - t,
        {
            vertices.push(self.vertices[t]);
            proof {
                assert(vertices@ =~= self.vertices@.take(t + 1));
            }
            t = t + 1;
        }
        proof {
            assert(self.vertices@.take(self.vertices@.len() as int) =~= self.vertices@);
        }
        Simplex { vertices }
    }
}

impl Simplex {
    /// Creates a new simplex, sorting the vertices ascending so that equal
    /// vertex sets get equal representations.
    #[verifier::loop_isolation(false)]
    pub fn new(vertices: Vec<usize>) -> (r: Self)
        ensures
            r.vertices@ == sort_spec(vertices@),
            sorted_ascending(r.vertices@),
            r.vertices@.len() == vertices@.len(),
    {
        let mut sorted: Vec<usize> = Vec::new();
        let mut t: usize = vertices.len();
        // insert back to front, so each step prepends s[t] to the sort of
        // the suffix, mirroring the insertion recurrence
        while t > 0
            invariant
                t <= vertices@.len(),
                sorted@ == sort_spec(vertices@.skip(t as int)),
                sorted_ascending(sorted@),
            decreases t,
        {
            t = t - 1;
            let ghost before = vertices@.skip(t + 1);
            insert_sorted(&mut sorted, vertices[t]);
            proof {
                assert(vertices@.skip(t as int).drop_first() =~= before);
                assert(vertices@.skip(t as int)[0] == vertices@[t as int]);
                lemma_sort_spec(before);
                lemma_insert_sorted(vertices@[t as int], sort_spec(before));
            }
        }
        proof {
            assert(vertices@.skip(0) =~= vertices@);
            lemma_sort_spec(vertices@);
        }
        Simplex { vertices: sorted }
    }

    /// Validates that the simplex has at least one vertex and no repeated
    /// vertex, reporting the first repeat otherwise.
    #[verifier::loop_isolation(false)]
    pub fn validate(&self) -> (r: Result<(), SimplicialComplexError>)
        ensures
            match r {
                Ok(()) => simplex_error(self.vertices@) is None && simplex_valid(self.vertices@),
                Err(e) => Some(e) == simplex_error(self.vertices@),
            },
    {
        let s = &self.vertices;
        if s.len() == 0 {
            return Err(SimplicialComplexError::InvalidSimplex { duplicate: None });
        }
        let mut i: usize = 0;
        while i < s.len()
            invariant
                i <= s@.len(),
                forall|i2: int| 0 <= i2 < i ==> !dup_at(s@, i2),
            decreases s@.len() - i,
        {
            let mut j: usize = 0;
            while j < i
                invariant
                    j <= i < s@.len(),
                    forall|q: int| 0 <= q < j ==> s@[q] != s@[i as int],
                decreases i - j,
            {
                if s[j] == s[i] {
                    proof {
                        assert(dup_at(s@, i as int));
                        assert(has_dup(s@));
                        let f = first_dup(s@);
                        assert(0 <= (i as int) < s@.len() && dup_at(s@, i as int) && (forall|
                            i2: int|
                            0 <= i2 < i as int ==> !dup_at(s@, i2)));
                        assert(0 <= f < s@.len() && dup_at(s@, f) && (forall|i2: int|
                            0 <= i2 < f ==> !dup_at(s@, i2)));
                        assert(f == i as int) by {
                            if f < i as int {
                                assert(!dup_at(s@, f));
                            }
                            if f > i as int {
                                assert(!dup_at(s@, i as int));
                            }
                        }
                    }
                    return Err(SimplicialComplexError::InvalidSimplex {
                        duplicate: Some(s[i]),
                    });
                }
                j = j + 1;
            }
            proof {
                assert(!dup_at(s@, i as int));
            }
            i = i + 1;
        }
        proof {
            assert(!has_dup(s@));
            assert forall|a: int, b: int| 0 <= b < a < s@.len() implies s@[b] != s@[a] by {
                if s@[b] == s@[a] {
                    assert(dup_at(s@, a));
                }
            }
        }
        Ok(())
    }
}

impl Chain for Simplex {
    /// Dimension: one less than the number of vertices.
    open spec fn spec_dim(&self) -> nat {
        (self.vertices@.len() - 1) as nat
    }

    /// A simplex has a dimension as soon as it has a vertex.
    open spec fn dim_wf(&self) -> bool {
        self.vertices@.len() >= 1
    }

    fn dim(&self) -> (d: usize) {
        self.vertices.len() - 1
    }
}


/// Strict order on decorated keys: by level, then by original position, so
/// equal levels keep their input order (the documented tie-break).
pub open spec fn pair_lt(levels: Seq<u64>, a: usize, b: usize) -> bool {
    levels[a as int] < levels[b as int] || (levels[a as int] == levels[b as int] && a < b)
}

/// `perm` lists every input position exactly once, ordered by filtration
/// level with ties kept in input order.
pub open spec fn stable_by_level(perm: Seq<usize>, levels: Seq<u64>) -> bool {
    &&& perm.len() == levels.len()
    &&& forall|i: int| 0 <= i < perm.len() ==> (#[trigger] perm[i]) < levels.len()
    &&& forall|v: usize| v < levels.len() ==> perm.contains(v)
    &&& forall|i: int, j: int| 0 <= i < j < perm.len() ==> pair_lt(levels, perm[i], perm[j])
}

/// In a stable permutation distinct positions hold distinct values.
proof fn lemma_stable_perm_injective(perm: Seq<usize>, levels: Seq<u64>, a: int, b: int)
    requires
        stable_by_level(perm, levels),
        0 <= a < b < perm.len(),
    ensures
        perm[a] != perm[b],
{
    assert(pair_lt(levels, perm[a], perm[b]));
}

/// The stable permutation by level is unique: the constructor's contract
/// determines the sorted order completely.
pub proof fn lemma_stable_perm_unique(levels: Seq<u64>, p1: Seq<usize>, p2: Seq<usize>)
    requires
        stable_by_level(p1, levels),
        stable_by_level(p2, levels),
    ensures
        p1 == p2,
{
    let n = levels.len() as int;
    lemma_stable_perm_agree(levels, p1, p2, n);
    assert(p1 =~= p2);
}

/// Working backwards from the end, the two stable permutations agree from
/// position `t` on; the next position down holds, in both, the greatest
/// remaining value under the level-then-position order.
proof fn lemma_stable_perm_agree(levels: Seq<u64>, p1: Seq<usize>, p2: Seq<usize>, t: int)
    requires
        stable_by_level(p1, levels),
        stable_by_level(p2, levels),
        0 <= t <= levels.len(),
        forall|q: int| t <= q < levels.len() ==> p1[q] == p2[q],
    ensures
        forall|q: int| 0 <= q < levels.len() ==> p1[q] == p2[q],
    decreases t,
{
    let n = levels.len() as int;
    if t > 0 {
        let v1 = p1[t - 1];
        let v2 = p2[t - 1];
        // v2 sits somewhere in p1; if it sat in the common tail, p2 would
        // repeat it, so it sits at or before t - 1 and cannot beat v1
        assert(p1.contains(v2));
        let q1 = choose|q1: int| 0 <= q1 < p1.len() && p1[q1] == v2;
        assert(q1 <= t - 1) by {
            if q1 > t - 1 {
                assert(p2[q1] == v2);
                lemma_stable_perm_injective(p2, levels, t - 1, q1);
            }
        }
        assert(v2 == v1 || pair_lt(levels, v2, v1)) by {
            if q1 < t - 1 {
                assert(pair_lt(levels, p1[q1], p1[t - 1]));
            }
        }
        assert(p2.contains(v1));
        let q2 = choose|q2: int| 0 <= q2 < p2.len() && p2[q2] == v1;
        assert(q2 <= t - 1) by {
            if q2 > t - 1 {
                assert(p1[q2] == v1);
                lemma_stable_perm_injective(p1, levels, t - 1, q2);
            }
        }
        assert(v1 == v2 || pair_lt(levels, v1, v2)) by {
            if q2 < t - 1 {
                assert(pair_lt(levels, p2[q2], p2[t - 1]));
            }
        }
        assert(v1 == v2);
        lemma_stable_perm_agree(levels, p1, p2, t - 1);
    }
}

/// Stable insertion sort of the positions `0 .. levels.len()` by level.
#[verifier::loop_isolation(false)]
#[verifier::rlimit(100)]
fn sort_indices_by_level(levels: &Vec<u64>) -> (perm: Vec<usize>)
    ensures
        stable_by_level(perm@, levels@),
{
    let n = levels.len();
    let mut perm: Vec<usize> = Vec::new();
    let mut t: usize = 0;
    while t < n
        invariant
            t <= n,
            perm@.len() == t,
            forall|q: int| 0 <= q < t ==> #[trigger] perm@[q] == q,
        decreases n - t,
    {
        perm.push(t);
        t = t + 1;
    }
    proof {
        assert forall|v: usize| v < n implies perm@.contains(v) by {
            assert(perm@[v as int] == v);
        }
    }
    if n == 0 {
        return perm;
    }
    let mut i: usize = 1;
    while i < n
        invariant
            1 <= i <= n,
            perm@.len() == n,
            forall|q: int| 0 <= q < n ==> (#[trigger] perm@[q]) < n,
            forall|v: usize| v < n ==> perm@.contains(v),
            forall|q: int| i <= q < n ==> #[trigger] perm@[q] == q,
            forall|q: int| 0 <= q < i ==> (#[trigger] perm@[q]) < i,
            forall|a: int, b: int| 0 <= a < b < i ==> pair_lt(levels@, perm@[a], perm@[b]),
        decreases n - i,
    {
        let mut j: usize = i;
        while j > 0 && levels[perm[j - 1]] > levels[perm[j]]
            invariant
                0 <= j <= i < n,
                perm@.len() == n,
                forall|q: int| 0 <= q < n ==> (#[trigger] perm@[q]) < n,
                forall|v: usize| v < n ==> perm@.contains(v),
                forall|q: int| i < q < n ==> #[trigger] perm@[q] == q,
                perm@[j as int] == i,
                forall|q: int| 0 <= q <= i && q != j ==> (#[trigger] perm@[q]) < i,
                forall|a: int, b: int|
                    0 <= a < b <= i && a != j && b != j ==> pair_lt(levels@, perm@[a], perm@[b]),
                forall|b: int| j < b <= i ==> pair_lt(levels@, perm@[j as int], perm@[b]),
            decreases j,
        {
            let ghost p0 = perm@;
            let a = perm[j - 1];
            let b = perm[j];
            perm.set(j - 1, b);
            perm.set(j, a);
            proof {
                assert forall|v: usize| v < n implies perm@.contains(v) by {
                    assert(p0.contains(v));
                    let q = choose|q: int| 0 <= q < p0.len() && p0[q] == v;
                    if q == j - 1 {
                        assert(perm@[j as int] == v);
                    } else if q == j {
                        assert(perm@[j - 1] == v);
                    } else {
                        assert(perm@[q] == v);
                    }
                }
            }
            j = j - 1;
        }
        proof {
            // prefix 0 ..= i is now sorted: the stop condition puts the
            // moving element above its left neighbour (ties break by the
            // moving element being the largest original position)
            assert forall|a: int, b: int| 0 <= a < b <= i implies pair_lt(
                levels@,
                perm@[a],
                perm@[b],
            ) by {
                if b == j as int && j > 0 {
                    assert(levels@[perm@[j - 1] as int] <= levels@[perm@[j as int] as int]);
                    if a == j - 1 {
                        assert(perm@[a] < i);
                        assert(pair_lt(levels@, perm@[a], perm@[b]));
                    } else {
                        assert(pair_lt(levels@, perm@[a], perm@[j - 1]));
                        assert(perm@[j - 1] < i && perm@[a] < i);
                        assert(pair_lt(levels@, perm@[a], perm@[b]));
                    }
                }
            }
        }
        i = i + 1;
    }
    perm
}

/// The filtered simplicial complex: simplices ascending by filtration
/// level (stable in the input order on ties), with one level key per
/// simplex.
#[derive(Debug)]
pub struct SimplicialComplex {
    /// Simplices in the complex, ordered by filtration level.
    pub simplices: Vec<Simplex>,
    /// Filtration level keys, one per simplex, ascending.
    pub levels: Vec<u64>,
}

/// Well-formedness: as many levels as simplices, every simplex valid,
/// levels ascending.
pub open spec fn complex_wf(c: SimplicialComplex) -> bool {
    &&& c.simplices@.len() == c.levels@.len()
    &&& forall|i: int|
        0 <= i < c.simplices@.len() ==> simplex_valid((#[trigger] c.simplices@[i]).vertices@)
    &&& forall|i: int| 0 < i < c.levels@.len() ==> c.levels@[i - 1] <= #[trigger] c.levels@[i]
}

/// Simplex `i` of the input list is malformed.
pub open spec fn invalid_at(ss: Seq<Simplex>, i: int) -> bool {
    simplex_error(ss[i].vertices@) is Some
}

/// Some input simplex is malformed.
pub open spec fn has_invalid(ss: Seq<Simplex>) -> bool {
    exists|i: int| 0 <= i < ss.len() && invalid_at(ss, i)
}

/// The first malformed input simplex.
pub open spec fn first_invalid(ss: Seq<Simplex>) -> int {
    choose|i: int|
        0 <= i < ss.len() && invalid_at(ss, i) && (forall|i2: int|
            0 <= i2 < i ==> !invalid_at(ss, i2))
}

/// The face of a vertex list obtained by deleting position `p`.
pub open spec fn face_of(vs: Seq<usize>, p: int) -> Seq<usize> {
    vs.remove(p)
}

/// The position in the complex of the simplex with exactly these vertices:
/// the last matching position (the one an index rebuilt by repeated
/// insertion would report), or `None`.
pub open spec fn face_lookup(ss: Seq<Simplex>, face: Seq<usize>) -> Option<int> {
    if exists|j: int| 0 <= j < ss.len() && (#[trigger] ss[j].vertices@) == face {
        Some(
            choose|j: int|
                0 <= j < ss.len() && (#[trigger] ss[j].vertices@) == face && (forall|j2: int|
                    j < j2 < ss.len() ==> ss[j2].vertices@ != face),
        )
    } else {
        None
    }
}

/// Deleting vertex position `p` of chain `i` leads outside the complex.
pub open spec fn missing_at(c: SimplicialComplex, i: int, p: int) -> bool {
    c.simplices@[i].vertices@.len() > 1 && face_lookup(
        c.simplices@,
        face_of(c.simplices@[i].vertices@, p),
    ) is None
}

/// The first vertex position of chain `i` whose face is missing.
pub open spec fn first_missing(c: SimplicialComplex, i: int) -> int {
    choose|p: int|
        0 <= p < c.simplices@[i].vertices@.len() && missing_at(c, i, p) && (forall|p2: int|
            0 <= p2 < p ==> !missing_at(c, i, p2))
}

/// The boundary indices contributed by the first `t` vertex deletions of
/// chain `i`.
pub open spec fn face_set_upto(c: SimplicialComplex, i: int, t: int) -> Set<int>
    decreases t,
{
    if t <= 0 {
        Set::<int>::empty()
    } else {
        let pre = face_set_upto(c, i, t - 1);
        if c.simplices@[i].vertices@.len() > 1 {
            match face_lookup(c.simplices@, face_of(c.simplices@[i].vertices@, t - 1)) {
                Some(e) => pre.insert(e),
                None => pre,
            }
        } else {
            pre
        }
    }
}

/// The boundary of chain `i` over GF(2): the positions of its
/// codimension-1 faces, or the first closure defect found.
pub open spec fn spec_boundary(c: SimplicialComplex, i: int) -> Result<Set<int>, HomologyError> {
    let vs = c.simplices@[i].vertices@;
    if exists|p: int| 0 <= p < vs.len() && missing_at(c, i, p) {
        Err(
            HomologyError::MissingFace {
                chain: i as usize,
                vertex: vs[first_missing(c, i)],
            },
        )
    } else {
        Ok(face_set_upto(c, i, vs.len() as int))
    }
}

/// Compares two index vectors member by member.
#[verifier::loop_isolation(false)]
fn vec_eq_usize(a: &Vec<usize>, b: &Vec<usize>) -> (r: bool)
    ensures
        r <==> a@ == b@,
{
    if a.len() != b.len() {
        return false;
    }
    let mut t: usize = 0;
    while t < a.len()
        invariant
            t <= a@.len(),
            a@.len() == b@.len(),
            forall|q: int| 0 <= q < t ==> a@[q] == b@[q],
        decreases a@.len() - t,
    {
        if a[t] != b[t] {
            return false;
        }
        t = t + 1;
    }
    proof {
        assert(a@ =~= b@);
    }
    true
}

/// Inserts a fresh index into a strictly ascending vector.
#[verifier::loop_isolation(false)]
fn insert_index(v: Vec<usize>, x: usize) -> (r: Vec<usize>)
    requires
        sorted_distinct(v@),
        !index_set(v@).contains(x as int),
    ensures
        sorted_distinct(r@),
        index_set(r@) == index_set(v@).insert(x as int),
{
    proof {
        crate::homology::lemma_index_set_members(v@);
    }
    let mut v = v;
    let mut idx: usize = 0;
    while idx < v.len() && v[idx] < x
        invariant
            idx <= v@.len(),
            forall|q: int| 0 <= q < idx ==> #[trigger] v@[q] < x,
        decreases v@.len() - idx,
    {
        idx = idx + 1;
    }
    let ghost v0 = v@;
    proof {
        if idx < v0.len() {
            assert(v0[idx as int] != x);
            assert(v0[idx as int] > x);
        }
    }
    v.insert(idx, x);
    proof {
        assert(v@ =~= v0.take(idx as int).push(x) + v0.skip(idx as int));
        crate::homology::lemma_index_set_members(v@);
        assert forall|p: int| 0 < p < v@.len() implies v@[p - 1] < #[trigger] v@[p] by {
            if p < idx as int {
            } else if p == idx as int {
                assert(v@[p] == x && v@[p - 1] == v0[p - 1]);
            } else if p == idx + 1 {
                assert(v@[p] == v0[idx as int] && v@[p - 1] == x);
            } else {
                assert(v@[p] == v0[p - 1] && v@[p - 1] == v0[p - 2]);
            }
        }
        assert forall|e: int|
            index_set(v@).contains(e) implies index_set(v0).insert(x as int).contains(e) by {
            let p = choose|p: int| 0 <= p < v@.len() && v@[p] == e;
            if p < idx as int {
                assert(v0[p] == e);
            } else if p == idx as int {
            } else {
                assert(v0[p - 1] == e);
            }
        }
        assert forall|e: int|
            index_set(v0).insert(x as int).contains(e) implies index_set(v@).contains(e) by {
            if e == x as int {
                assert(v@[idx as int] == x);
            } else {
                let p = choose|p: int| 0 <= p < v0.len() && v0[p] == e;
                if p < idx as int {
                    assert(v@[p] == e);
                } else {
                    assert(v@[p + 1] == e);
                }
            }
        }
        assert(index_set(v@) =~= index_set(v0).insert(x as int));
    }
    v
}

impl SimplicialComplex {
    /// Creates a complex from simplices and their filtration levels:
    /// validates every simplex, then stably sorts the pairs ascending by
    /// level, so equal levels keep their input order.
    #[verifier::loop_isolation(false)]
    #[verifier::rlimit(100)]
    pub fn new(simplices: Vec<Simplex>, levels: Vec<u64>) -> (r: Result<
        SimplicialComplex,
        SimplicialComplexError,
    >)
        ensures
            match r {
                Ok(c) => {
                    &&& simplices@.len() == levels@.len()
                    &&& complex_wf(c)
                    &&& exists|perm: Seq<usize>|
                        stable_by_level(perm, levels@) && c.simplices@.len() == levels@.len() && (
                        forall|t: int|
                            0 <= t < perm.len() ==> (#[trigger] c.simplices@[t]).vertices@
                                == simplices@[perm[t] as int].vertices@ && c.levels@[t]
                                == levels@[perm[t] as int])
                },
                Err(SimplicialComplexError::LengthMismatch { n_simplices, n_levels }) => {
                    &&& n_simplices == simplices@.len()
                    &&& n_levels == levels@.len()
                    &&& simplices@.len() != levels@.len()
                },
                Err(e) => {
                    &&& simplices@.len() == levels@.len()
                    &&& has_invalid(simplices@)
                    &&& Some(e) == simplex_error(
                        simplices@[first_invalid(simplices@)].vertices@,
                    )
                },
            },
    {
        if simplices.len() != levels.len() {
            return Err(
                SimplicialComplexError::LengthMismatch {
                    n_simplices: simplices.len(),
                    n_levels: levels.len(),
                },
            );
        }
        let mut i: usize = 0;
        while i < simplices.len()
            invariant
                i <= simplices@.len(),
                forall|j: int| 0 <= j < i ==> !invalid_at(simplices@, j),
            decreases simplices@.len() - i,
        {
            match simplices[i].validate() {
                Err(e) => {
                    proof {
                        assert(invalid_at(simplices@, i as int));
                        assert(has_invalid(simplices@));
                        let f = first_invalid(simplices@);
                        assert(0 <= (i as int) < simplices@.len() && invalid_at(
                            simplices@,
                            i as int,
                        ) && (forall|i2: int| 0 <= i2 < i as int ==> !invalid_at(simplices@, i2)));
                        assert(0 <= f < simplices@.len() && invalid_at(simplices@, f) && (
                        forall|i2: int| 0 <= i2 < f ==> !invalid_at(simplices@, i2)));
                        assert(f == i as int) by {
                            if f < i as int {
                                assert(!invalid_at(simplices@, f));
                            }
                            if f > i as int {
                                assert(!invalid_at(simplices@, i as int));
                            }
                        }
                    }
                    return Err(e);
                },
                Ok(()) => {},
            }
            i = i + 1;
        }
        let perm = sort_indices_by_level(&levels);
        let ghost permv = perm@;
        let n = simplices.len();
        let mut out_s: Vec<Simplex> = Vec::new();
        let mut out_l: Vec<u64> = Vec::new();
        let mut t: usize = 0;
        while t < n
            invariant
                t <= n,
                n == simplices@.len() == levels@.len(),
                perm@ == permv,
                stable_by_level(permv, levels@),
                out_s@.len() == t,
                out_l@.len() == t,
                forall|q: int|
                    0 <= q < t ==> (#[trigger] out_s@[q]).vertices@ == simplices@[permv[q] as int].vertices@,
                forall|q: int| 0 <= q < t ==> #[trigger] out_l@[q] == levels@[permv[q] as int],
            decreases n - t,
        {
            let pt = perm[t];
            out_s.push(simplices[pt].clone());
            out_l.push(levels[pt]);
            t = t + 1;
        }
        let c = SimplicialComplex { simplices: out_s, levels: out_l };
        proof {
            assert forall|q: int|
                0 <= q < c.simplices@.len() implies simplex_valid(
                (#[trigger] c.simplices@[q]).vertices@,
            ) by {
                assert(!invalid_at(simplices@, permv[q] as int));
                let vsq = simplices@[permv[q] as int].vertices@;
                assert(simplex_error(vsq) is None);
                assert(vsq.len() > 0 && !has_dup(vsq));
                assert forall|a: int, b: int| 0 <= b < a < vsq.len() implies vsq[b] != vsq[a] by {
                    if vsq[b] == vsq[a] {
                        assert(dup_at(vsq, a));
                        assert(has_dup(vsq));
                    }
                }
                assert(simplex_valid(vsq));
            }
            assert forall|q: int| 0 < q < c.levels@.len() implies c.levels@[q - 1]
                <= #[trigger] c.levels@[q] by {
                assert(pair_lt(levels@, permv[q - 1], permv[q]));
            }
            assert(complex_wf(c));
        }
        Ok(c)
    }

    /// Finds the last position holding a simplex with exactly these
    /// vertices.
    #[verifier::loop_isolation(false)]
    fn find_face(&self, face: &Vec<usize>) -> (r: Option<usize>)
        ensures
            match r {
                Some(j) => j < self.simplices@.len() && face_lookup(self.simplices@, face@)
                    == Some(j as int),
                None => face_lookup(self.simplices@, face@) is None,
            },
    {
        let mut j: usize = self.simplices.len();
        while j > 0
            invariant
                j <= self.simplices@.len(),
                forall|j2: int|
                    j <= j2 < self.simplices@.len() ==> (#[trigger] self.simplices@[j2]).vertices@
                        != face@,
            decreases j,
        {
            j = j - 1;
            if vec_eq_usize(&self.simplices[j].vertices, face) {
                proof {
                    let ss = self.simplices@;
                    assert(ss[j as int].vertices@ == face@);
                    let c = choose|jc: int|
                        0 <= jc < ss.len() && (#[trigger] ss[jc].vertices@) == face@ && (forall|
                            j2: int|
                            jc < j2 < ss.len() ==> ss[j2].vertices@ != face@);
                    assert(c == j as int) by {
                        if c < j as int {
                            assert(ss[j as int].vertices@ != face@);
                        }
                        if c > j as int {
                            assert(ss[c].vertices@ != face@);
                        }
                    }
                }
                return Some(j);
            }
        }
        None
    }

    /// Returns the position of a simplex in the complex, if present (the
    /// last matching position when the complex holds duplicates).
    pub fn index_of(&self, simplex: &Simplex) -> (r: Option<usize>)
        ensures
            match r {
                Some(j) => j < self.simplices@.len() && face_lookup(
                    self.simplices@,
                    simplex.vertices@,
                ) == Some(j as int),
                None => face_lookup(self.simplices@, simplex.vertices@) is None,
            },
    {
        self.find_face(&simplex.vertices)
    }

    /// Computes the persistence intervals of this complex: one list per
    /// dimension, finite intervals in emission order followed by the
    /// unbounded ones in index order, exactly as the reduction engine
    /// states them over the complex's abstract model.
    pub fn persistence_intervals(&self) -> (r: Result<
        Vec<Vec<PersistenceInterval>>,
        HomologyError,
    >)
        requires
            complex_wf(*self),
        ensures
            match r {
                Ok(out) => {
                    &&& crate::homology::models_ok(self.model())
                    &&& out@.len() == crate::homology::max_dim_of(self.model()) + 1
                    &&& forall|d: int|
                        0 <= d < out@.len() ==> crate::homology::all_intervals_match(
                            (#[trigger] out@[d])@,
                            crate::homology::intervals_spec(self.model(), d as nat),
                        )
                },
                Err(e) => crate::homology::has_defect(self.model()) && self.model()[
                    crate::homology::first_defect(self.model())].bnd == Err::<
                    Set<int>,
                    HomologyError,
                >(e),
            },
    {
        crate::homology::persistence_intervals(self)
    }
}

/// Distinct deletion positions of a duplicate-free vertex list give
/// distinct faces.
proof fn lemma_faces_distinct(vs: Seq<usize>, p1: int, p2: int)
    requires
        forall|i: int, j: int| 0 <= j < i < vs.len() ==> vs[j] != vs[i],
        0 <= p1 < p2 < vs.len(),
    ensures
        face_of(vs, p1) != face_of(vs, p2),
{
    let f1 = face_of(vs, p1);
    let f2 = face_of(vs, p2);
    assert(f1.len() == f2.len());
    assert(f1[p1] == vs[p1 + 1]);
    assert(f2[p1] == vs[p1]);
    assert(vs[p1] != vs[p1 + 1]);
}

/// Among the first `t` positions there is a match and none after `t`;
/// returns the last matching position.
proof fn lemma_last_match(ss: Seq<Simplex>, f: Seq<usize>, t: int) -> (j: int)
    requires
        0 <= t <= ss.len(),
        exists|q: int| 0 <= q < t && (#[trigger] ss[q].vertices@) == f,
        forall|q: int| t <= q < ss.len() ==> (#[trigger] ss[q].vertices@) != f,
    ensures
        0 <= j < ss.len(),
        ss[j].vertices@ == f,
        forall|j2: int| j < j2 < ss.len() ==> (#[trigger] ss[j2].vertices@) != f,
    decreases t,
{
    if ss[t - 1].vertices@ == f {
        t - 1
    } else {
        lemma_last_match(ss, f, t - 1)
    }
}

/// What a successful face lookup means: the reported position holds
/// exactly those vertices, and no later position does.
proof fn lemma_face_lookup_some(ss: Seq<Simplex>, f: Seq<usize>, e: int)
    requires
        face_lookup(ss, f) == Some(e),
    ensures
        0 <= e < ss.len(),
        ss[e].vertices@ == f,
        forall|j2: int| e < j2 < ss.len() ==> (#[trigger] ss[j2].vertices@) != f,
{
    assert(exists|j: int| 0 <= j < ss.len() && (#[trigger] ss[j].vertices@) == f) by {
        if !(exists|j: int| 0 <= j < ss.len() && (#[trigger] ss[j].vertices@) == f) {
            assert(face_lookup(ss, f) is None);
        }
    }
    let jw = lemma_last_match(ss, f, ss.len() as int);
    assert(0 <= jw < ss.len() && (#[trigger] ss[jw].vertices@) == f && (forall|j2: int|
        jw < j2 < ss.len() ==> (#[trigger] ss[j2].vertices@) != f));
}

/// Every accumulated boundary index comes from one of the earlier vertex
/// deletions.
proof fn lemma_upto_members(c: SimplicialComplex, i: int, t: int)
    ensures
        forall|e: int|
            #[trigger] face_set_upto(c, i, t).contains(e) ==> exists|q: int|
                0 <= q < t && face_lookup(
                    c.simplices@,
                    face_of(c.simplices@[i].vertices@, q),
                ) == Some(e),
    decreases t,
{
    if t > 0 {
        lemma_upto_members(c, i, t - 1);
        let vs = c.simplices@[i].vertices@;
        assert forall|e: int| #[trigger]
            face_set_upto(c, i, t).contains(e) implies exists|q: int|
            0 <= q < t && face_lookup(c.simplices@, face_of(vs, q)) == Some(e) by {
            if face_set_upto(c, i, t - 1).contains(e) {
                let q = choose|q: int|
                    0 <= q < t - 1 && face_lookup(c.simplices@, face_of(vs, q)) == Some(e);
                assert(0 <= q < t && face_lookup(c.simplices@, face_of(vs, q)) == Some(e));
            } else {
                assert(vs.len() > 1 && face_lookup(c.simplices@, face_of(vs, t - 1)) == Some(e));
                assert(0 <= t - 1 < t && face_lookup(c.simplices@, face_of(vs, t - 1)) == Some(
                    e));
            }
        }
    }
}

impl ChainComplex<Simplex> for SimplicialComplex {
    /// Per chain: its dimension, level key, and boundary index set (or the
    /// first closure defect its lookup reports).
    open spec fn model(&self) -> Seq<ChainModel> {
        Seq::new(
            self.simplices@.len(),
            |i: int|
                ChainModel {
                    dim: (self.simplices@[i].vertices@.len() - 1) as nat,
                    level: self.levels@[i],
                    bnd: spec_boundary(*self, i),
                },
        )
    }

    open spec fn wf(&self) -> bool {
        complex_wf(*self)
    }

    fn len(&self) -> (n: usize) {
        self.simplices.len()
    }

    fn chain(&self, index: usize) -> (c: &Simplex) {
        &self.simplices[index]
    }

    fn chains(&self) -> (cs: &Vec<Simplex>) {
        &self.simplices
    }

    fn filtration_level(&self, index: usize) -> (l: u64) {
        self.levels[index]
    }

    /// The codimension-1 faces of the simplex at `index`, by deleting one
    /// vertex at a time, reported as a strictly ascending index vector.
    #[verifier::loop_isolation(false)]
    #[verifier::rlimit(100)]
    fn boundary(&self, index: usize) -> (b: Result<Vec<usize>, HomologyError>) {
        let s: &Simplex = &self.simplices[index];
        let k = s.vertices.len();
        let ghost vs = s.vertices@;
        let mut acc: Vec<usize> = Vec::new();
        let mut p: usize = 0;
        proof {
            crate::homology::lemma_index_set_members(acc@);
            assert(index_set(acc@) =~= face_set_upto(*self, index as int, 0));
        }
        while p < k
            invariant
                p <= k,
                k == vs.len(),
                forall|q: int| 0 <= q < p ==> !missing_at(*self, index as int, q),
                sorted_distinct(acc@),
                index_set(acc@) == face_set_upto(*self, index as int, p as int),
                forall|e: int|
                    #[trigger] index_set(acc@).contains(e) ==> 0 <= e < self.simplices@.len(),
            decreases k - p,
        {
            if k > 1 {
                let mut face: Vec<usize> = Vec::new();
                let mut q: usize = 0;
                while q < p
                    invariant
                        q <= p < k,
                        k == vs.len(),
                        face@ == vs.take(q as int),
                    decreases p - q,
                {
                    face.push(s.vertices[q]);
                    proof {
                        assert(face@ =~= vs.take(q + 1));
                    }
                    q = q + 1;
                }
                let mut q2: usize = p + 1;
                while q2 < k
                    invariant
                        p < q2 <= k,
                        k == vs.len(),
                        face@ == vs.take(p as int) + vs.subrange(p + 1, q2 as int),
                    decreases k - q2,
                {
                    face.push(s.vertices[q2]);
                    proof {
                        assert(face@ =~= vs.take(p as int) + vs.subrange(p + 1, q2 + 1));
                    }
                    q2 = q2 + 1;
                }
                proof {
                    assert(face@ =~= face_of(vs, p as int));
                }
                match self.find_face(&face) {
                    None => {
                        proof {
                            assert(missing_at(*self, index as int, p as int));
                            let f = first_missing(*self, index as int);
                            assert(0 <= (p as int) < vs.len() && missing_at(
                                *self,
                                index as int,
                                p as int,
                            ) && (forall|p2: int|
                                0 <= p2 < p as int ==> !missing_at(*self, index as int, p2)));
                            assert(0 <= f < vs.len() && missing_at(*self, index as int, f) && (
                            forall|p2: int| 0 <= p2 < f ==> !missing_at(*self, index as int, p2)));
                            assert(f == p as int) by {
                                if f < p as int {
                                    assert(!missing_at(*self, index as int, f));
                                }
                                if f > p as int {
                                    assert(!missing_at(*self, index as int, p as int));
                                }
                            }
                        }
                        return Err(
                            HomologyError::MissingFace { chain: index, vertex: s.vertices[p] },
                        );
                    },
                    Some(fi) => {
                        proof {
                            crate::homology::lemma_index_set_members(acc@);
                            assert(!index_set(acc@).contains(fi as int)) by {
                                lemma_upto_members(*self, index as int, p as int);
                                if index_set(acc@).contains(fi as int) {
                                    let q = choose|q: int|
                                        0 <= q < p && face_lookup(
                                            self.simplices@,
                                            face_of(vs, q),
                                        ) == Some(fi as int);
                                    lemma_face_lookup_some(
                                        self.simplices@,
                                        face_of(vs, q),
                                        fi as int,
                                    );
                                    lemma_face_lookup_some(
                                        self.simplices@,
                                        face_of(vs, p as int),
                                        fi as int,
                                    );
                                    assert(simplex_valid(vs));
                                    lemma_faces_distinct(vs, q, p as int);
                                }
                            }
                        }
                        let ghost acc0 = acc@;
                        acc = insert_index(acc, fi);
                        proof {
                            assert(index_set(acc@) =~= face_set_upto(
                                *self,
                                index as int,
                                p + 1,
                            ));
                            crate::homology::lemma_index_set_members(acc@);
                        }
                    },
                }
            } else {
                proof {
                    assert(face_set_upto(*self, index as int, p + 1) == face_set_upto(
                        *self,
                        index as int,
                        p as int,
                    ));
                    assert(!missing_at(*self, index as int, p as int));
                }
            }
            p = p + 1;
        }
        proof {
            assert(!(exists|p2: int| 0 <= p2 < vs.len() && missing_at(*self, index as int, p2)));
            assert(spec_boundary(*self, index as int) == Ok::<Set<int>, HomologyError>(
                face_set_upto(*self, index as int, vs.len() as int),
            ));
            crate::homology::lemma_index_set_members(acc@);
            assert forall|t2: int| 0 <= t2 < acc@.len() implies #[trigger] acc@[t2]
                < self.model().len() by {
                assert(index_set(acc@).contains(acc@[t2] as int));
            }
        }
        Ok(acc)
    }
}

} // verus!
