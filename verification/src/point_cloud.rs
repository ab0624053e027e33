//! Vietoris-Rips construction over a pairwise-distance matrix.
//!
//! The matrix holds filtration-level keys (`u64`) for the pairwise
//! distances of a point cloud: symmetric, zero on the diagonal.  A simplex
//! enters the complex exactly when its diameter -- the greatest pairwise
//! key among its vertices -- is at most the threshold, and its filtration
//! level is that diameter.

use crate::combinatorics::{
    ascending_in, combos_from, combos_select, generate_subsets, min_nat, nested_view,
    subsets_select, subsets_sizes,
};
use crate::homology::{copy_indices, ChainComplex};
use crate::simplicial_complex::{
    complex_wf, face_of, stable_by_level, Simplex, SimplicialComplex,
};
use vstd::prelude::*;

verus! {

/// Why a point-cloud operation was rejected.
#[derive(Debug, PartialEq, Eq, Structural)]
pub enum PointCloudError {
    /// The point cloud holds no points.
    EmptyCloud,
    /// Two points have different dimensions.
    DimensionMismatch { expected: usize, got: usize },
    /// The requested maximum simplex dimension is not below the number of
    /// points.
    InvalidDimension { max_dimension: usize, n_points: usize },
}

/// A well-formed distance-key matrix: square, symmetric, zero diagonal.
pub open spec fn matrix_wf(d: Seq<Seq<u64>>) -> bool {
    &&& forall|i: int| 0 <= i < d.len() ==> (#[trigger] d[i]).len() == d.len()
    &&& forall|i: int| 0 <= i < d.len() ==> (#[trigger] d[i])[i] == 0
    &&& forall|i: int, j: int| 0 <= i < d.len() && 0 <= j < d.len() ==> (#[trigger] d[i][j]) == d[j][i]
}

/// The point indices `0, 1, ..., n-1`.
pub open spec fn points_seq(n: int) -> Seq<usize> {
    Seq::new(n as nat, |i: int| i as usize)
}

/// Greatest key among the pairs `(s[j], s[q])` with `q < t`.
pub open spec fn row_max(d: Seq<Seq<u64>>, s: Seq<usize>, j: int, t: int) -> u64
    decreases t,
{
    if t <= 0 {
        0
    } else {
        let prev = row_max(d, s, j, t - 1);
        let cand = d[s[j] as int][s[t - 1] as int];
        if cand > prev {
            cand
        } else {
            prev
        }
    }
}

/// Greatest pairwise key among the first `j` members of `s`.
pub open spec fn diameter_upto(d: Seq<Seq<u64>>, s: Seq<usize>, j: int) -> u64
    decreases j,
{
    if j <= 0 {
        0
    } else {
        let prev = diameter_upto(d, s, j - 1);
        let row = row_max(d, s, j - 1, j - 1);
        if row > prev {
            row
        } else {
            prev
        }
    }
}

/// The diameter of a vertex subset: the greatest pairwise distance key
/// among its members, `0` for a singleton.
pub open spec fn diameter(d: Seq<Seq<u64>>, s: Seq<usize>) -> u64 {
    diameter_upto(d, s, s.len() as int)
}

/// Checks at run time that a key matrix is square, symmetric and zero on
/// the diagonal, so unverified callers can test the construction's
/// precondition before relying on it.
#[verifier::loop_isolation(false)]
pub fn is_valid_distance_matrix(d: &Vec<Vec<u64>>) -> (r: bool)
    ensures
        r == matrix_wf(nested_view(d@)),
{
    let ghost dv = nested_view(d@);
    let n = d.len();
    let mut i: usize = 0;
    while i < n
        invariant
            i <= n,
            forall|i2: int| 0 <= i2 < i ==> (#[trigger] dv[i2]).len() == n,
            forall|i2: int| 0 <= i2 < i ==> (#[trigger] dv[i2])[i2] == 0,
            forall|i2: int, j2: int|
                0 <= i2 < i && 0 <= j2 < n ==> (#[trigger] dv[i2][j2]) == dv[j2][i2] || j2 >= i,
        decreases n - i,
    {
        if d[i].len() != n {
            proof {
                assert(dv[i as int].len() != n);
                assert(!matrix_wf(dv));
            }
            return false;
        }
        if d[i][i] != 0 {
            proof {
                assert(dv[i as int][i as int] != 0);
                assert(!matrix_wf(dv));
            }
            return false;
        }
        let mut j: usize = 0;
        while j < i
            invariant
                j <= i < n,
                dv[i as int].len() == n,
                forall|j2: int| 0 <= j2 < j ==> (#[trigger] dv[i as int][j2]) == dv[j2][i as int],
            decreases i - j,
        {
            proof {
                assert(dv[j as int] == d@[j as int]@);
                assert(dv[j as int].len() == n);
            }
            if d[i][j] != d[j][i] {
                proof {
                    assert(dv[i as int][j as int] != dv[j as int][i as int]);
                    assert(!matrix_wf(dv));
                }
                return false;
            }
            j = j + 1;
        }
        i = i + 1;
    }
    proof {
        assert forall|i2: int, j2: int|
            0 <= i2 < n && 0 <= j2 < n implies (#[trigger] dv[i2][j2]) == dv[j2][i2] by {
            if j2 < i2 {
            } else if j2 == i2 {
            } else {
                assert(dv[j2][i2] == dv[i2][j2]);
            }
        }
        assert(matrix_wf(dv));
    }
    true
}

/// Computes the diameter of a subset of points.
#[verifier::loop_isolation(false)]
fn diameter_of(distances: &Vec<Vec<u64>>, s: &Vec<usize>) -> (r: u64)
    requires
        forall|p: int| 0 <= p < s@.len() ==> (#[trigger] s@[p]) < distances@.len(),
        forall|i: int|
            0 <= i < distances@.len() ==> (#[trigger] distances@[i])@.len() == distances@.len(),
    ensures
        r == diameter(nested_view(distances@), s@),
{
    let ghost dv = nested_view(distances@);
    let mut best: u64 = 0;
    let mut j: usize = 0;
    while j < s.len()
        invariant
            j <= s@.len(),
            best == diameter_upto(dv, s@, j as int),
        decreases s@.len() - j,
    {
        let mut q: usize = 0;
        let mut row: u64 = 0;
        while q < j
            invariant
                q <= j < s@.len(),
                row == row_max(dv, s@, j as int, q as int),
            decreases j - q,
        {
            let cand = distances[s[j]][s[q]];
            proof {
                assert(cand == dv[s@[j as int] as int][s@[q as int] as int]);
            }
            if cand > row {
                row = cand;
            }
            q = q + 1;
        }
        if row > best {
            best = row;
        }
        j = j + 1;
    }
    best
}

/// The `(vertices, level)` pairs the Vietoris-Rips construction accepts
/// from the first `t` candidate subsets: nonempty subsets whose diameter
/// is at most the threshold, in generation order.
pub open spec fn rips_upto(
    d: Seq<Seq<u64>>,
    subsets: Seq<Seq<usize>>,
    threshold: u64,
    t: int,
) -> Seq<(Seq<usize>, u64)>
    decreases t,
{
    if t <= 0 {
        Seq::<(Seq<usize>, u64)>::empty()
    } else {
        let pre = rips_upto(d, subsets, threshold, t - 1);
        let s = subsets[t - 1];
        if s.len() > 0 && diameter(d, s) <= threshold {
            pre.push((s, diameter(d, s)))
        } else {
            pre
        }
    }
}

/// The accepted `(vertices, level)` pairs of the Vietoris-Rips complex
/// over `n` points with the given dimension cap and threshold, in
/// generation order (before the stable sort by level).
pub open spec fn rips_selected(d: Seq<Seq<u64>>, n: int, max_dimension: nat, threshold: u64) -> Seq<
    (Seq<usize>, u64),
> {
    let subsets = subsets_select(points_seq(n), max_dimension + 1);
    rips_upto(d, subsets, threshold, subsets.len() as int)
}

/// The level keys of a pair list.
pub open spec fn pair_levels(sel: Seq<(Seq<usize>, u64)>) -> Seq<u64> {
    sel.map_values(|pr: (Seq<usize>, u64)| pr.1)
}

/// `c` is the Vietoris-Rips complex of the matrix `d` with the given
/// parameters: its `(simplex, level)` rows are exactly the accepted
/// subsets, stably sorted by level.
pub open spec fn is_rips_of(
    c: SimplicialComplex,
    d: Seq<Seq<u64>>,
    n: int,
    max_dimension: nat,
    threshold: u64,
) -> bool {
    let sel = rips_selected(d, n, max_dimension, threshold);
    exists|perm: Seq<usize>|
        stable_by_level(perm, pair_levels(sel)) && c.simplices@.len() == sel.len() && (forall|
            t: int|
            0 <= t < perm.len() ==> (#[trigger] c.simplices@[t]).vertices@ == sel[perm[t] as int].0
                && c.levels@[t] == sel[perm[t] as int].1)
}

/// Every non-first entry of the subset enumeration over `n` points is a
/// nonempty strictly ascending sequence of indices below `n`; the first is
/// empty.
pub proof fn lemma_subsets_entries(n: int, m: nat)
    requires
        0 <= n <= usize::MAX,
    ensures
        subsets_select(points_seq(n), m).len() >= 1,
        subsets_select(points_seq(n), m)[0].len() == 0,
        forall|j: int|
            1 <= j < subsets_select(points_seq(n), m).len() ==> {
                let e = #[trigger] subsets_select(points_seq(n), m)[j];
                e.len() >= 1 && (forall|p: int| 0 <= p < e.len() ==> (#[trigger] e[p]) < n) && (
                forall|p: int| 0 < p < e.len() ==> e[p - 1] < #[trigger] e[p])
            },
{
    let pts = points_seq(n);
    lemma_subsets_sizes_entries(n, 1, min_nat(m, pts.len() as nat));
    let tail = subsets_sizes(pts, 1, min_nat(m, pts.len() as nat));
    assert forall|j: int|
        1 <= j < subsets_select(pts, m).len() implies {
        let e = #[trigger] subsets_select(pts, m)[j];
        e.len() >= 1 && (forall|p: int| 0 <= p < e.len() ==> (#[trigger] e[p]) < n) && (forall|
            p: int|
            0 < p < e.len() ==> e[p - 1] < #[trigger] e[p])
    } by {
        assert(subsets_select(pts, m)[j] == tail[j - 1]);
    }
}

/// Helper for [`lemma_subsets_entries`], walking the size groups.
#[verifier::rlimit(100)]
proof fn lemma_subsets_sizes_entries(n: int, s: nat, m: nat)
    requires
        0 <= n <= usize::MAX,
        s >= 1,
    ensures
        forall|j: int|
            0 <= j < subsets_sizes(points_seq(n), s, m).len() ==> {
                let e = #[trigger] subsets_sizes(points_seq(n), s, m)[j];
                e.len() >= 1 && (forall|p: int| 0 <= p < e.len() ==> (#[trigger] e[p]) < n) && (
                forall|p: int| 0 < p < e.len() ==> e[p - 1] < #[trigger] e[p])
            },
    decreases m + 1 - s,
{
    let pts = points_seq(n);
    if s > m || crate::combinatorics::binom(pts.len() as nat, s)
        > crate::combinatorics::ENUMERATION_LIMIT as nat {
    } else {
        lemma_subsets_sizes_entries(n, s + 1, m);
        crate::combinatorics::lemma_combos_from_valid(0, n, s);
        let group = combos_select(pts, s);
        assert forall|j: int|
            0 <= j < group.len() implies {
            let e = #[trigger] group[j];
            e.len() >= 1 && (forall|p: int| 0 <= p < e.len() ==> (#[trigger] e[p]) < n) && (
            forall|p: int| 0 < p < e.len() ==> e[p - 1] < #[trigger] e[p])
        } by {
            let c = combos_from(0, n, s)[j];
            assert(ascending_in(c, 0, n));
            assert(c.len() == s);
            let e = group[j];
            assert(e == c.map_values(|i: int| pts[i]));
            assert forall|p: int| 0 <= p < e.len() implies (#[trigger] e[p]) < n by {
                assert(e[p] == pts[c[p]]);
                assert(0 <= c[p] < n);
            }
            assert forall|p: int| 0 < p < e.len() implies e[p - 1] < #[trigger] e[p] by {
                assert(e[p] == pts[c[p]] && e[p - 1] == pts[c[p - 1]]);
                assert(0 <= c[p - 1] < n && 0 <= c[p] < n);
                assert(pts[c[p]] == c[p] as usize);
                assert(pts[c[p - 1]] == c[p - 1] as usize);
                assert(c[p - 1] < c[p]);
            }
        }
        assert forall|j: int|
            0 <= j < subsets_sizes(pts, s, m).len() implies {
            let e = #[trigger] subsets_sizes(pts, s, m)[j];
            e.len() >= 1 && (forall|p: int| 0 <= p < e.len() ==> (#[trigger] e[p]) < n) && (
            forall|p: int| 0 < p < e.len() ==> e[p - 1] < #[trigger] e[p])
        } by {
            if j < group.len() {
                assert(subsets_sizes(pts, s, m)[j] == group[j]);
            } else {
                assert(subsets_sizes(pts, s, m)[j] == subsets_sizes(pts, s + 1, m)[j
                    - group.len()]);
            }
        }
    }
}

/// Lifts the complex constructor's stable-permutation guarantee from the
/// accepted simplex/level vectors to the accepted pair list.
proof fn lemma_rips_assemble(
    c: SimplicialComplex,
    ins: Seq<Simplex>,
    lv: Seq<u64>,
    sel: Seq<(Seq<usize>, u64)>,
)
    requires
        ins.len() == sel.len(),
        lv.len() == sel.len(),
        forall|q: int| 0 <= q < sel.len() ==> (#[trigger] ins[q]).vertices@ == sel[q].0,
        forall|q: int| 0 <= q < sel.len() ==> (#[trigger] lv[q]) == sel[q].1,
        exists|perm: Seq<usize>|
            stable_by_level(perm, lv) && c.simplices@.len() == lv.len() && (forall|t: int|
                0 <= t < perm.len() ==> (#[trigger] c.simplices@[t]).vertices@
                    == ins[perm[t] as int].vertices@ && c.levels@[t] == lv[perm[t] as int]),
    ensures
        exists|perm: Seq<usize>|
            stable_by_level(perm, pair_levels(sel)) && c.simplices@.len() == sel.len() && (forall|
                t: int|
                0 <= t < perm.len() ==> (#[trigger] c.simplices@[t]).vertices@
                    == sel[perm[t] as int].0 && c.levels@[t] == sel[perm[t] as int].1),
{
    let perm = choose|perm: Seq<usize>|
        stable_by_level(perm, lv) && c.simplices@.len() == lv.len() && (forall|t: int|
            0 <= t < perm.len() ==> (#[trigger] c.simplices@[t]).vertices@
                == ins[perm[t] as int].vertices@ && c.levels@[t] == lv[perm[t] as int]);
    assert(lv =~= pair_levels(sel));
    assert(stable_by_level(perm, pair_levels(sel)) && c.simplices@.len() == sel.len() && (forall|
        t: int|
        0 <= t < perm.len() ==> (#[trigger] c.simplices@[t]).vertices@ == sel[perm[t] as int].0
            && c.levels@[t] == sel[perm[t] as int].1));
}

/// Builds the Vietoris-Rips filtered complex over a pairwise distance-key
/// matrix: every nonempty subset of at most `max_dimension + 1` points
/// whose diameter is at most `threshold` becomes a simplex at that
/// diameter, and the complex sorts them stably by level.
///
/// Rejects an empty matrix (`EmptyCloud`) and a dimension cap not below
/// the number of points (`InvalidDimension`).
#[verifier::loop_isolation(false)]
#[verifier::rlimit(100)]
pub fn vietoris_rips_complex(
    distances: &Vec<Vec<u64>>,
    max_dimension: usize,
    threshold: u64,
) -> (r: Result<SimplicialComplex, PointCloudError>)
    requires
        matrix_wf(nested_view(distances@)),
    ensures
        match r {
            Ok(c) => {
                &&& distances@.len() >= 1
                &&& max_dimension < distances@.len()
                &&& complex_wf(c)
                &&& is_rips_of(
                    c,
                    nested_view(distances@),
                    distances@.len() as int,
                    max_dimension as nat,
                    threshold,
                )
            },
            Err(PointCloudError::EmptyCloud) => distances@.len() == 0,
            Err(PointCloudError::InvalidDimension { max_dimension: md, n_points: np }) => md
                == max_dimension && np == distances@.len() && distances@.len() >= 1
                && max_dimension >= distances@.len(),
            Err(PointCloudError::DimensionMismatch { .. }) => false,
        },
{
    let n = distances.len();
    if n == 0 {
        return Err(PointCloudError::EmptyCloud);
    }
    if max_dimension >= n {
        return Err(PointCloudError::InvalidDimension { max_dimension, n_points: n });
    }
    let ghost dv = nested_view(distances@);
    let mut points: Vec<usize> = Vec::new();
    let mut t0: usize = 0;
    while t0 < n
        invariant
            t0 <= n,
            points@.len() == t0,
            forall|q: int| 0 <= q < t0 ==> #[trigger] points@[q] == q,
        decreases n - t0,
    {
        points.push(t0);
        t0 = t0 + 1;
    }
    proof {
        assert(points@ =~= points_seq(n as int));
    }
    let subsets = generate_subsets(&points, max_dimension + 1);
    let ghost subsspec = subsets_select(points_seq(n as int), (max_dimension + 1) as nat);
    proof {
        lemma_subsets_entries(n as int, (max_dimension + 1) as nat);
    }
    let mut simplices: Vec<Simplex> = Vec::new();
    let mut filtration: Vec<u64> = Vec::new();
    let mut t: usize = 0;
    while t < subsets.len()
        invariant
            t <= subsets@.len(),
            nested_view(subsets@) == subsspec,
            simplices@.len() == filtration@.len(),
            simplices@.len() == rips_upto(dv, subsspec, threshold, t as int).len(),
            forall|q: int|
                0 <= q < simplices@.len() ==> (#[trigger] simplices@[q]).vertices@ == rips_upto(
                    dv,
                    subsspec,
                    threshold,
                    t as int,
                )[q].0,
            forall|q: int|
                0 <= q < filtration@.len() ==> #[trigger] filtration@[q] == rips_upto(
                    dv,
                    subsspec,
                    threshold,
                    t as int,
                )[q].1,
            forall|q: int|
                0 <= q < simplices@.len() ==> {
                    let vs = (#[trigger] simplices@[q]).vertices@;
                    vs.len() >= 1 && (forall|p: int| 0 <= p < vs.len() ==> (#[trigger] vs[p]) < n)
                        && (forall|p: int| 0 < p < vs.len() ==> vs[p - 1] < #[trigger] vs[p])
                },
        decreases subsets@.len() - t,
    {
        let sub: &Vec<usize> = &subsets[t];
        proof {
            assert(sub@ =~= subsspec[t as int]);
        }
        if sub.len() > 0 {
            proof {
                assert(t as int >= 1) by {
                    if t as int == 0 {
                        assert(subsspec[0].len() == 0);
                    }
                }
                assert(sub@.len() >= 1 && (forall|p: int|
                    0 <= p < sub@.len() ==> (#[trigger] sub@[p]) < n) && (forall|p: int|
                    0 < p < sub@.len() ==> sub@[p - 1] < #[trigger] sub@[p]));
                assert forall|i: int|
                    0 <= i < distances@.len() implies (#[trigger] distances@[i])@.len()
                    == distances@.len() by {
                    assert(dv[i].len() == dv.len());
                    assert(dv[i] == distances@[i]@);
                }
            }
            let level = diameter_of(distances, sub);
            if level <= threshold {
                let copy = copy_indices(sub);
                let sx = Simplex::new(copy);
                proof {
                    crate::simplicial_complex::lemma_sort_spec_sorted_id(sub@);
                    assert(sx.vertices@ == sub@);
                }
                simplices.push(sx);
                filtration.push(level);
            }
        }
        proof {
            let pre = rips_upto(dv, subsspec, threshold, t as int);
            let nxt = rips_upto(dv, subsspec, threshold, t + 1);
            if subsspec[t as int].len() > 0 && diameter(dv, subsspec[t as int]) <= threshold {
                assert(nxt == pre.push((subsspec[t as int], diameter(dv, subsspec[t as int]))));
            } else {
                assert(nxt == pre);
            }
        }
        t = t + 1;
    }
    proof {
        assert(rips_upto(dv, subsspec, threshold, subsets@.len() as int) == rips_selected(
            dv,
            n as int,
            max_dimension as nat,
            threshold,
        ));
    }
    let ghost sel = rips_selected(dv, n as int, max_dimension as nat, threshold);
    proof {
        // every accepted subset is a valid simplex
        assert forall|q: int|
            0 <= q < simplices@.len() implies !crate::simplicial_complex::invalid_at(
            simplices@,
            q,
        ) by {
            let vs = simplices@[q].vertices@;
            assert(vs.len() >= 1 && (forall|p: int| 0 < p < vs.len() ==> vs[p - 1] < #[trigger] vs[p]));
            assert forall|a: int, b: int| 0 <= b < a < vs.len() implies vs[b] != vs[a] by {
                crate::simplicial_complex::lemma_strict_ascending_distinct(vs, b, a);
            }
            assert(!crate::simplicial_complex::has_dup(vs)) by {
                if crate::simplicial_complex::has_dup(vs) {
                    let i2 = choose|i2: int|
                        0 <= i2 < vs.len() && crate::simplicial_complex::dup_at(vs, i2);
                    let j2 = choose|j2: int| 0 <= j2 < i2 && vs[j2] == vs[i2];
                    assert(vs[j2] != vs[i2]);
                }
            }
        }
    }
    match SimplicialComplex::new(simplices, filtration) {
        Ok(c) => {
            proof {
                lemma_rips_assemble(c, simplices@, filtration@, sel);
            }
            Ok(c)
        },
        Err(_) => {
            proof {
                assert(false);
            }
            Err(PointCloudError::EmptyCloud)
        },
    }
}


/// Every pair already scanned is bounded by the running row maximum.
proof fn lemma_row_max_ge(d: Seq<Seq<u64>>, s: Seq<usize>, j: int, t: int, q: int)
    requires
        0 <= q < t,
    ensures
        d[s[j] as int][s[q] as int] <= row_max(d, s, j, t),
    decreases t,
{
    if q < t - 1 {
        lemma_row_max_ge(d, s, j, t - 1, q);
    }
}

/// The diameter scan only grows with more members.
proof fn lemma_diameter_upto_mono(d: Seq<Seq<u64>>, s: Seq<usize>, j1: int, j2: int)
    requires
        0 <= j1 <= j2,
    ensures
        diameter_upto(d, s, j1) <= diameter_upto(d, s, j2),
    decreases j2 - j1,
{
    if j1 < j2 {
        lemma_diameter_upto_mono(d, s, j1, j2 - 1);
    }
}

/// Every pairwise entry is bounded by the diameter.
proof fn lemma_diameter_ge_pair(d: Seq<Seq<u64>>, s: Seq<usize>, a: int, b: int)
    requires
        0 <= a < b < s.len(),
    ensures
        d[s[b] as int][s[a] as int] <= diameter(d, s),
{
    lemma_row_max_ge(d, s, b, b, a);
    lemma_diameter_upto_mono(d, s, b + 1, s.len() as int);
}

/// A bound on every scanned pair bounds the running row maximum.
proof fn lemma_row_max_le(d: Seq<Seq<u64>>, s: Seq<usize>, j: int, t: int, bound: u64)
    requires
        forall|q: int| 0 <= q < t ==> d[s[j] as int][(#[trigger] s[q]) as int] <= bound,
    ensures
        row_max(d, s, j, t) <= bound,
    decreases t,
{
    if t > 0 {
        lemma_row_max_le(d, s, j, t - 1, bound);
    }
}

/// A bound on every pair bounds the diameter.
proof fn lemma_diameter_le_bound(d: Seq<Seq<u64>>, s: Seq<usize>, j: int, bound: u64)
    requires
        0 <= j <= s.len(),
        forall|a: int, b: int|
            0 <= a < b < j ==> d[(#[trigger] s[b]) as int][(#[trigger] s[a]) as int] <= bound,
    ensures
        diameter_upto(d, s, j) <= bound,
    decreases j,
{
    if j > 0 {
        lemma_diameter_le_bound(d, s, j - 1, bound);
        lemma_row_max_le(d, s, j - 1, j - 1, bound);
    }
}

/// Deleting a vertex cannot increase the diameter.
proof fn lemma_face_diameter(d: Seq<Seq<u64>>, s: Seq<usize>, p: int)
    requires
        0 <= p < s.len(),
    ensures
        diameter(d, s.remove(p)) <= diameter(d, s),
{
    let f = s.remove(p);
    let bound = diameter(d, s);
    assert forall|a: int, b: int|
        0 <= a < b < f.len() implies d[(#[trigger] f[b]) as int][(#[trigger] f[a]) as int]
        <= bound by {
        let a2 = if a < p {
            a
        } else {
            a + 1
        };
        let b2 = if b < p {
            b
        } else {
            b + 1
        };
        assert(f[a] == s[a2] && f[b] == s[b2]);
        assert(0 <= a2 < b2 < s.len());
        lemma_diameter_ge_pair(d, s, a2, b2);
    }
    lemma_diameter_le_bound(d, f, f.len() as int, bound);
}

/// What each size group guarantees about its entries' length and the
/// enumeration guard for all sizes up to it.
proof fn lemma_sizes_entry_props(n: int, s0: nat, m: nat, t: int)
    requires
        0 <= n <= usize::MAX,
        s0 >= 1,
        0 <= t < subsets_sizes(points_seq(n), s0, m).len(),
    ensures
        s0 <= subsets_sizes(points_seq(n), s0, m)[t].len() <= m,
        forall|s2: nat|
            s0 <= s2 <= subsets_sizes(points_seq(n), s0, m)[t].len()
                ==> #[trigger] crate::combinatorics::binom(n as nat, s2)
                <= crate::combinatorics::ENUMERATION_LIMIT as nat,
    decreases m + 1 - s0,
{
    let pts = points_seq(n);
    let group = combos_select(pts, s0);
    crate::combinatorics::lemma_combos_from_valid(0, n, s0);
    if t < group.len() {
        assert(group[t] == combos_from(0, n, s0)[t].map_values(|i: int| pts[i]));
        assert(combos_from(0, n, s0)[t].len() == s0);
        assert(subsets_sizes(pts, s0, m)[t] == group[t]);
        assert(group[t].len() == s0);
    } else {
        lemma_sizes_entry_props(n, s0 + 1, m, t - group.len());
        assert(subsets_sizes(pts, s0, m)[t] == subsets_sizes(pts, s0 + 1, m)[t - group.len()]);
    }
}

/// If the guard admits every size up to `sf`, any member of the size-`sf`
/// combination group occurs among the subsets.
proof fn lemma_sizes_contains(n: int, s0: nat, m: nat, f: Seq<usize>, sf: nat)
    requires
        0 <= n <= usize::MAX,
        1 <= s0 <= sf <= m,
        forall|s2: nat|
            s0 <= s2 <= sf ==> #[trigger] crate::combinatorics::binom(n as nat, s2)
                <= crate::combinatorics::ENUMERATION_LIMIT as nat,
        exists|j: int|
            0 <= j < combos_select(points_seq(n), sf).len() && #[trigger] combos_select(
                points_seq(n),
                sf,
            )[j] == f,
    ensures
        exists|t: int|
            0 <= t < subsets_sizes(points_seq(n), s0, m).len() && #[trigger] subsets_sizes(
                points_seq(n),
                s0,
                m,
            )[t] == f,
    decreases m + 1 - s0,
{
    let pts = points_seq(n);
    let group = combos_select(pts, s0);
    assert(crate::combinatorics::binom(n as nat, s0)
        <= crate::combinatorics::ENUMERATION_LIMIT as nat);
    if s0 == sf {
        let j = choose|j: int|
            0 <= j < combos_select(pts, sf).len() && #[trigger] combos_select(pts, sf)[j] == f;
        assert(subsets_sizes(pts, s0, m)[j] == f);
    } else {
        lemma_sizes_contains(n, s0 + 1, m, f, sf);
        let t = choose|t: int|
            0 <= t < subsets_sizes(pts, s0 + 1, m).len() && #[trigger] subsets_sizes(
                pts,
                s0 + 1,
                m,
            )[t] == f;
        assert(subsets_sizes(pts, s0, m)[group.len() + t] == f);
    }
}

/// Every accepted pair comes from a nonempty candidate subset within the
/// threshold.
proof fn lemma_rips_entry_props(d: Seq<Seq<u64>>, subs: Seq<Seq<usize>>, threshold: u64, t: int)
    ensures
        forall|q: int|
            0 <= q < rips_upto(d, subs, threshold, t).len() ==> exists|t0: int|
                0 <= t0 < t && (#[trigger] rips_upto(d, subs, threshold, t)[q]).0 == subs[t0] && rips_upto(
                    d,
                    subs,
                    threshold,
                    t,
                )[q].1 == diameter(d, subs[t0]) && subs[t0].len() > 0 && diameter(d, subs[t0])
                <= threshold,
    decreases t,
{
    if t > 0 {
        lemma_rips_entry_props(d, subs, threshold, t - 1);
        assert forall|q: int|
            0 <= q < rips_upto(d, subs, threshold, t).len() implies exists|t0: int|
            0 <= t0 < t && (#[trigger] rips_upto(d, subs, threshold, t)[q]).0 == subs[t0]
                && rips_upto(d, subs, threshold, t)[q].1 == diameter(d, subs[t0])
                && subs[t0].len() > 0 && diameter(d, subs[t0]) <= threshold by {
            let pre = rips_upto(d, subs, threshold, t - 1);
            if q < pre.len() {
                let t0 = choose|t0: int|
                    0 <= t0 < t - 1 && (#[trigger] pre[q]).0 == subs[t0] && pre[q].1 == diameter(
                        d,
                        subs[t0],
                    ) && subs[t0].len() > 0 && diameter(d, subs[t0]) <= threshold;
                assert(rips_upto(d, subs, threshold, t)[q] == pre[q]);
            } else {
                assert(subs[t - 1].len() > 0 && diameter(d, subs[t - 1]) <= threshold);
                assert(rips_upto(d, subs, threshold, t)[q] == (
                    subs[t - 1],
                    diameter(d, subs[t - 1]),
                ));
            }
        }
    }
}

/// Every nonempty candidate subset within the threshold is accepted.
proof fn lemma_rips_contains(d: Seq<Seq<u64>>, subs: Seq<Seq<usize>>, threshold: u64, t0: int, t: int)
    requires
        0 <= t0 < t,
        subs[t0].len() > 0,
        diameter(d, subs[t0]) <= threshold,
    ensures
        exists|q: int|
            0 <= q < rips_upto(d, subs, threshold, t).len() && (#[trigger] rips_upto(
                d,
                subs,
                threshold,
                t,
            )[q]).0 == subs[t0] && rips_upto(d, subs, threshold, t)[q].1 == diameter(d, subs[t0]),
    decreases t,
{
    let pre = rips_upto(d, subs, threshold, t - 1);
    if t0 == t - 1 {
        assert(rips_upto(d, subs, threshold, t)[pre.len() as int] == (
            subs[t0],
            diameter(d, subs[t0]),
        ));
    } else {
        lemma_rips_contains(d, subs, threshold, t0, t - 1);
        let q = choose|q: int|
            0 <= q < pre.len() && (#[trigger] pre[q]).0 == subs[t0] && pre[q].1 == diameter(
                d,
                subs[t0],
            );
        assert(rips_upto(d, subs, threshold, t)[q] == pre[q]);
    }
}

/// Deleting one vertex of an ascending vertex list leaves an ascending
/// list over the same range.
proof fn lemma_face_ascending(big: Seq<usize>, p: int, n: int)
    requires
        0 <= p < big.len(),
        forall|q: int| 0 <= q < big.len() ==> (#[trigger] big[q]) < n,
        forall|q: int| 0 < q < big.len() ==> big[q - 1] < #[trigger] big[q],
    ensures
        ascending_in(face_of(big, p).map_values(|x: usize| x as int), 0, n),
        face_of(big, p).len() == big.len() - 1,
{
    let face = face_of(big, p);
    let facei = face.map_values(|x: usize| x as int);
    assert forall|q: int| 0 <= q < facei.len() implies 0 <= #[trigger] facei[q] < n by {
        let q2 = if q < p {
            q
        } else {
            q + 1
        };
        assert(face[q] == big[q2]);
        assert(big[q2] < n);
    }
    assert forall|q: int| 0 < q < facei.len() implies facei[q - 1] < #[trigger] facei[q] by {
        let q2 = if q < p {
            q
        } else {
            q + 1
        };
        let q1 = if q - 1 < p {
            q - 1
        } else {
            q
        };
        assert(face[q] == big[q2] && face[q - 1] == big[q1]);
        assert(q1 < q2);
        crate::simplicial_complex::lemma_strict_ascending_distinct(big, q1, q2);
    }
}

/// An ascending index list whose size passes the guard occurs among the
/// size groups.
proof fn lemma_face_in_sizes(n: int, m: nat, face: Seq<usize>)
    requires
        1 <= n <= usize::MAX,
        1 <= face.len() <= m,
        ascending_in(face.map_values(|x: usize| x as int), 0, n),
        forall|s2: nat|
            1 <= s2 <= face.len() ==> #[trigger] crate::combinatorics::binom(n as nat, s2)
                <= crate::combinatorics::ENUMERATION_LIMIT as nat,
    ensures
        exists|t: int|
            0 <= t < subsets_sizes(points_seq(n), 1, m).len() && #[trigger] subsets_sizes(
                points_seq(n),
                1,
                m,
            )[t] == face,
{
    let pts = points_seq(n);
    let fl = face.len();
    let facei = face.map_values(|x: usize| x as int);
    crate::combinatorics::lemma_combos_complete(0, n, fl as nat, facei);
    let j0 = choose|j0: int|
        0 <= j0 < combos_from(0, n, fl as nat).len() && #[trigger] combos_from(
            0,
            n,
            fl as nat,
        )[j0] == facei;
    assert(combos_select(pts, fl as nat)[j0] =~= face) by {
        crate::combinatorics::lemma_combos_from_valid(0, n, fl as nat);
        let e = combos_select(pts, fl as nat)[j0];
        assert(e == combos_from(0, n, fl as nat)[j0].map_values(|q: int| pts[q]));
        assert forall|q: int| 0 <= q < e.len() implies e[q] == face[q] by {
            assert(e[q] == pts[facei[q]]);
            assert(pts[facei[q]] == facei[q] as usize);
        }
    }
    assert(exists|j1: int|
        0 <= j1 < combos_select(pts, fl as nat).len() && #[trigger] combos_select(
            pts,
            fl as nat,
        )[j1] == face);
    lemma_sizes_contains(n, 1, m, face, fl as nat);
}

/// One face of one simplex of a Vietoris-Rips complex is itself present.
#[verifier::rlimit(100)]
proof fn lemma_rips_face_present(
    c: SimplicialComplex,
    d: Seq<Seq<u64>>,
    n: int,
    max_dimension: nat,
    threshold: u64,
    perm: Seq<usize>,
    i: int,
    p: int,
)
    requires
        1 <= n <= usize::MAX,
        max_dimension < n,
        rips_selected(d, n, max_dimension, threshold).len() <= usize::MAX,
        stable_by_level(perm, pair_levels(rips_selected(d, n, max_dimension, threshold))),
        c.simplices@.len() == rips_selected(d, n, max_dimension, threshold).len(),
        forall|t: int|
            0 <= t < perm.len() ==> (#[trigger] c.simplices@[t]).vertices@ == rips_selected(
                d,
                n,
                max_dimension,
                threshold,
            )[perm[t] as int].0,
        0 <= i < c.simplices@.len(),
        c.simplices@[i].vertices@.len() > 1,
        0 <= p < c.simplices@[i].vertices@.len(),
    ensures
        exists|j: int|
            0 <= j < c.simplices@.len() && (#[trigger] c.simplices@[j]).vertices@ == face_of(
                c.simplices@[i].vertices@,
                p,
            ),
{
    let sel = rips_selected(d, n, max_dimension, threshold);
    let m = min_nat(max_dimension + 1, n as nat);
    let pts = points_seq(n);
    let subs = subsets_select(pts, max_dimension + 1);
    lemma_subsets_entries(n, max_dimension + 1);
    lemma_rips_entry_props(d, subs, threshold, subs.len() as int);
    let big = c.simplices@[i].vertices@;
    let v = perm[i] as int;
    assert(big == sel[v].0);
    let t0 = choose|t0: int|
        0 <= t0 < subs.len() && (#[trigger] sel[v]).0 == subs[t0] && sel[v].1 == diameter(
            d,
            subs[t0],
        ) && subs[t0].len() > 0 && diameter(d, subs[t0]) <= threshold;
    assert(big == subs[t0]);
    assert(t0 >= 1) by {
        if t0 == 0 {
            assert(subs[0].len() == 0);
        }
    }
    // the group of big's size passed the guard, so every smaller size did
    lemma_sizes_entry_props(n, 1, m, t0 - 1);
    assert(subs[t0] == subsets_sizes(pts, 1, m)[t0 - 1]);
    let bl = big.len();
    assert(1 <= bl <= m);
    let face = face_of(big, p);
    let fl = face.len();
    lemma_face_ascending(big, p, n);
    assert(fl == bl - 1);
    assert(fl >= 1);
    lemma_face_in_sizes(n, m, face);
    let t1 = choose|t1: int|
        0 <= t1 < subsets_sizes(pts, 1, m).len() && #[trigger] subsets_sizes(pts, 1, m)[t1]
            == face;
    assert(subs[t1 + 1] == face);
    lemma_face_diameter(d, big, p);
    lemma_rips_contains(d, subs, threshold, t1 + 1, subs.len() as int);
    let q = choose|q: int|
        0 <= q < sel.len() && (#[trigger] sel[q]).0 == subs[t1 + 1] && sel[q].1 == diameter(
            d,
            subs[t1 + 1],
        );
    assert(perm.contains(q as usize));
    let tf = choose|tf: int| 0 <= tf < perm.len() && perm[tf] == q as usize;
    assert(c.simplices@[tf].vertices@ == sel[perm[tf] as int].0);
    assert(sel[perm[tf] as int].0 == subs[t1 + 1]);
    assert(c.simplices@[tf].vertices@ == face);
}

/// Boundary closure: in a Vietoris-Rips complex, every face obtained by
/// deleting one vertex of a simplex is itself a simplex of the complex,
/// and so every boundary lookup of the complex succeeds.
#[verifier::rlimit(100)]
pub proof fn lemma_rips_closure(
    c: SimplicialComplex,
    d: Seq<Seq<u64>>,
    n: int,
    max_dimension: nat,
    threshold: u64,
)
    requires
        1 <= n <= usize::MAX,
        max_dimension < n,
        c.simplices@.len() <= usize::MAX,
        is_rips_of(c, d, n, max_dimension, threshold),
    ensures
        forall|i: int, p: int|
            #![trigger face_of(c.simplices@[i].vertices@, p)]
            0 <= i < c.simplices@.len() && c.simplices@[i].vertices@.len() > 1 && 0 <= p
                < c.simplices@[i].vertices@.len() ==> exists|j: int|
                0 <= j < c.simplices@.len() && (#[trigger] c.simplices@[j]).vertices@ == face_of(
                    c.simplices@[i].vertices@,
                    p,
                ),
        crate::homology::models_ok(c.model()),
{
    let sel = rips_selected(d, n, max_dimension, threshold);
    let perm = choose|perm: Seq<usize>|
        stable_by_level(perm, pair_levels(sel)) && c.simplices@.len() == sel.len() && (forall|
            t: int|
            0 <= t < perm.len() ==> (#[trigger] c.simplices@[t]).vertices@ == sel[perm[t] as int].0
                && c.levels@[t] == sel[perm[t] as int].1);
    assert forall|i: int, p: int|
        #![trigger face_of(c.simplices@[i].vertices@, p)]
        0 <= i < c.simplices@.len() && c.simplices@[i].vertices@.len() > 1 && 0 <= p
            < c.simplices@[i].vertices@.len() implies exists|j: int|
        0 <= j < c.simplices@.len() && (#[trigger] c.simplices@[j]).vertices@ == face_of(
            c.simplices@[i].vertices@,
            p,
        ) by {
        lemma_rips_face_present(c, d, n, max_dimension, threshold, perm, i, p);
    }
    assert forall|i: int|
        0 <= i < c.model().len() implies (#[trigger] c.model()[i].bnd) is Ok by {
        let vs = c.simplices@[i].vertices@;
        assert(c.model()[i].bnd == crate::simplicial_complex::spec_boundary(c, i));
        assert forall|p: int|
            0 <= p < vs.len() implies !crate::simplicial_complex::missing_at(c, i, p) by {
            if vs.len() > 1 {
                assert(exists|j: int|
                    0 <= j < c.simplices@.len() && (#[trigger] c.simplices@[j]).vertices@
                        == face_of(vs, p));
                let j = choose|j: int|
                    0 <= j < c.simplices@.len() && (#[trigger] c.simplices@[j]).vertices@
                        == face_of(vs, p);
                assert(crate::simplicial_complex::face_lookup(c.simplices@, face_of(vs, p))
                    is Some) by {
                    assert(exists|j2: int|
                        0 <= j2 < c.simplices@.len() && (#[trigger] c.simplices@[j2].vertices@)
                            == face_of(vs, p));
                }
            }
        }
    }
}

} // verus!
