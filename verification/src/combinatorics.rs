//! Enumeration of index combinations, cartesian products and bounded subsets.
//!
//! Everything here works over plain indices; a guard rejects requests whose
//! result count would exceed [`ENUMERATION_LIMIT`] before any enumeration
//! starts.

use vstd::prelude::*;

verus! {

/// Upper bound on how many combinations or products a single request may
/// enumerate; larger requests are rejected up front with
/// [`CombinatoricsError::TooLarge`].
pub const ENUMERATION_LIMIT: usize = 10_000_000;

/// Why a combinatorial request was rejected.
#[derive(Debug, PartialEq, Eq, Structural)]
pub enum CombinatoricsError {
    /// The requested size exceeds the number of available elements.
    InvalidSize { size: usize, len: usize },
    /// The request would enumerate this many results, more than
    /// [`ENUMERATION_LIMIT`].
    TooLarge(usize),
}

/// Binomial coefficient, by Pascal's rule.
pub open spec fn binom(n: nat, k: nat) -> nat
    decreases n,
{
    if k == 0 {
        1
    } else if k > n {
        0
    } else {
        binom((n - 1) as nat, (k - 1) as nat) + binom((n - 1) as nat, k)
    }
}

/// Choosing one element from `n` can be done in `n` ways.
proof fn lemma_binom_one(n: nat)
    ensures
        binom(n, 1) == n,
    decreases n,
{
    if n > 0 {
        lemma_binom_one((n - 1) as nat);
        assert(binom((n - 1) as nat, 0) == 1);
        assert(binom(n, 1) == binom((n - 1) as nat, 0) + binom((n - 1) as nat, 1));
    }
}

/// Absorption identity: `(k+1) * C(n+1, k+1) == (n+1) * C(n, k)`.
proof fn lemma_binom_absorb(n: nat, k: nat)
    ensures
        (k + 1) * binom(n + 1, (k + 1) as nat) == (n + 1) * binom(n, k),
    decreases n,
{
    if k > n {
        assert(binom(n + 1, (k + 1) as nat) == 0);
        assert(binom(n, k) == 0);
    } else if k == 0 {
        lemma_binom_one(n + 1);
        assert((k + 1) * binom(n + 1, 1) == binom(n + 1, 1)) by (nonlinear_arith)
            requires k == 0;
        assert(binom(n, 0) == 1);
    } else {
        // k >= 1 and k <= n, hence n >= 1.
        lemma_binom_absorb((n - 1) as nat, k);
        lemma_binom_absorb((n - 1) as nat, (k - 1) as nat);
        let bnk = binom(n, k);
        let bnk1 = binom(n, (k + 1) as nat);
        let bk = binom((n - 1) as nat, (k - 1) as nat);
        let bk1 = binom((n - 1) as nat, k);
        // Pascal on the two outer binomials.
        assert(binom(n + 1, (k + 1) as nat) == bnk + bnk1);
        assert(bnk == bk + bk1);
        // Induction hypotheses.
        assert((k + 1) * bnk1 == n * bk1);
        assert(k * bnk == n * bk);
        assert((k + 1) * (bnk + bnk1) == (n + 1) * bnk) by (nonlinear_arith)
            requires
                (k + 1) * bnk1 == n * bk1,
                k * bnk == n * bk,
                bnk == bk + bk1,
        ;
    }
}

/// Along the diagonal the binomial coefficients do not shrink.
proof fn lemma_binom_diag_monotone(n: nat, k: nat)
    requires
        k <= n,
    ensures
        binom(n, k) <= binom(n + 1, (k + 1) as nat),
{
    lemma_binom_absorb(n, k);
    let b = binom(n, k);
    let b1 = binom(n + 1, (k + 1) as nat);
    assert(b <= b1) by (nonlinear_arith)
        requires
            (k + 1) * b1 == (n + 1) * b,
            k <= n,
    ;
}

/// Every binomial along Pascal's diagonal is at most the final one.
proof fn lemma_binom_diag_chain(len: nat, size: nat, i: nat)
    requires
        i <= size <= len,
    ensures
        binom((len - size + i) as nat, i) <= binom(len, size),
    decreases size - i,
{
    if i < size {
        lemma_binom_diag_monotone((len - size + i) as nat, i);
        lemma_binom_diag_chain(len, size, i + 1);
    }
}

/// Exact binomial count `C(len, size)`, or `None` if it exceeds `usize::MAX`.
///
/// Multiplies and divides along Pascal's diagonal in 128-bit arithmetic, so
/// no intermediate step can overflow.
fn count_combinations(len: usize, size: usize) -> (r: Option<usize>)
    requires
        size <= len,
    ensures
        match r {
            Some(c) => c == binom(len as nat, size as nat),
            None => binom(len as nat, size as nat) > usize::MAX,
        },
{
    let mut acc: u128 = 1;
    let mut i: usize = 0;
    while i < size
        invariant
            size <= len <= usize::MAX,
            i <= size,
            acc == binom((len - size + i) as nat, i as nat),
            acc <= usize::MAX,
        decreases size - i,
    {
        let ghost n0 = (len - size + i) as nat;
        let m: u128 = ((len - size + i + 1) as u128);
        assert(acc * m < u128::MAX) by (nonlinear_arith)
            requires
                acc <= usize::MAX as u128,
                m <= usize::MAX as u128,
        ;
        let p: u128 = acc * m;
        let d: u128 = (i + 1) as u128;
        let q: u128 = p / d;
        proof {
            lemma_binom_absorb(n0, i as nat);
            // (i+1) * binom(n0+1, i+1) == (n0+1) * acc == p, so the division
            // below is exact and q is the next binomial.
            let b1 = binom(n0 + 1, (i + 1) as nat) as int;
            let di = d as int;
            assert(p as int == di * b1) by (nonlinear_arith)
                requires
                    (i + 1) * b1 == (n0 + 1) * (acc as int),
                    p == acc * m,
                    m == n0 + 1,
                    di == i + 1,
            ;
            assert(di * b1 / di == b1) by (nonlinear_arith)
                requires
                    di > 0,
            ;
            assert(q == b1);
        }
        if q > (usize::MAX as u128) {
            proof {
                // The remaining factors only grow the coefficient further.
                lemma_binom_diag_chain(len as nat, size as nat, (i + 1) as nat);
            }
            return None;
        }
        acc = q;
        i = i + 1;
    }
    Some(acc as usize)
}

/// Checks a combination request: size within range and result count within
/// the enumeration guard.  Returns the exact count `C(len, size)` on success.
fn check_combinations(len: usize, size: usize) -> (r: Result<usize, CombinatoricsError>)
    ensures
        match r {
            Ok(c) => size <= len && c == binom(len as nat, size as nat) && c
                <= ENUMERATION_LIMIT,
            Err(CombinatoricsError::InvalidSize { size: s, len: l }) => s == size && l == len
                && size > len,
            Err(CombinatoricsError::TooLarge(c)) => size <= len && binom(len as nat, size as nat)
                > ENUMERATION_LIMIT && (binom(len as nat, size as nat) <= usize::MAX ==> c
                == binom(len as nat, size as nat)),
        },
{
    if size > len {
        return Err(CombinatoricsError::InvalidSize { size, len });
    }
    match count_combinations(len, size) {
        Some(c) => {
            if c > ENUMERATION_LIMIT {
                Err(CombinatoricsError::TooLarge(c))
            } else {
                Ok(c)
            }
        },
        None => Err(CombinatoricsError::TooLarge(usize::MAX)),
    }
}

/// The members of `c` lie in `[lo, n)` and increase strictly.
pub open spec fn ascending_in(c: Seq<int>, lo: int, n: int) -> bool {
    (forall|p: int| 0 <= p < c.len() ==> lo <= #[trigger] c[p] < n) && (forall|p: int|
        0 < p < c.len() ==> c[p - 1] < #[trigger] c[p])
}

/// Prefixes every sequence of `s` with the single index `x`.
pub open spec fn prepend_all(x: int, s: Seq<Seq<int>>) -> Seq<Seq<int>> {
    Seq::new(s.len(), |j: int| seq![x] + s[j])
}

/// All size-`k` ascending index sequences over `[lo, n)`, in lexicographic
/// order: first those that start with `lo`, then the rest.
pub open spec fn combos_from(lo: int, n: int, k: nat) -> Seq<Seq<int>>
    decreases k, n - lo,
{
    if k == 0 {
        seq![Seq::<int>::empty()]
    } else if lo + k > n {
        Seq::<Seq<int>>::empty()
    } else {
        prepend_all(lo, combos_from(lo + 1, n, (k - 1) as nat)) + combos_from(lo + 1, n, k)
    }
}

/// All size-`k` combinations of `elements`, in lexicographic index order.
pub open spec fn combos_select<T>(elements: Seq<T>, k: nat) -> Seq<Seq<T>> {
    combos_from(0, elements.len() as int, k).map_values(
        |c: Seq<int>| c.map_values(|i: int| elements[i]),
    )
}

/// View of a vector of index vectors as mathematical integer sequences.
pub open spec fn to_int_seqs(s: Seq<Seq<usize>>) -> Seq<Seq<int>> {
    s.map_values(|c: Seq<usize>| c.map_values(|x: usize| x as int))
}

/// Every entry of `combos_from(lo, n, k)` is an ascending size-`k` sequence
/// over `[lo, n)`.
#[verifier::rlimit(100)]
pub proof fn lemma_combos_from_valid(lo: int, n: int, k: nat)
    ensures
        forall|j: int|
            0 <= j < combos_from(lo, n, k).len() ==> (#[trigger] combos_from(lo, n, k)[j]).len()
                == k && ascending_in(combos_from(lo, n, k)[j], lo, n),
    decreases k, n - lo,
{
    if k == 0 {
    } else if lo + k > n {
    } else {
        lemma_combos_from_valid(lo + 1, n, (k - 1) as nat);
        lemma_combos_from_valid(lo + 1, n, k);
        let head = prepend_all(lo, combos_from(lo + 1, n, (k - 1) as nat));
        let tail = combos_from(lo + 1, n, k);
        assert forall|j: int| 0 <= j < head.len() implies (#[trigger] head[j]).len() == k
            && ascending_in(head[j], lo, n) by {
            let c = combos_from(lo + 1, n, (k - 1) as nat)[j];
            assert(head[j] == seq![lo] + c);
            assert(ascending_in(c, lo + 1, n));
            assert forall|p: int| 0 < p < head[j].len() implies head[j][p - 1]
                < #[trigger] head[j][p] by {
                if p == 1 {
                    assert(head[j][0] == lo && head[j][1] == c[0]);
                } else {
                    assert(head[j][p] == c[p - 1] && head[j][p - 1] == c[p - 2]);
                }
            }
        }
        assert forall|j: int|
            0 <= j < combos_from(lo, n, k).len() implies (#[trigger] combos_from(lo, n, k)[j]).len()
            == k && ascending_in(combos_from(lo, n, k)[j], lo, n) by {
            if j < head.len() {
                assert(combos_from(lo, n, k)[j] == head[j]);
            } else {
                assert(combos_from(lo, n, k)[j] == tail[j - head.len()]);
                assert(ascending_in(tail[j - head.len()], lo + 1, n));
            }
        }
    }
}


/// View of a vector of vectors as a sequence of sequences.
pub open spec fn nested_view<T>(r: Seq<Vec<T>>) -> Seq<Seq<T>> {
    Seq::new(r.len(), |j: int| r[j]@)
}

/// Enumerates `combos_from(lo, n, k)` as index vectors, grouped by first
/// element so the recursion depth is bounded by `k`.
#[verifier::loop_isolation(false)]
fn combos_rec(lo: usize, n: usize, k: usize) -> (r: Vec<Vec<usize>>)
    requires
        lo <= n,
    ensures
        to_int_seqs(nested_view(r@)) == combos_from(lo as int, n as int, k as nat),
    decreases k,
{
    let ghost goal = combos_from(lo as int, n as int, k as nat);
    if k == 0 {
        let mut r: Vec<Vec<usize>> = Vec::new();
        r.push(Vec::new());
        proof {
            assert(to_int_seqs(nested_view(r@)) =~~= goal);
        }
        return r;
    }
    let mut r: Vec<Vec<usize>> = Vec::new();
    if k > n - lo {
        proof {
            assert(to_int_seqs(nested_view(r@)) =~~= goal);
        }
        return r;
    }
    let mut f: usize = lo;
    while f <= n - k
        invariant
            lo <= f <= n - k + 1,
            1 <= k <= n,
            to_int_seqs(nested_view(r@)) + combos_from(f as int, n as int, k as nat) == goal,
        decreases n - k + 1 - f,
    {
        let sub = combos_rec(f + 1, n, k - 1);
        let ghost subspec = combos_from(f + 1, n as int, (k - 1) as nat);
        let ghost headspec = prepend_all(f as int, subspec);
        let ghost base = to_int_seqs(nested_view(r@));
        let mut j: usize = 0;
        while j < sub.len()
            invariant
                j <= sub.len(),
                to_int_seqs(nested_view(r@)) == base + headspec.take(j as int),
            decreases sub.len() - j,
        {
            let c: &Vec<usize> = &sub[j];
            let mut d: Vec<usize> = Vec::new();
            d.push(f);
            let mut t: usize = 0;
            while t < c.len()
                invariant
                    t <= c.len(),
                    d@ == seq![f].add(c@.take(t as int)),
                decreases c.len() - t,
            {
                d.push(c[t]);
                proof {
                    assert(d@ =~= seq![f].add(c@.take(t + 1)));
                }
                t = t + 1;
            }
            proof {
                assert(c@.take(c.len() as int) =~= c@);
            }
            r.push(d);
            proof {
                let g = |x: usize| x as int;
                let cs = subspec[j as int];
                assert(cs == to_int_seqs(nested_view(sub@))[j as int]);
                assert(cs =~= c@.map_values(g));
                assert(d@.map_values(g) =~= seq![f as int] + cs);
                assert(headspec[j as int] == seq![f as int] + cs);
                assert(to_int_seqs(nested_view(r@)) =~= (base + headspec.take(j as int)).push(
                    headspec[j as int]));
                assert((base + headspec.take(j as int)).push(headspec[j as int]) =~= base
                    + headspec.take(j + 1));
            }
            j = j + 1;
        }
        proof {
            assert(headspec.take(headspec.len() as int) =~= headspec);
            // Unfold one group of the remaining combinations.
            assert(combos_from(f as int, n as int, k as nat) == headspec + combos_from(
                f + 1, n as int, k as nat));
            assert((base + headspec) + combos_from(f + 1, n as int, k as nat) =~= (base
                + headspec.take(headspec.len() as int)) + combos_from(f + 1, n as int, k as nat));
            assert(to_int_seqs(nested_view(r@)) + combos_from(f + 1, n as int, k as nat) =~= goal);
        }
        f = f + 1;
    }
    proof {
        assert(combos_from(f as int, n as int, k as nat) =~= Seq::<Seq<int>>::empty());
        assert(to_int_seqs(nested_view(r@)) + Seq::<Seq<int>>::empty() =~= to_int_seqs(
            nested_view(r@)));
    }
    r
}

/// What a rejection of a combination request promises: `InvalidSize` exactly
/// when the size exceeds the population, `TooLarge` exactly when the count
/// exceeds [`ENUMERATION_LIMIT`] (with the exact count as payload whenever it
/// fits a `usize`).
pub open spec fn combinations_rejected(len: nat, size: nat, e: CombinatoricsError) -> bool {
    match e {
        CombinatoricsError::InvalidSize { size: s, len: l } => s == size && l == len && size > len,
        CombinatoricsError::TooLarge(c) => size <= len && binom(len, size) > ENUMERATION_LIMIT
            && (binom(len, size) <= usize::MAX ==> c == binom(len, size)),
    }
}

/// All combinations of `size` elements drawn from `elements`, in
/// lexicographic index order.
///
/// Rejects the request when `size` exceeds the population or when the number
/// of combinations exceeds [`ENUMERATION_LIMIT`].
#[verifier::loop_isolation(false)]
pub fn generate_combinations<T: Copy>(elements: &[T], size: usize) -> (r: Result<
    Vec<Vec<T>>,
    CombinatoricsError,
>)
    ensures
        match r {
            Ok(v) => size <= elements@.len() && binom(elements@.len() as nat, size as nat)
                <= ENUMERATION_LIMIT && nested_view(v@) == combos_select(elements@, size as nat),
            Err(e) => combinations_rejected(elements@.len() as nat, size as nat, e),
        },
{
    let len = elements.len();
    match check_combinations(len, size) {
        Err(e) => Err(e),
        Ok(_) => {
            let idx = combos_rec(0, len, size);
            proof {
                lemma_combos_from_valid(0, len as int, size as nat);
            }
            let ghost cs = combos_from(0, len as int, size as nat);
            let mut out: Vec<Vec<T>> = Vec::new();
            let mut j: usize = 0;
            while j < idx.len()
                invariant
                    j <= idx.len(),
                    nested_view(out@) == combos_select(elements@, size as nat).take(j as int),
                decreases idx.len() - j,
            {
                let c: &Vec<usize> = &idx[j];
                proof {
                    assert(to_int_seqs(nested_view(idx@))[j as int] == cs[j as int]);
                    assert(c@.map_values(|x: usize| x as int) =~= cs[j as int]);
                    assert(ascending_in(cs[j as int], 0, len as int));
                }
                let mut row: Vec<T> = Vec::new();
                let mut t: usize = 0;
                while t < c.len()
                    invariant
                        t <= c.len(),
                        row@ == cs[j as int].map_values(|i: int| elements@[i]).take(t as int),
                    decreases c.len() - t,
                {
                    proof {
                        assert(cs[j as int][t as int] == c@[t as int]);
                        assert(0 <= c@[t as int] < len);
                    }
                    row.push(elements[c[t]]);
                    proof {
                        let rowspec = cs[j as int].map_values(|i: int| elements@[i]);
                        assert(rowspec.take(t as int).push(rowspec[t as int]) =~= rowspec.take(
                            t + 1));
                    }
                    t = t + 1;
                }
                out.push(row);
                proof {
                    let sel = combos_select(elements@, size as nat);
                    assert(cs[j as int].map_values(|i: int| elements@[i]).take(c@.len() as int)
                        =~= cs[j as int].map_values(|i: int| elements@[i]));
                    assert(sel[j as int] == cs[j as int].map_values(|i: int| elements@[i]));
                    assert(nested_view(out@) =~= sel.take(j + 1));
                }
                j = j + 1;
            }
            proof {
                let sel = combos_select(elements@, size as nat);
                assert(sel.len() == cs.len());
                assert(idx@.len() == cs.len());
                assert(sel.take(sel.len() as int) =~= sel);
            }
            Ok(out)
        },
    }
}

/// Smaller of two sizes.
pub open spec fn min_nat(a: nat, b: nat) -> nat {
    if a < b {
        a
    } else {
        b
    }
}

/// Concatenation of the combination lists of sizes `s ..= m`, stopping early
/// at the first size whose combination count exceeds the enumeration guard.
pub open spec fn subsets_sizes<T>(elements: Seq<T>, s: nat, m: nat) -> Seq<Seq<T>>
    decreases m + 1 - s,
{
    if s > m || binom(elements.len() as nat, s) > ENUMERATION_LIMIT {
        Seq::<Seq<T>>::empty()
    } else {
        combos_select(elements, s) + subsets_sizes(elements, s + 1, m)
    }
}

/// All subsets of `elements` of size `0 ..= max_size`: the empty subset
/// first, then the combinations grouped by increasing size, each group in
/// lexicographic index order, truncated at the first group over the
/// enumeration guard.
pub open spec fn subsets_select<T>(elements: Seq<T>, max_size: nat) -> Seq<Seq<T>> {
    seq![Seq::<T>::empty()] + subsets_sizes(elements, 1, min_nat(max_size, elements.len() as nat))
}

/// All subsets of `elements` with at most `max_size` members; the empty
/// subset comes first and subsets are grouped by increasing size.
#[verifier::loop_isolation(false)]
pub fn generate_subsets<T: Copy>(elements: &[T], max_size: usize) -> (r: Vec<Vec<T>>)
    ensures
        nested_view(r@) == subsets_select(elements@, max_size as nat),
{
    let len = elements.len();
    let mut subsets: Vec<Vec<T>> = Vec::new();
    subsets.push(Vec::new());
    let m = if max_size < len {
        max_size
    } else {
        len
    };
    proof {
        assert(nested_view(subsets@) =~~= seq![Seq::<T>::empty()]);
    }
    let ghost goal = subsets_select(elements@, max_size as nat);
    let mut s: usize = 1;
    while s <= m
        invariant
            1 <= s <= m + 1,
            nested_view(subsets@) + subsets_sizes(elements@, s as nat, m as nat) == goal,
        decreases m + 1 - s,
    {
        match generate_combinations(elements, s) {
            Ok(mut combos) => {
                let ghost sdv0 = nested_view(subsets@);
                let ghost cdv = nested_view(combos@);
                subsets.append(&mut combos);
                proof {
                    assert(nested_view(subsets@) =~~= sdv0 + cdv);
                    assert(subsets_sizes(elements@, s as nat, m as nat) == combos_select(
                        elements@, s as nat) + subsets_sizes(elements@, (s + 1) as nat, m as nat));
                    assert(nested_view(subsets@) + subsets_sizes(elements@, (s + 1) as nat,
                        m as nat) =~= goal);
                }
            },
            Err(_) => {
                proof {
                    assert(subsets_sizes(elements@, s as nat, m as nat)
                        =~= Seq::<Seq<T>>::empty());
                    assert(nested_view(subsets@) + Seq::<Seq<T>>::empty()
                        =~= nested_view(subsets@));
                }
                return subsets;
            },
        }
        if s == m {
            proof {
                assert(subsets_sizes(elements@, (s + 1) as nat, m as nat)
                    =~= Seq::<Seq<T>>::empty());
                assert(nested_view(subsets@) + Seq::<Seq<T>>::empty() =~= nested_view(subsets@));
            }
            return subsets;
        }
        s = s + 1;
    }
    proof {
        assert(subsets_sizes(elements@, s as nat, m as nat) =~= Seq::<Seq<T>>::empty());
        assert(nested_view(subsets@) + Seq::<Seq<T>>::empty() =~= nested_view(subsets@));
    }
    subsets
}

/// All length-`k` index tuples over `[0, n)` whose first entry is at least
/// `d`, ordered like counting: by first entry, then recursively.
pub open spec fn prods_from(n: int, k: nat, d: int) -> Seq<Seq<int>>
    decreases k, n - d,
{
    if k == 0 {
        seq![Seq::<int>::empty()]
    } else if d >= n {
        Seq::<Seq<int>>::empty()
    } else {
        prepend_all(d, prods_from(n, (k - 1) as nat, 0)) + prods_from(n, k, d + 1)
    }
}

/// All length-`k` tuples of `elements`, ordered like a `k`-digit counter in
/// base `elements.len()`.
pub open spec fn prods_select<T>(elements: Seq<T>, k: nat) -> Seq<Seq<T>> {
    prods_from(elements.len() as int, k, 0).map_values(
        |c: Seq<int>| c.map_values(|i: int| elements[i]),
    )
}

/// Every entry of `prods_from(n, k, d)` has length `k` and members in `[0, n)`.
#[verifier::rlimit(100)]
pub proof fn lemma_prods_from_valid(n: int, k: nat, d: int)
    requires
        0 <= d,
    ensures
        forall|j: int|
            0 <= j < prods_from(n, k, d).len() ==> (#[trigger] prods_from(n, k, d)[j]).len() == k
                && (forall|p: int|
                0 <= p < k ==> 0 <= #[trigger] prods_from(n, k, d)[j][p] < n),
    decreases k, n - d,
{
    if k == 0 {
    } else if d >= n {
    } else {
        lemma_prods_from_valid(n, (k - 1) as nat, 0);
        lemma_prods_from_valid(n, k, d + 1);
        let head = prepend_all(d, prods_from(n, (k - 1) as nat, 0));
        let tail = prods_from(n, k, d + 1);
        assert forall|j: int| 0 <= j < head.len() implies (#[trigger] head[j]).len() == k && (
        forall|p: int| 0 <= p < k ==> 0 <= #[trigger] head[j][p] < n) by {
            let c = prods_from(n, (k - 1) as nat, 0)[j];
            assert(head[j] == seq![d] + c);
            assert(c.len() == (k - 1) as nat);
            assert forall|p: int| 0 <= p < k implies 0 <= #[trigger] head[j][p] < n by {
                if p == 0 {
                    assert(head[j][0] == d);
                } else {
                    assert(0 <= c[p - 1] < n);
                    assert(head[j][p] == c[p - 1]);
                }
            }
        }
        assert forall|j: int|
            0 <= j < prods_from(n, k, d).len() implies (#[trigger] prods_from(n, k, d)[j]).len()
            == k && (forall|p: int| 0 <= p < k ==> 0 <= #[trigger] prods_from(n, k, d)[j][p] < n) by {
            if j < head.len() {
                assert(prods_from(n, k, d)[j] == head[j]);
            } else {
                assert(prods_from(n, k, d)[j] == tail[j - head.len()]);
            }
        }
    }
}

/// Integer power, the count of length-`e` tuples over a base-`b` alphabet.
pub open spec fn pow_nat(b: nat, e: nat) -> nat
    decreases e,
{
    if e == 0 {
        1
    } else {
        b * pow_nat(b, (e - 1) as nat)
    }
}

/// One unfolding of `pow_nat`.
proof fn lemma_pow_nat_step(b: nat, e: nat)
    ensures
        pow_nat(b, e + 1) == b * pow_nat(b, e),
{
}

/// With a base of at least 1, powers do not shrink as the exponent grows.
proof fn lemma_pow_nat_monotone(b: nat, e1: nat, e2: nat)
    requires
        b >= 1,
        e1 <= e2,
    ensures
        pow_nat(b, e1) <= pow_nat(b, e2),
    decreases e2,
{
    if e1 < e2 {
        lemma_pow_nat_monotone(b, e1, (e2 - 1) as nat);
        let prev = pow_nat(b, (e2 - 1) as nat);
        assert(pow_nat(b, e2) == b * prev);
        assert(prev <= b * prev) by (nonlinear_arith)
            requires
                b >= 1,
                prev >= 0,
        ;
    }
}

/// Exact power `len ^ size`, or `None` if it exceeds `usize::MAX`.
#[verifier::rlimit(50)]
fn count_products(len: usize, size: usize) -> (r: Option<usize>)
    ensures
        match r {
            Some(c) => c == pow_nat(len as nat, size as nat),
            None => pow_nat(len as nat, size as nat) > usize::MAX,
        },
{
    let mut acc: usize = 1;
    let mut i: usize = 0;
    while i < size
        invariant
            i <= size,
            acc == pow_nat(len as nat, i as nat),
        decreases size - i,
    {
        proof {
            lemma_pow_nat_step(len as nat, i as nat);
        }
        match acc.checked_mul(len) {
            Some(p) => {
                acc = p;
            },
            None => {
                proof {
                    // Overflow forces a positive base, and with base >= 1 the
                    // final power is at least this overflowing prefix.
                    assert(acc * len > usize::MAX);
                    assert(len >= 1) by (nonlinear_arith)
                        requires
                            acc * len > usize::MAX,
                            acc >= 0,
                            len >= 0,
                    ;
                    lemma_pow_nat_monotone(len as nat, (i + 1) as nat, size as nat);
                }
                return None;
            },
        }
        i = i + 1;
    }
    Some(acc)
}

/// Checks a cartesian-product request; returns the exact count
/// `len ^ size` on success.
fn check_products(len: usize, size: usize) -> (r: Result<usize, CombinatoricsError>)
    ensures
        match r {
            Ok(c) => size <= len && c == pow_nat(len as nat, size as nat) && c
                <= ENUMERATION_LIMIT,
            Err(e) => products_rejected(len as nat, size as nat, e),
        },
{
    if size > len {
        return Err(CombinatoricsError::InvalidSize { size, len });
    }
    match count_products(len, size) {
        Some(c) => {
            if c > ENUMERATION_LIMIT {
                Err(CombinatoricsError::TooLarge(c))
            } else {
                Ok(c)
            }
        },
        None => Err(CombinatoricsError::TooLarge(usize::MAX)),
    }
}

/// What a rejection of a cartesian-product request promises, mirroring
/// [`combinations_rejected`] with the count `len ^ size`.
pub open spec fn products_rejected(len: nat, size: nat, e: CombinatoricsError) -> bool {
    match e {
        CombinatoricsError::InvalidSize { size: s, len: l } => s == size && l == len && size > len,
        CombinatoricsError::TooLarge(c) => size <= len && pow_nat(len, size) > ENUMERATION_LIMIT
            && (pow_nat(len, size) <= usize::MAX ==> c == pow_nat(len, size)),
    }
}

/// Enumerates `prods_from(n, k, 0)` as index vectors; the recursion depth is
/// bounded by `k`.
#[verifier::loop_isolation(false)]
fn prods_rec(n: usize, k: usize) -> (r: Vec<Vec<usize>>)
    ensures
        to_int_seqs(nested_view(r@)) == prods_from(n as int, k as nat, 0),
    decreases k,
{
    let ghost goal = prods_from(n as int, k as nat, 0);
    if k == 0 {
        let mut r: Vec<Vec<usize>> = Vec::new();
        r.push(Vec::new());
        proof {
            assert(to_int_seqs(nested_view(r@)) =~~= goal);
        }
        return r;
    }
    let mut r: Vec<Vec<usize>> = Vec::new();
    let sub = prods_rec(n, k - 1);
    let ghost subspec = prods_from(n as int, (k - 1) as nat, 0);
    let mut d0: usize = 0;
    while d0 < n
        invariant
            d0 <= n,
            1 <= k,
            to_int_seqs(nested_view(sub@)) == subspec,
            to_int_seqs(nested_view(r@)) + prods_from(n as int, k as nat, d0 as int) == goal,
        decreases n - d0,
    {
        let ghost headspec = prepend_all(d0 as int, subspec);
        let ghost base = to_int_seqs(nested_view(r@));
        let mut j: usize = 0;
        while j < sub.len()
            invariant
                j <= sub.len(),
                to_int_seqs(nested_view(r@)) == base + headspec.take(j as int),
            decreases sub.len() - j,
        {
            let c: &Vec<usize> = &sub[j];
            let mut d: Vec<usize> = Vec::new();
            d.push(d0);
            let mut t: usize = 0;
            while t < c.len()
                invariant
                    t <= c.len(),
                    d@ == seq![d0].add(c@.take(t as int)),
                decreases c.len() - t,
            {
                d.push(c[t]);
                proof {
                    assert(d@ =~= seq![d0].add(c@.take(t + 1)));
                }
                t = t + 1;
            }
            proof {
                assert(c@.take(c.len() as int) =~= c@);
            }
            r.push(d);
            proof {
                let g = |x: usize| x as int;
                let cs = subspec[j as int];
                assert(cs == to_int_seqs(nested_view(sub@))[j as int]);
                assert(cs =~= c@.map_values(g));
                assert(d@.map_values(g) =~= seq![d0 as int] + cs);
                assert(headspec[j as int] == seq![d0 as int] + cs);
                assert(to_int_seqs(nested_view(r@)) =~= (base + headspec.take(j as int)).push(
                    headspec[j as int]));
                assert((base + headspec.take(j as int)).push(headspec[j as int]) =~= base
                    + headspec.take(j + 1));
            }
            j = j + 1;
        }
        proof {
            assert(headspec.take(headspec.len() as int) =~= headspec);
            assert(prods_from(n as int, k as nat, d0 as int) == headspec + prods_from(
                n as int, k as nat, d0 + 1));
            assert(to_int_seqs(nested_view(r@)) + prods_from(n as int, k as nat, d0 + 1)
                =~= goal);
        }
        d0 = d0 + 1;
    }
    proof {
        assert(prods_from(n as int, k as nat, d0 as int) =~= Seq::<Seq<int>>::empty());
        assert(to_int_seqs(nested_view(r@)) + Seq::<Seq<int>>::empty() =~= to_int_seqs(
            nested_view(r@)));
    }
    r
}

/// All cartesian products of `size` entries drawn from `elements`, ordered
/// like a `size`-digit counter in base `elements.len()`.
///
/// Rejects the request when `size` exceeds the population or when the number
/// of products exceeds [`ENUMERATION_LIMIT`].
#[verifier::loop_isolation(false)]
pub fn generate_products<T: Copy>(elements: &[T], size: usize) -> (r: Result<
    Vec<Vec<T>>,
    CombinatoricsError,
>)
    ensures
        match r {
            Ok(v) => size <= elements@.len() && pow_nat(elements@.len() as nat, size as nat)
                <= ENUMERATION_LIMIT && nested_view(v@) == prods_select(elements@, size as nat),
            Err(e) => products_rejected(elements@.len() as nat, size as nat, e),
        },
{
    let len = elements.len();
    match check_products(len, size) {
        Err(e) => Err(e),
        Ok(_) => {
            let idx = prods_rec(len, size);
            proof {
                lemma_prods_from_valid(len as int, size as nat, 0);
            }
            let ghost cs = prods_from(len as int, size as nat, 0);
            let mut out: Vec<Vec<T>> = Vec::new();
            let mut j: usize = 0;
            while j < idx.len()
                invariant
                    j <= idx.len(),
                    nested_view(out@) == prods_select(elements@, size as nat).take(j as int),
                decreases idx.len() - j,
            {
                let c: &Vec<usize> = &idx[j];
                proof {
                    assert(to_int_seqs(nested_view(idx@))[j as int] == cs[j as int]);
                    assert(c@.map_values(|x: usize| x as int) =~= cs[j as int]);
                }
                let mut row: Vec<T> = Vec::new();
                let mut t: usize = 0;
                while t < c.len()
                    invariant
                        t <= c.len(),
                        row@ == cs[j as int].map_values(|i: int| elements@[i]).take(t as int),
                    decreases c.len() - t,
                {
                    proof {
                        assert(cs[j as int][t as int] == c@[t as int]);
                        assert(0 <= c@[t as int] < len);
                    }
                    row.push(elements[c[t]]);
                    proof {
                        let rowspec = cs[j as int].map_values(|i: int| elements@[i]);
                        assert(rowspec.take(t as int).push(rowspec[t as int]) =~= rowspec.take(
                            t + 1));
                    }
                    t = t + 1;
                }
                out.push(row);
                proof {
                    let sel = prods_select(elements@, size as nat);
                    assert(cs[j as int].map_values(|i: int| elements@[i]).take(c@.len() as int)
                        =~= cs[j as int].map_values(|i: int| elements@[i]));
                    assert(sel[j as int] == cs[j as int].map_values(|i: int| elements@[i]));
                    assert(nested_view(out@) =~= sel.take(j + 1));
                }
                j = j + 1;
            }
            proof {
                let sel = prods_select(elements@, size as nat);
                assert(sel.take(sel.len() as int) =~= sel);
            }
            Ok(out)
        },
    }
}

/// Members of `c` increase strictly from left to right.
pub open spec fn strictly_ascending(c: Seq<usize>) -> bool {
    forall|p: int| 0 < p < c.len() ==> c[p - 1] < #[trigger] c[p]
}

/// `c` is a size-`k` combination of indices below `n`: strictly ascending,
/// all members in range.
pub open spec fn combo_in_range(c: Seq<usize>, n: nat, k: nat) -> bool {
    c.len() == k && strictly_ascending(c) && (forall|p: int|
        0 <= p < c.len() ==> #[trigger] c[p] < n)
}

/// `c` is a length-`k` tuple of indices below `n`.
pub open spec fn tuple_in_range(c: Seq<usize>, n: nat, k: nat) -> bool {
    c.len() == k && (forall|p: int| 0 <= p < c.len() ==> #[trigger] c[p] < n)
}

/// `a` comes strictly before `b` in lexicographic order.
pub open spec fn lex_below(a: Seq<usize>, b: Seq<usize>) -> bool {
    exists|p: int|
        #![auto]
        0 <= p < a.len() && p < b.len() && a[p] < b[p] && (forall|q: int|
            0 <= q < p ==> a[q] == b[q])
}

/// The members of `elements` selected at the positions in `c`, in order.
pub open spec fn select_seq<T>(elements: Seq<T>, c: Seq<usize>) -> Seq<T> {
    Seq::new(c.len(), |p: int| elements[c[p] as int])
}

/// `c` is the lexicographically least combination over `[0, n)` of `prev`'s
/// size that lies strictly after `prev`.
pub open spec fn is_combo_successor(prev: Seq<usize>, c: Seq<usize>, n: nat) -> bool {
    &&& combo_in_range(c, n, prev.len() as nat)
    &&& lex_below(prev, c)
    &&& forall|d: Seq<usize>|
        #![trigger combo_in_range(d, n, prev.len() as nat), lex_below(prev, d)]
        combo_in_range(d, n, prev.len() as nat) && lex_below(prev, d) && d != c ==> lex_below(c, d)
}

/// `c` is the lexicographically least tuple over `[0, n)` of `prev`'s length
/// that lies strictly after `prev`.
pub open spec fn is_tuple_successor(prev: Seq<usize>, c: Seq<usize>, n: nat) -> bool {
    &&& tuple_in_range(c, n, prev.len() as nat)
    &&& lex_below(prev, c)
    &&& forall|d: Seq<usize>|
        #![trigger tuple_in_range(d, n, prev.len() as nat), lex_below(prev, d)]
        tuple_in_range(d, n, prev.len() as nat) && lex_below(prev, d) && d != c ==> lex_below(c, d)
}

/// A strictly ascending sequence grows by at least one per step.
proof fn lemma_gap(c: Seq<usize>, a: int, b: int)
    requires
        strictly_ascending(c),
        0 <= a <= b < c.len(),
    ensures
        c[b] >= c[a] + (b - a),
    decreases b - a,
{
    if a < b {
        lemma_gap(c, a, b - 1);
    }
}

/// In a combination over `[0, n)`, position `p` is bounded by what must
/// still fit after it.
proof fn lemma_combo_upper(c: Seq<usize>, n: nat, p: int)
    requires
        combo_in_range(c, n, c.len() as nat),
        0 <= p < c.len(),
    ensures
        c[p] + (c.len() - 1 - p) < n,
{
    lemma_gap(c, p, c.len() - 1);
}

/// First position where two distinct equal-length sequences differ.
proof fn lemma_first_diff_from(c: Seq<usize>, d: Seq<usize>, s: int) -> (p: int)
    requires
        c.len() == d.len(),
        0 <= s <= c.len(),
        forall|q: int| 0 <= q < s ==> c[q] == d[q],
        c != d,
    ensures
        s <= p < c.len(),
        c[p] != d[p],
        forall|q: int| 0 <= q < p ==> c[q] == d[q],
    decreases c.len() - s,
{
    if s == c.len() {
        assert(c =~= d);
        s
    } else if c[s] != d[s] {
        s
    } else {
        lemma_first_diff_from(c, d, s + 1)
    }
}

/// The odometer step yields the lexicographic successor among combinations:
/// position `j` advanced by one, everything after it reset to the closest
/// following run.
proof fn lemma_combo_successor(a: Seq<usize>, c: Seq<usize>, n: nat, j: int)
    requires
        combo_in_range(a, n, a.len() as nat),
        0 <= j < a.len(),
        a[j] + (a.len() - j) < n,
        forall|t: int| j < t < a.len() ==> a[t] + (a.len() - t) == n,
        c.len() == a.len(),
        forall|t: int| 0 <= t < j ==> c[t] == a[t],
        forall|t: int| j <= t < c.len() ==> c[t] == a[j] + 1 + (t - j),
    ensures
        is_combo_successor(a, c, n),
{
    let k = a.len() as int;
    assert forall|t: int| 0 < t < k implies c[t - 1] < #[trigger] c[t] by {
        if t < j {
        } else if t == j {
            if j > 0 {
                assert(c[t - 1] == a[j - 1] && a[j - 1] < a[j]);
            }
        }
    }
    assert forall|t: int| 0 <= t < k implies #[trigger] c[t] < n by {
        if t >= j {
            assert(c[t] == a[j] + 1 + (t - j));
        }
    }
    assert(combo_in_range(c, n, a.len() as nat));
    assert(lex_below(a, c)) by {
        assert(0 <= j < k && a[j] < c[j] && (forall|q: int| 0 <= q < j ==> a[q] == c[q]));
    }
    assert forall|d: Seq<usize>|
        combo_in_range(d, n, a.len() as nat) && lex_below(a, d) && d != c implies #[trigger]
    lex_below(c, d) by {
        let p = choose|p: int|
            #![auto]
            0 <= p < a.len() && p < d.len() && a[p] < d[p] && (forall|q: int|
                0 <= q < p ==> a[q] == d[q]);
        if p > j {
            lemma_combo_upper(d, n, p);
            assert(a[p] + (k - p) == n);
            assert(false);
        } else if p == j {
            if d[j] > c[j] {
                assert(0 <= j < k && c[j] < d[j] && (forall|q: int| 0 <= q < j ==> c[q] == d[q]));
            } else {
                assert(d[j] == c[j]);
                let t0 = lemma_first_diff_from(c, d, 0);
                assert(t0 > j);
                lemma_gap(d, j, t0);
                assert(c[t0] == a[j] + 1 + (t0 - j));
                assert(d[t0] > c[t0]);
                assert(0 <= t0 < k && c[t0] < d[t0] && (forall|q: int|
                    0 <= q < t0 ==> c[q] == d[q]));
            }
        } else {
            assert(0 <= p < k && c[p] < d[p] && (forall|q: int| 0 <= q < p ==> c[q] == d[q]));
        }
    }
}

/// A combination whose every position sits at its maximum has no successor.
proof fn lemma_combo_exhausted(a: Seq<usize>, n: nat)
    requires
        combo_in_range(a, n, a.len() as nat),
        forall|t: int| 0 <= t < a.len() ==> a[t] + (a.len() - t) == n,
    ensures
        forall|d: Seq<usize>|
            #![trigger combo_in_range(d, n, a.len() as nat)]
            combo_in_range(d, n, a.len() as nat) ==> !lex_below(a, d),
{
    assert forall|d: Seq<usize>| combo_in_range(d, n, a.len() as nat) implies !lex_below(a, d) by {
        if lex_below(a, d) {
            let p = choose|p: int|
                #![auto]
                0 <= p < a.len() && p < d.len() && a[p] < d[p] && (forall|q: int|
                    0 <= q < p ==> a[q] == d[q]);
            lemma_combo_upper(d, n, p);
            assert(a[p] + (a.len() - p) == n);
            assert(false);
        }
    }
}

/// The odometer step yields the lexicographic successor among tuples:
/// position `j` advanced by one, everything after it reset to zero.
proof fn lemma_tuple_successor(a: Seq<usize>, c: Seq<usize>, n: nat, j: int)
    requires
        tuple_in_range(a, n, a.len() as nat),
        0 <= j < a.len(),
        a[j] + 1 < n,
        forall|t: int| j < t < a.len() ==> a[t] + 1 == n,
        c.len() == a.len(),
        forall|t: int| 0 <= t < j ==> c[t] == a[t],
        c[j] == a[j] + 1,
        forall|t: int| j < t < c.len() ==> c[t] == 0,
    ensures
        is_tuple_successor(a, c, n),
{
    let k = a.len() as int;
    assert(tuple_in_range(c, n, a.len() as nat));
    assert(lex_below(a, c)) by {
        assert(0 <= j < k && a[j] < c[j] && (forall|q: int| 0 <= q < j ==> a[q] == c[q]));
    }
    assert forall|d: Seq<usize>|
        tuple_in_range(d, n, a.len() as nat) && lex_below(a, d) && d != c implies #[trigger]
    lex_below(c, d) by {
        let p = choose|p: int|
            #![auto]
            0 <= p < a.len() && p < d.len() && a[p] < d[p] && (forall|q: int|
                0 <= q < p ==> a[q] == d[q]);
        if p > j {
            assert(d[p] < n);
            assert(a[p] + 1 == n);
            assert(false);
        } else if p == j {
            if d[j] > c[j] {
                assert(0 <= j < k && c[j] < d[j] && (forall|q: int| 0 <= q < j ==> c[q] == d[q]));
            } else {
                assert(d[j] == c[j]);
                let t0 = lemma_first_diff_from(c, d, 0);
                assert(t0 > j);
                assert(c[t0] == 0);
                assert(d[t0] > c[t0]);
                assert(0 <= t0 < k && c[t0] < d[t0] && (forall|q: int|
                    0 <= q < t0 ==> c[q] == d[q]));
            }
        } else {
            assert(0 <= p < k && c[p] < d[p] && (forall|q: int| 0 <= q < p ==> c[q] == d[q]));
        }
    }
}

/// A tuple of all maximal digits has no successor.
proof fn lemma_tuple_exhausted(a: Seq<usize>, n: nat)
    requires
        tuple_in_range(a, n, a.len() as nat),
        forall|t: int| 0 <= t < a.len() ==> a[t] + 1 == n,
    ensures
        forall|d: Seq<usize>|
            #![trigger tuple_in_range(d, n, a.len() as nat)]
            tuple_in_range(d, n, a.len() as nat) ==> !lex_below(a, d),
{
    assert forall|d: Seq<usize>| tuple_in_range(d, n, a.len() as nat) implies !lex_below(a, d) by {
        if lex_below(a, d) {
            let p = choose|p: int|
                #![auto]
                0 <= p < a.len() && p < d.len() && a[p] < d[p] && (forall|q: int|
                    0 <= q < p ==> a[q] == d[q]);
            assert(d[p] < n);
            assert(false);
        }
    }
}

/// Copies the elements at the positions in `c` out of `elements`.
fn select_at<T: Copy>(elements: &Vec<T>, c: &Vec<usize>) -> (v: Vec<T>)
    requires
        forall|p: int| 0 <= p < c@.len() ==> #[trigger] c@[p] < elements@.len(),
    ensures
        v@ == select_seq(elements@, c@),
{
    let mut v: Vec<T> = Vec::new();
    let mut t: usize = 0;
    while t < c.len()
        invariant
            t <= c@.len(),
            forall|p: int| 0 <= p < c@.len() ==> #[trigger] c@[p] < elements@.len(),
            v@ == select_seq(elements@, c@).take(t as int),
        decreases c@.len() - t,
    {
        v.push(elements[c[t]]);
        proof {
            let sel = select_seq(elements@, c@);
            assert(sel.take(t as int).push(sel[t as int]) =~= sel.take(t + 1));
        }
        t = t + 1;
    }
    proof {
        assert(select_seq(elements@, c@).take(c@.len() as int) =~= select_seq(elements@, c@));
    }
    v
}

/// Iterator over the size-`size` combinations of a set of elements, in
/// lexicographic index order, by the odometer rule: advance the rightmost
/// index that still has room, and reset everything to its right to the
/// closest following run.
pub struct Combinations<T> {
    elements: Vec<T>,
    indices: Vec<usize>,
    is_first: bool,
    size: usize,
}

impl<T: Copy> Combinations<T> {
    /// The elements combinations are drawn from.
    pub closed spec fn elems(&self) -> Seq<T> {
        self.elements@
    }

    /// The size of each emitted combination.
    pub closed spec fn combo_size(&self) -> nat {
        self.size as nat
    }

    /// The index combination most recently emitted (or, before the first
    /// call of `next`, the one about to be emitted).
    pub closed spec fn current(&self) -> Seq<usize> {
        self.indices@
    }

    /// True until `next` has been called once.
    pub closed spec fn at_start(&self) -> bool {
        self.is_first
    }

    /// The iterator's indices always form a combination in range.
    pub closed spec fn wf(&self) -> bool {
        &&& combo_in_range(self.indices@, self.elements@.len() as nat, self.size as nat)
        &&& self.size <= self.elements@.len()
        &&& (self.is_first ==> forall|p: int| 0 <= p < self.size ==> self.indices@[p] == p)
    }

    /// Creates a combinations iterator over `elements`, rejecting a size
    /// larger than the population and requests over the enumeration guard.
    #[verifier::loop_isolation(false)]
    pub fn new(elements: &[T], size: usize) -> (r: Result<Combinations<T>, CombinatoricsError>)
        ensures
            match r {
                Ok(it) => {
                    &&& size <= elements@.len()
                    &&& binom(elements@.len() as nat, size as nat) <= ENUMERATION_LIMIT
                    &&& it.wf()
                    &&& it.at_start()
                    &&& it.elems() == elements@
                    &&& it.combo_size() == size as nat
                    &&& it.current().len() == size
                    &&& forall|p: int| 0 <= p < size ==> it.current()[p] == p
                },
                Err(e) => combinations_rejected(elements@.len() as nat, size as nat, e),
            },
    {
        let len = elements.len();
        match check_combinations(len, size) {
            Err(e) => {
                return Err(e);
            },
            Ok(_) => {},
        }
        let mut indices: Vec<usize> = Vec::new();
        let mut p: usize = 0;
        while p < size
            invariant
                p <= size,
                indices@.len() == p,
                forall|q: int| 0 <= q < p ==> indices@[q] == q,
            decreases size - p,
        {
            indices.push(p);
            p = p + 1;
        }
        let mut own: Vec<T> = Vec::new();
        let mut t: usize = 0;
        while t < elements.len()
            invariant
                t <= elements@.len(),
                own@ == elements@.take(t as int),
            decreases elements@.len() - t,
        {
            own.push(elements[t]);
            proof {
                assert(own@ =~= elements@.take(t + 1));
            }
            t = t + 1;
        }
        proof {
            assert(elements@.take(elements@.len() as int) =~= elements@);
        }
        Ok(Combinations { elements: own, indices, is_first: true, size })
    }

    /// Emits the next combination: first the starting one, then at each call
    /// the lexicographic successor of the previous combination, until none
    /// is left.
    #[verifier::loop_isolation(false)]
    #[verifier::rlimit(100)]
    pub fn next(&mut self) -> (r: Option<Vec<T>>)
        requires
            old(self).wf(),
        ensures
            final(self).wf(),
            !final(self).at_start(),
            final(self).elems() == old(self).elems(),
            final(self).combo_size() == old(self).combo_size(),
            match r {
                Some(v) => {
                    &&& v@ == select_seq(old(self).elems(), final(self).current())
                    &&& (old(self).at_start() ==> final(self).current() == old(self).current())
                    &&& (!old(self).at_start() ==> is_combo_successor(
                        old(self).current(),
                        final(self).current(),
                        old(self).elems().len() as nat,
                    ))
                },
                None => {
                    &&& !old(self).at_start()
                    &&& final(self).current() == old(self).current()
                    &&& forall|d: Seq<usize>|
                        #![trigger combo_in_range(d, old(self).elems().len() as nat, old(self).combo_size())]
                        combo_in_range(d, old(self).elems().len() as nat, old(self).combo_size())
                            ==> !lex_below(old(self).current(), d)
                },
            },
    {
        if self.is_first {
            self.is_first = false;
            let v = select_at(&self.elements, &self.indices);
            return Some(v);
        }
        let len = self.elements.len();
        let size = self.size;
        let ghost a = self.indices@;
        let ghost elems0 = self.elements@;
        let mut i: usize = size;
        while i > 0
            invariant
                i <= size,
                self.indices@ == a,
                self.elements@ == elems0,
                self.size == size,
                !self.is_first,
                forall|t: int| i <= t < size ==> a[t] + (size - t) == len,
            decreases i,
        {
            i = i - 1;
            if self.indices[i] != len - size + i {
                proof {
                    lemma_combo_upper(a, len as nat, i as int);
                }
                let base = self.indices[i];
                self.indices.set(i, base + 1);
                let mut j = i + 1;
                while j < size
                    invariant
                        i < j <= size,
                        self.indices@.len() == size,
                        self.elements@ == elems0,
                        self.size == size,
                        !self.is_first,
                        base == a[i as int],
                        base + (size - i) < len,
                        forall|t: int| 0 <= t < i ==> self.indices@[t] == a[t],
                        forall|t: int|
                            i <= t < j ==> self.indices@[t] == a[i as int] + 1 + (t - i),
                        forall|t: int| j <= t < size ==> self.indices@[t] == a[t],
                    decreases size - j,
                {
                    proof {
                        assert(self.indices@[j - 1] == a[i as int] + 1 + (j - 1 - i));
                        assert(self.indices@[j - 1] < len);
                    }
                    let w = self.indices[j - 1] + 1;
                    self.indices.set(j, w);
                    j = j + 1;
                }
                proof {
                    lemma_combo_successor(a, self.indices@, len as nat, i as int);
                }
                let v = select_at(&self.elements, &self.indices);
                return Some(v);
            }
        }
        proof {
            lemma_combo_exhausted(a, len as nat);
        }
        None
    }
}

/// Iterator over the length-`size` tuples of a set of elements, in the order
/// of a `size`-digit counter in base `elements.len()`.
pub struct CartesianProduct<T> {
    elements: Vec<T>,
    indices: Vec<usize>,
    is_first: bool,
    size: usize,
}

impl<T: Copy> CartesianProduct<T> {
    /// The elements tuples are drawn from.
    pub closed spec fn elems(&self) -> Seq<T> {
        self.elements@
    }

    /// The length of each emitted tuple.
    pub closed spec fn tuple_size(&self) -> nat {
        self.size as nat
    }

    /// The index tuple most recently emitted (or, before the first call of
    /// `next`, the one about to be emitted).
    pub closed spec fn current(&self) -> Seq<usize> {
        self.indices@
    }

    /// True until `next` has been called once.
    pub closed spec fn at_start(&self) -> bool {
        self.is_first
    }

    /// The iterator's indices always form a tuple in range.
    pub closed spec fn wf(&self) -> bool {
        &&& tuple_in_range(self.indices@, self.elements@.len() as nat, self.size as nat)
        &&& (self.is_first ==> forall|p: int| 0 <= p < self.size ==> self.indices@[p] == 0)
    }

    /// Creates a cartesian-product iterator over `elements`, rejecting a
    /// size larger than the population and requests over the enumeration
    /// guard.
    #[verifier::loop_isolation(false)]
    pub fn new(elements: &[T], size: usize) -> (r: Result<
        CartesianProduct<T>,
        CombinatoricsError,
    >)
        ensures
            match r {
                Ok(it) => {
                    &&& size <= elements@.len()
                    &&& pow_nat(elements@.len() as nat, size as nat) <= ENUMERATION_LIMIT
                    &&& it.wf()
                    &&& it.at_start()
                    &&& it.elems() == elements@
                    &&& it.tuple_size() == size as nat
                    &&& it.current().len() == size
                    &&& forall|p: int| 0 <= p < size ==> it.current()[p] == 0
                },
                Err(e) => products_rejected(elements@.len() as nat, size as nat, e),
            },
    {
        let len = elements.len();
        match check_products(len, size) {
            Err(e) => {
                return Err(e);
            },
            Ok(_) => {},
        }
        let mut indices: Vec<usize> = Vec::new();
        let mut p: usize = 0;
        while p < size
            invariant
                p <= size,
                size <= len,
                indices@.len() == p,
                forall|q: int| 0 <= q < p ==> indices@[q] == 0,
            decreases size - p,
        {
            indices.push(0);
            p = p + 1;
        }
        let mut own: Vec<T> = Vec::new();
        let mut t: usize = 0;
        while t < elements.len()
            invariant
                t <= elements@.len(),
                own@ == elements@.take(t as int),
            decreases elements@.len() - t,
        {
            own.push(elements[t]);
            proof {
                assert(own@ =~= elements@.take(t + 1));
            }
            t = t + 1;
        }
        proof {
            assert(elements@.take(elements@.len() as int) =~= elements@);
        }
        Ok(CartesianProduct { elements: own, indices, is_first: true, size })
    }

    /// Emits the next tuple: first the all-zero one, then at each call the
    /// lexicographic successor of the previous tuple, until none is left.
    #[verifier::loop_isolation(false)]
    #[verifier::rlimit(100)]
    pub fn next(&mut self) -> (r: Option<Vec<T>>)
        requires
            old(self).wf(),
        ensures
            final(self).wf(),
            !final(self).at_start(),
            final(self).elems() == old(self).elems(),
            final(self).tuple_size() == old(self).tuple_size(),
            match r {
                Some(v) => {
                    &&& v@ == select_seq(old(self).elems(), final(self).current())
                    &&& (old(self).at_start() ==> final(self).current() == old(self).current())
                    &&& (!old(self).at_start() ==> is_tuple_successor(
                        old(self).current(),
                        final(self).current(),
                        old(self).elems().len() as nat,
                    ))
                },
                None => {
                    &&& !old(self).at_start()
                    &&& final(self).current() == old(self).current()
                    &&& forall|d: Seq<usize>|
                        #![trigger tuple_in_range(d, old(self).elems().len() as nat, old(self).tuple_size())]
                        tuple_in_range(d, old(self).elems().len() as nat, old(self).tuple_size())
                            ==> !lex_below(old(self).current(), d)
                },
            },
    {
        if self.is_first {
            self.is_first = false;
            let v = select_at(&self.elements, &self.indices);
            return Some(v);
        }
        let len = self.elements.len();
        let size = self.size;
        let ghost a = self.indices@;
        let ghost elems0 = self.elements@;
        let mut i: usize = size;
        while i > 0
            invariant
                i <= size,
                self.indices@ == a,
                self.elements@ == elems0,
                self.size == size,
                !self.is_first,
                forall|t: int| i <= t < size ==> a[t] + 1 == len,
            decreases i,
        {
            i = i - 1;
            let cur = self.indices[i];
            if cur + 1 < len {
                self.indices.set(i, cur + 1);
                let mut j = i + 1;
                while j < size
                    invariant
                        i < j <= size,
                        self.indices@.len() == size,
                        self.elements@ == elems0,
                        self.size == size,
                        !self.is_first,
                        forall|t: int| 0 <= t < i ==> self.indices@[t] == a[t],
                        self.indices@[i as int] == a[i as int] + 1,
                        forall|t: int| i < t < j ==> self.indices@[t] == 0,
                        forall|t: int| j <= t < size ==> self.indices@[t] == a[t],
                    decreases size - j,
                {
                    self.indices.set(j, 0);
                    j = j + 1;
                }
                proof {
                    lemma_tuple_successor(a, self.indices@, len as nat, i as int);
                }
                let v = select_at(&self.elements, &self.indices);
                return Some(v);
            }
        }
        proof {
            lemma_tuple_exhausted(a, len as nat);
        }
        None
    }
}


/// Members of an ascending sequence grow by at least one per position.
pub proof fn lemma_ascending_gap_int(c: Seq<int>, lo: int, n: int, a: int, b: int)
    requires
        ascending_in(c, lo, n),
        0 <= a <= b < c.len(),
    ensures
        c[b] >= c[a] + (b - a),
    decreases b - a,
{
    if a < b {
        lemma_ascending_gap_int(c, lo, n, a, b - 1);
    }
}

/// Completeness: every ascending size-`k` sequence over `[lo, n)` occurs
/// in the enumeration.
pub proof fn lemma_combos_complete(lo: int, n: int, k: nat, c: Seq<int>)
    requires
        ascending_in(c, lo, n),
        c.len() == k,
    ensures
        exists|j: int|
            0 <= j < combos_from(lo, n, k).len() && #[trigger] combos_from(lo, n, k)[j] == c,
    decreases k, n - lo,
{
    if k == 0 {
        assert(combos_from(lo, n, 0)[0] =~= c);
        assert(combos_from(lo, n, 0)[0] == c);
    } else {
        lemma_ascending_gap_int(c, lo, n, 0, k - 1);
        assert(lo + k <= n);
        let head = prepend_all(lo, combos_from(lo + 1, n, (k - 1) as nat));
        if c[0] == lo {
            let c2 = c.drop_first();
            assert(ascending_in(c2, lo + 1, n)) by {
                assert forall|p: int| 0 <= p < c2.len() implies lo + 1 <= #[trigger] c2[p]
                    < n by {
                    assert(c2[p] == c[p + 1]);
                    lemma_ascending_gap_int(c, lo, n, 0, p + 1);
                }
                assert forall|p: int| 0 < p < c2.len() implies c2[p - 1] < #[trigger] c2[p] by {
                    assert(c2[p] == c[p + 1] && c2[p - 1] == c[p]);
                }
            }
            lemma_combos_complete(lo + 1, n, (k - 1) as nat, c2);
            let j = choose|j: int|
                0 <= j < combos_from(lo + 1, n, (k - 1) as nat).len() && #[trigger] combos_from(
                    lo + 1,
                    n,
                    (k - 1) as nat,
                )[j] == c2;
            assert(head[j] == seq![lo] + c2);
            assert(seq![lo] + c2 =~= c);
            assert(combos_from(lo, n, k)[j] == c);
        } else {
            assert(ascending_in(c, lo + 1, n)) by {
                assert forall|p: int| 0 <= p < c.len() implies lo + 1 <= #[trigger] c[p] < n by {
                    lemma_ascending_gap_int(c, lo, n, 0, p);
                }
            }
            lemma_combos_complete(lo + 1, n, k, c);
            let j = choose|j: int|
                0 <= j < combos_from(lo + 1, n, k).len() && #[trigger] combos_from(
                    lo + 1,
                    n,
                    k,
                )[j] == c;
            assert(combos_from(lo, n, k)[head.len() + j] == c);
        }
    }
}

} // verus!
