//! Persistent homology over GF(2): the chain-complex interface and the
//! boundary-matrix reduction engine.
//!
//! The engine processes the chains of a complex in their given order (the
//! caller pre-sorts by filtration level) and pairs births with deaths by
//! reducing each boundary toward echelon form.  Ties are broken by the
//! linear index assigned at construction, so the outcome is a pure function
//! of the complex, stated here as a specification-level recurrence
//! ([`run_state`], [`intervals_spec`]) that the executable code provably
//! implements.

use vstd::prelude::*;

verus! {

/// A defect found while looking up a boundary: the complex violates the
/// closure property.
#[derive(Debug, PartialEq, Eq, Structural)]
pub enum HomologyError {
    /// The face of the chain at index `chain` obtained by deleting `vertex`
    /// is not present in the complex.
    MissingFace { chain: usize, vertex: usize },
}

/// A persistence interval: when a topological feature appears and
/// disappears across the filtration, with the chains that generate it.
#[derive(Debug, Clone, PartialEq, Eq)]
pub struct PersistenceInterval {
    /// Filtration level at which the feature appears.
    pub birth: u64,
    /// Indices of the chains generating the feature at its birth.
    pub birth_chain: Vec<usize>,
    /// Filtration level at which the feature disappears, or `None` if it
    /// persists forever.
    pub death: Option<u64>,
    /// Indices of the chains that kill the feature, or `None` if it
    /// persists forever.
    pub death_chain: Option<Vec<usize>>,
}

/// A basis element of a chain complex.
pub trait Chain {
    /// The dimension, as a mathematical value.
    spec fn spec_dim(&self) -> nat;

    /// Whether the dimension is defined for this value (a simplex, for
    /// example, must have at least one vertex).
    spec fn dim_wf(&self) -> bool;

    /// Returns the dimension of this chain.
    fn dim(&self) -> (d: usize)
        requires
            self.dim_wf(),
        ensures
            d as nat == self.spec_dim(),
    ;
}

/// Abstract content of one chain of a complex: its dimension, filtration
/// level, and boundary (an index set over GF(2), or the defect its lookup
/// reports).
pub struct ChainModel {
    /// Dimension of the chain.
    pub dim: nat,
    /// Filtration level of the chain.
    pub level: u64,
    /// The boundary as a set of chain indices, or the closure defect.
    pub bnd: Result<Set<int>, HomologyError>,
}

/// Members of `s` increase strictly, so each index appears at most once.
pub open spec fn sorted_distinct(s: Seq<usize>) -> bool {
    forall|p: int| 0 < p < s.len() ==> s[p - 1] < #[trigger] s[p]
}

/// The set of indices a vector holds.
pub open spec fn index_set(s: Seq<usize>) -> Set<int> {
    s.map_values(|x: usize| x as int).to_set()
}

/// A chain complex whose boundary operator the persistence engine can
/// reduce: indexed chains, each with a dimension, a filtration level and a
/// GF(2) boundary over earlier-or-equal indices.  The chains must already
/// be sorted by non-decreasing filtration level; the engine never re-sorts.
pub trait ChainComplex<T: Chain>: Sized {
    /// The abstract contents of the complex.
    spec fn model(&self) -> Seq<ChainModel>;

    /// Well-formedness of the concrete representation.
    spec fn wf(&self) -> bool;

    /// Returns the number of chains in the complex.
    fn len(&self) -> (n: usize)
        requires
            self.wf(),
        ensures
            n == self.model().len(),
    ;

    /// Returns a reference to the chain at the given index.
    fn chain(&self, index: usize) -> (c: &T)
        requires
            self.wf(),
            index < self.model().len(),
        ensures
            c.dim_wf(),
            c.spec_dim() == self.model()[index as int].dim,
    ;

    /// Returns a reference to all chains in the complex.
    fn chains(&self) -> (cs: &Vec<T>)
        requires
            self.wf(),
        ensures
            cs@.len() == self.model().len(),
            forall|i: int|
                0 <= i < cs@.len() ==> (#[trigger] cs@[i]).dim_wf() && cs@[i].spec_dim()
                    == self.model()[i].dim,
    ;

    /// Returns the filtration level of the chain at the given index.
    fn filtration_level(&self, index: usize) -> (l: u64)
        requires
            self.wf(),
            index < self.model().len(),
        ensures
            l == self.model()[index as int].level,
    ;

    /// Returns the boundary of the chain at the given index, as a strictly
    /// ascending vector of chain indices (GF(2) coefficients: membership
    /// only), or reports the closure defect it found.
    fn boundary(&self, index: usize) -> (b: Result<Vec<usize>, HomologyError>)
        requires
            self.wf(),
            index < self.model().len(),
        ensures
            match b {
                Ok(v) => sorted_distinct(v@) && (forall|p: int|
                    0 <= p < v@.len() ==> #[trigger] v@[p] < self.model().len())
                    && self.model()[index as int].bnd == Ok::<Set<int>, HomologyError>(
                    index_set(v@),
                ),
                Err(e) => self.model()[index as int].bnd == Err::<Set<int>, HomologyError>(e),
            },
    ;
}

/// The greatest member of a set of indices.
pub open spec fn set_max(s: Set<int>) -> int {
    choose|m: int| s.contains(m) && (forall|e: int| s.contains(e) ==> e <= m)
}

/// A finite nonempty set of integers has a greatest member, and `set_max`
/// denotes it.
pub proof fn lemma_set_max(s: Set<int>)
    requires
        s.finite(),
        s.len() > 0,
    ensures
        s.contains(set_max(s)),
        forall|e: int| s.contains(e) ==> e <= set_max(s),
    decreases s.len(),
{
    let x = s.choose();
    assert(s.contains(x));
    let s2 = s.remove(x);
    if s2.len() == 0 {
        assert forall|e: int| s.contains(e) implies e <= x by {
            if e != x {
                assert(s2.contains(e));
                assert(s2.len() > 0) by {
                    if s2.len() == 0 {
                        assert(s2 =~= Set::<int>::empty());
                    }
                }
            }
        }
        assert(s.contains(x) && (forall|e: int| s.contains(e) ==> e <= x));
    } else {
        lemma_set_max(s2);
        let m2 = set_max(s2);
        let w = if x >= m2 {
            x
        } else {
            m2
        };
        assert(s.contains(w));
        assert forall|e: int| s.contains(e) implies e <= w by {
            if e != x {
                assert(s2.contains(e));
            }
        }
    }
}

/// Symmetric difference: the GF(2) sum of two index sets.
pub open spec fn sym_diff(a: Set<int>, b: Set<int>) -> Set<int> {
    a.difference(b).union(b.difference(a))
}

/// Working state of the reduction, one entry per chain: whether the chain
/// was marked a surviving cycle representative, the pivot co-boundary
/// stored at it (empty means unclaimed), the index of the chain that
/// claimed it, and the generating chain accumulated for it.
pub struct ReduState {
    /// Marked as a cycle representative.
    pub marked: Seq<bool>,
    /// Stored pivot co-boundary (empty = unclaimed).
    pub cob: Seq<Set<int>>,
    /// The chain that claimed this entry as its pivot.
    pub parent: Seq<int>,
    /// Accumulated generating chain.
    pub chain: Seq<Set<int>>,
}

/// Index `m` holds a stored pivot co-boundary.
pub open spec fn claimed(st: ReduState, m: int) -> bool {
    st.cob[m].len() != 0
}

/// The structural facts the reduction maintains about its state: stored
/// co-boundaries are finite, contain their own pivot index as maximum, and
/// belong to marked entries with an in-range parent.
pub open spec fn state_inv(st: ReduState, n: int) -> bool {
    &&& st.marked.len() == n
    &&& st.cob.len() == n
    &&& st.parent.len() == n
    &&& st.chain.len() == n
    &&& forall|m: int| 0 <= m < n ==> (#[trigger] st.cob[m]).finite()
    &&& forall|m: int| 0 <= m < n ==> (#[trigger] st.chain[m]).finite()
    &&& forall|m: int|
        0 <= m < n && claimed(st, m) ==> (#[trigger] st.cob[m]).contains(m) && (forall|e: int|
            st.cob[m].contains(e) ==> 0 <= e <= m) && 0 <= st.parent[m] < n && st.marked[m]
}

/// Precondition under which the reduction recurrence is defined: a finite
/// boundary over valid indices, against a state satisfying the invariant.
pub open spec fn reduce_pre(st: ReduState, b: Set<int>) -> bool {
    &&& b.finite()
    &&& forall|e: int| b.contains(e) ==> 0 <= e < st.cob.len()
    &&& state_inv(st, st.cob.len() as int)
}

/// Termination measure for the reduction: one past the greatest remaining
/// index, or zero when none remains.
pub open spec fn reduce_measure(b: Set<int>) -> int {
    if b.len() == 0 {
        0
    } else {
        set_max(b) + 1
    }
}

/// Reduces a boundary toward echelon form.  While the greatest remaining
/// index is claimed, the stored co-boundary is XOR-ed in (which removes
/// that index) and the claimant parent's generating chain is collected.
/// Returns the reduced boundary and the union of the collected chains.
pub open spec fn reduce(st: ReduState, b: Set<int>) -> (Set<int>, Set<int>)
    decreases reduce_measure(b),
        when reduce_pre(st, b)
        via reduce_decreases
{
    if b.len() == 0 {
        (b, Set::<int>::empty())
    } else {
        let m = set_max(b);
        if !claimed(st, m) {
            (b, Set::<int>::empty())
        } else {
            let rc = reduce(st, sym_diff(b, st.cob[m]));
            (rc.0, rc.1.union(st.chain[st.parent[m]]))
        }
    }
}

/// The XOR step removes the pivot and leaves only smaller indices, so the
/// measure of the reduction shrinks.
pub proof fn lemma_reduce_step(st: ReduState, b: Set<int>)
    requires
        reduce_pre(st, b),
        b.len() != 0,
        claimed(st, set_max(b)),
    ensures
        reduce_pre(st, sym_diff(b, st.cob[set_max(b)])),
        0 <= reduce_measure(sym_diff(b, st.cob[set_max(b)])) < reduce_measure(b),
{
    lemma_set_max(b);
    let m = set_max(b);
    let b2 = sym_diff(b, st.cob[m]);
    assert(b2.finite());
    assert forall|e: int| b2.contains(e) implies 0 <= e < st.cob.len() && e < m by {
        if b.contains(e) {
            assert(e <= m);
            assert(st.cob[m].contains(m));
            assert(!b2.contains(m));
        } else {
            assert(st.cob[m].contains(e));
            assert(0 <= e <= m);
        }
        assert(e != m) by {
            assert(st.cob[m].contains(m));
        }
    }
    if b2.len() != 0 {
        lemma_set_max(b2);
        assert(set_max(b2) < m);
    }
}

#[via_fn]
proof fn reduce_decreases(st: ReduState, b: Set<int>) {
    if b.len() != 0 {
        lemma_set_max(b);
        let m = set_max(b);
        if claimed(st, m) {
            lemma_reduce_step(st, b);
        }
    }
}

/// Restriction of a boundary to the indices marked as cycle
/// representatives.
pub open spec fn restrict_marked(st: ReduState, b: Set<int>) -> Set<int> {
    b.intersect(marked_set(st))
}

/// The set of indices currently marked as cycle representatives.
pub open spec fn marked_set(st: ReduState) -> Set<int> {
    Set::new(|e: int| 0 <= e < st.marked.len() && st.marked[e])
}

/// The boundary index set of chain `i`, when its lookup succeeds.
pub open spec fn boundary_at(cplx: Seq<ChainModel>, i: int) -> Set<int> {
    match cplx[i].bnd {
        Ok(s) => s,
        Err(_) => Set::<int>::empty(),
    }
}

/// One step of the pass: reduce the restricted boundary of chain `i`,
/// extend `i`'s generating chain with everything collected, then either
/// mark `i` as a cycle representative (empty reduction) or store the
/// reduced boundary at its greatest index `m` with `i` as claimant.
pub open spec fn step_state(cplx: Seq<ChainModel>, st: ReduState, i: int) -> ReduState {
    let b0 = restrict_marked(st, boundary_at(cplx, i));
    let rc = reduce(st, b0);
    let st1 = ReduState { chain: st.chain.update(i, st.chain[i].union(rc.1)), ..st };
    if rc.0.len() == 0 {
        ReduState { marked: st1.marked.update(i, true), ..st1 }
    } else {
        let m = set_max(rc.0);
        ReduState { cob: st1.cob.update(m, rc.0), parent: st1.parent.update(m, i), ..st1 }
    }
}

/// The state before any chain is processed: nothing marked, nothing
/// claimed, every chain generating only itself.
pub open spec fn init_state(n: int) -> ReduState {
    ReduState {
        marked: Seq::new(n as nat, |i: int| false),
        cob: Seq::new(n as nat, |i: int| Set::<int>::empty()),
        parent: Seq::new(n as nat, |i: int| 0),
        chain: Seq::new(n as nat, |i: int| Set::<int>::empty().insert(i)),
    }
}

/// The reduction state after the first `i` chains have been processed.
pub open spec fn run_state(cplx: Seq<ChainModel>, i: int) -> ReduState
    decreases i,
{
    if i <= 0 {
        init_state(cplx.len() as int)
    } else {
        step_state(cplx, run_state(cplx, i - 1), i - 1)
    }
}

/// The reduced boundary of chain `i`, against the state in which it is
/// processed.
pub open spec fn reduced_boundary(cplx: Seq<ChainModel>, i: int) -> Set<int> {
    let st = run_state(cplx, i);
    reduce(st, restrict_marked(st, boundary_at(cplx, i))).0
}

/// The pivot row chain `i` claims, or `None` if `i` becomes a cycle
/// representative.
pub open spec fn pivot_of(cplx: Seq<ChainModel>, i: int) -> Option<int> {
    let b = reduced_boundary(cplx, i);
    if b.len() == 0 {
        None
    } else {
        Some(set_max(b))
    }
}

/// The state after the whole pass.
pub open spec fn final_state(cplx: Seq<ChainModel>) -> ReduState {
    run_state(cplx, cplx.len() as int)
}

/// Every boundary lookup in the complex succeeds.
pub open spec fn models_ok(cplx: Seq<ChainModel>) -> bool {
    forall|i: int| 0 <= i < cplx.len() ==> (#[trigger] cplx[i].bnd) is Ok
}

/// Abstract persistence interval: levels and generating index sets.
pub struct IntervalModel {
    /// Filtration level of the birth (pivot) chain.
    pub birth: u64,
    /// Generating chain accumulated for the birth chain.
    pub birth_chain: Set<int>,
    /// Filtration level of the killing chain, or `None` if never killed.
    pub death: Option<u64>,
    /// Generating chain accumulated for the killing chain, or `None`.
    pub death_chain: Option<Set<int>>,
}

/// Chain `i` kills the cycle born at the pivot it claims, in dimension `d`.
pub open spec fn kills_in_dim(cplx: Seq<ChainModel>, d: nat, i: int) -> bool {
    match pivot_of(cplx, i) {
        Some(m) => cplx[m].dim == d,
        None => false,
    }
}

/// The finite interval emitted when chain `i` claims its pivot.
pub open spec fn finite_interval_at(cplx: Seq<ChainModel>, i: int) -> IntervalModel {
    let m = match pivot_of(cplx, i) {
        Some(m) => m,
        None => 0,
    };
    IntervalModel {
        birth: cplx[m].level,
        birth_chain: final_state(cplx).chain[m],
        death: Some(cplx[i].level),
        death_chain: Some(final_state(cplx).chain[i]),
    }
}

/// The finite intervals of dimension `d` emitted while processing chains
/// `0 .. t`, in emission order.
pub open spec fn finite_upto(cplx: Seq<ChainModel>, d: nat, t: int) -> Seq<IntervalModel>
    decreases t,
{
    if t <= 0 {
        Seq::<IntervalModel>::empty()
    } else {
        let pre = finite_upto(cplx, d, t - 1);
        if kills_in_dim(cplx, d, t - 1) {
            pre.push(finite_interval_at(cplx, t - 1))
        } else {
            pre
        }
    }
}

/// Index `m` survives the whole pass as an unclaimed cycle representative.
pub open spec fn survives(cplx: Seq<ChainModel>, m: int) -> bool {
    let st = final_state(cplx);
    st.marked[m] && st.cob[m].len() == 0
}

/// The infinite interval emitted for a surviving representative `m`.
pub open spec fn infinite_interval_at(cplx: Seq<ChainModel>, m: int) -> IntervalModel {
    IntervalModel {
        birth: cplx[m].level,
        birth_chain: final_state(cplx).chain[m],
        death: None,
        death_chain: None,
    }
}

/// The infinite intervals of dimension `d`, in index order, over the
/// representatives `0 .. t`.
pub open spec fn infinite_upto(cplx: Seq<ChainModel>, d: nat, t: int) -> Seq<IntervalModel>
    decreases t,
{
    if t <= 0 {
        Seq::<IntervalModel>::empty()
    } else {
        let pre = infinite_upto(cplx, d, t - 1);
        if survives(cplx, t - 1) && cplx[t - 1].dim == d {
            pre.push(infinite_interval_at(cplx, t - 1))
        } else {
            pre
        }
    }
}

/// All intervals of dimension `d`: the finite ones in emission order, then
/// the infinite ones in index order.
pub open spec fn intervals_spec(cplx: Seq<ChainModel>, d: nat) -> Seq<IntervalModel> {
    finite_upto(cplx, d, cplx.len() as int) + infinite_upto(cplx, d, cplx.len() as int)
}

/// The greatest dimension among the first `t` chains (0 when none).
pub open spec fn max_dim_prefix(cplx: Seq<ChainModel>, t: int) -> nat
    decreases t,
{
    if t <= 0 {
        0
    } else {
        let d = cplx[t - 1].dim;
        let m = max_dim_prefix(cplx, t - 1);
        if d > m {
            d
        } else {
            m
        }
    }
}

/// The greatest dimension in the complex (0 when empty).
pub open spec fn max_dim_of(cplx: Seq<ChainModel>) -> nat {
    max_dim_prefix(cplx, cplx.len() as int)
}

/// An executable interval realizes an abstract one: same levels, and its
/// chains are the strictly ascending enumerations of the abstract index
/// sets.
pub open spec fn interval_matches(iv: PersistenceInterval, m: IntervalModel) -> bool {
    &&& iv.birth == m.birth
    &&& sorted_distinct(iv.birth_chain@)
    &&& index_set(iv.birth_chain@) == m.birth_chain
    &&& iv.death == m.death
    &&& match (iv.death_chain, m.death_chain) {
        (Some(v), Some(s)) => sorted_distinct(v@) && index_set(v@) == s,
        (None, None) => true,
        _ => false,
    }
}

/// Pointwise realization of a whole interval list.
pub open spec fn all_intervals_match(v: Seq<PersistenceInterval>, ms: Seq<IntervalModel>) -> bool {
    v.len() == ms.len() && (forall|j: int|
        0 <= j < v.len() ==> interval_matches(#[trigger] v[j], ms[j]))
}

/// Whether some chain of the complex has a defective boundary.
pub open spec fn has_defect(cplx: Seq<ChainModel>) -> bool {
    exists|i: int| 0 <= i < cplx.len() && !((#[trigger] cplx[i].bnd) is Ok)
}

/// The least index whose boundary lookup fails.
pub open spec fn first_defect(cplx: Seq<ChainModel>) -> int {
    choose|i: int|
        0 <= i < cplx.len() && !((#[trigger] cplx[i].bnd) is Ok) && (forall|j: int|
            0 <= j < i ==> (#[trigger] cplx[j].bnd) is Ok)
}

broadcast use vstd::seq_lib::seq_to_set_is_finite;

/// Membership in the index set of a vector is membership in the vector.
pub proof fn lemma_index_set_members(s: Seq<usize>)
    ensures
        index_set(s).finite(),
        forall|e: int|
            #[trigger] index_set(s).contains(e) <==> exists|p: int| 0 <= p < s.len() && s[p] == e,
{
    let si = s.map_values(|x: usize| x as int);
    assert forall|e: int| #[trigger]
        index_set(s).contains(e) <==> exists|p: int| 0 <= p < s.len() && s[p] == e by {
        if index_set(s).contains(e) {
            assert(si.contains(e));
            let p = choose|p: int| 0 <= p < si.len() && si[p] == e;
            assert(s[p] == e);
        }
        if exists|p: int| 0 <= p < s.len() && s[p] == e {
            let p = choose|p: int| 0 <= p < s.len() && s[p] == e;
            assert(si[p] == e);
            assert(si.contains(e));
        }
    }
}

/// In a strictly ascending vector, later members are no smaller.
proof fn lemma_sorted_le(s: Seq<usize>, p: int, q: int)
    requires
        sorted_distinct(s),
        0 <= p <= q < s.len(),
    ensures
        s[p] <= s[q],
    decreases q - p,
{
    if p < q {
        lemma_sorted_le(s, p, q - 1);
    }
}

/// Everything before position `q` in a strictly ascending vector is
/// strictly below the member at `q`.
proof fn lemma_sorted_lt_all(s: Seq<usize>, q: int)
    requires
        sorted_distinct(s),
        0 <= q < s.len(),
    ensures
        forall|p: int| 0 <= p < q ==> s[p] < s[q],
{
    assert forall|p: int| 0 <= p < q implies s[p] < s[q] by {
        lemma_sorted_le(s, p, q - 1);
    }
}

/// Copies a vector of indices.
pub(crate) fn copy_indices(v: &Vec<usize>) -> (c: Vec<usize>)
    ensures
        c@ == v@,
{
    let mut c: Vec<usize> = Vec::new();
    let mut t: usize = 0;
    while t < v.len()
        invariant
            t <= v@.len(),
            c@ == v@.take(t as int),
        decreases v@.len() - t,
    {
        c.push(v[t]);
        proof {
            assert(c@ =~= v@.take(t + 1));
        }
        t = t + 1;
    }
    proof {
        assert(v@.take(v@.len() as int) =~= v@);
    }
    c
}

/// The greatest index in a nonempty strictly ascending vector: its last
/// member.
fn max_index(v: &Vec<usize>) -> (m: usize)
    requires
        sorted_distinct(v@),
        v@.len() > 0,
    ensures
        m == v@[v@.len() - 1],
        m as int == set_max(index_set(v@)),
        index_set(v@).contains(m as int),
{
    let m = v[v.len() - 1];
    proof {
        lemma_index_set_members(v@);
        assert(index_set(v@).contains(m as int));
        assert forall|e: int| index_set(v@).contains(e) implies e <= m as int by {
            let p = choose|p: int| 0 <= p < v@.len() && v@[p] == e;
            lemma_sorted_le(v@, p, v@.len() - 1);
        }
        let w = set_max(index_set(v@));
        assert(index_set(v@).contains(w) && (forall|e: int|
            index_set(v@).contains(e) ==> e <= w)) by {
            assert(index_set(v@).contains(m as int) && (forall|e: int|
                index_set(v@).contains(e) ==> e <= m as int));
        }
        assert(w == m as int);
    }
    m
}

/// Pushing an index inserts it into the index set.
pub proof fn lemma_index_set_push(s: Seq<usize>, x: usize)
    ensures
        index_set(s.push(x)) == index_set(s).insert(x as int),
{
    lemma_index_set_members(s);
    lemma_index_set_members(s.push(x));
    assert forall|e: int|
        index_set(s.push(x)).contains(e) implies index_set(s).insert(x as int).contains(e) by {
        let p = choose|p: int| 0 <= p < s.push(x).len() && s.push(x)[p] == e;
        if p < s.len() {
            assert(s[p] == e);
        } else {
            assert(e == x as int);
        }
    }
    assert forall|e: int|
        index_set(s).insert(x as int).contains(e) implies index_set(s.push(x)).contains(e) by {
        if e == x as int {
            assert(s.push(x)[s.len() as int] == x);
        } else {
            let p = choose|p: int| 0 <= p < s.len() && s[p] == e;
            assert(s.push(x)[p] == e);
        }
    }
    assert(index_set(s.push(x)) =~= index_set(s).insert(x as int));
}

/// Merges two strictly ascending index vectors into their GF(2) sum
/// (symmetric difference).
#[verifier::loop_isolation(false)]
#[verifier::rlimit(100)]
fn xor_sorted(a: &Vec<usize>, b: &Vec<usize>) -> (c: Vec<usize>)
    requires
        sorted_distinct(a@),
        sorted_distinct(b@),
    ensures
        sorted_distinct(c@),
        index_set(c@) == sym_diff(index_set(a@), index_set(b@)),
{
    let mut c: Vec<usize> = Vec::new();
    let mut ia: usize = 0;
    let mut ib: usize = 0;
    while ia < a.len() || ib < b.len()
        invariant
            ia <= a@.len(),
            ib <= b@.len(),
            sorted_distinct(c@),
            index_set(c@) == sym_diff(
                index_set(a@.take(ia as int)),
                index_set(b@.take(ib as int)),
            ),
            forall|p: int|
                0 <= p < c@.len() ==> (ia < a@.len() ==> #[trigger] c@[p] < a@[ia as int]) && (ib
                    < b@.len() ==> c@[p] < b@[ib as int]),
            forall|q: int| 0 <= q < ia && ib < b@.len() ==> #[trigger] a@[q] < b@[ib as int],
            forall|q: int| 0 <= q < ib && ia < a@.len() ==> #[trigger] b@[q] < a@[ia as int],
        decreases a@.len() - ia + b@.len() - ib,
    {
        let ghost ca = a@.take(ia as int);
        let ghost cb = b@.take(ib as int);
        let ghost aset = index_set(ca);
        let ghost bset = index_set(cb);
        proof {
            lemma_index_set_members(ca);
            lemma_index_set_members(cb);
            if ia < a@.len() {
                lemma_sorted_lt_all(a@, ia as int);
            }
            if ib < b@.len() {
                lemma_sorted_lt_all(b@, ib as int);
            }
        }
        if ia < a.len() && (ib >= b.len() || a[ia] < b[ib]) {
            let x = a[ia];
            let ghost c0 = c@;
            c.push(x);
            proof {
                assert(a@.take(ia + 1) =~= ca.push(x));
                lemma_index_set_push(ca, x);
                lemma_index_set_push(c0, x);
                assert(!aset.contains(x as int));
                assert(!bset.contains(x as int));
                assert(sym_diff(aset.insert(x as int), bset) =~= sym_diff(aset, bset).insert(
                    x as int));
                assert(index_set(c@) == sym_diff(index_set(a@.take(ia + 1)), bset));
            }
            ia = ia + 1;
        } else if ib < b.len() && (ia >= a.len() || b[ib] < a[ia]) {
            let x = b[ib];
            let ghost c0 = c@;
            c.push(x);
            proof {
                assert(b@.take(ib + 1) =~= cb.push(x));
                lemma_index_set_push(cb, x);
                lemma_index_set_push(c0, x);
                assert(!aset.contains(x as int));
                assert(!bset.contains(x as int));
                assert(sym_diff(aset, bset.insert(x as int)) =~= sym_diff(aset, bset).insert(
                    x as int));
                assert(index_set(c@) == sym_diff(aset, index_set(b@.take(ib + 1))));
            }
            ib = ib + 1;
        } else {
            // equal heads cancel over GF(2)
            let ghost x = a@[ia as int];
            proof {
                assert(b@[ib as int] == x);
                assert(a@.take(ia + 1) =~= ca.push(x));
                assert(b@.take(ib + 1) =~= cb.push(x));
                lemma_index_set_push(ca, x);
                lemma_index_set_push(cb, x);
                assert(!aset.contains(x as int));
                assert(!bset.contains(x as int));
                assert(sym_diff(aset.insert(x as int), bset.insert(x as int)) =~= sym_diff(
                    aset, bset));
                assert(index_set(c@) == sym_diff(
                    index_set(a@.take(ia + 1)),
                    index_set(b@.take(ib + 1)),
                ));
            }
            ia = ia + 1;
            ib = ib + 1;
        }
    }
    proof {
        assert(a@.take(a@.len() as int) =~= a@);
        assert(b@.take(b@.len() as int) =~= b@);
    }
    c
}

/// Merges two strictly ascending index vectors into their union.
#[verifier::loop_isolation(false)]
#[verifier::rlimit(100)]
fn union_sorted(a: &Vec<usize>, b: &Vec<usize>) -> (c: Vec<usize>)
    requires
        sorted_distinct(a@),
        sorted_distinct(b@),
    ensures
        sorted_distinct(c@),
        index_set(c@) == index_set(a@).union(index_set(b@)),
{
    let mut c: Vec<usize> = Vec::new();
    let mut ia: usize = 0;
    let mut ib: usize = 0;
    while ia < a.len() || ib < b.len()
        invariant
            ia <= a@.len(),
            ib <= b@.len(),
            sorted_distinct(c@),
            index_set(c@) == index_set(a@.take(ia as int)).union(index_set(b@.take(ib as int))),
            forall|p: int|
                0 <= p < c@.len() ==> (ia < a@.len() ==> #[trigger] c@[p] < a@[ia as int]) && (ib
                    < b@.len() ==> c@[p] < b@[ib as int]),
        decreases a@.len() - ia + b@.len() - ib,
    {
        let ghost ca = a@.take(ia as int);
        let ghost cb = b@.take(ib as int);
        let ghost aset = index_set(ca);
        let ghost bset = index_set(cb);
        proof {
            lemma_index_set_members(ca);
            lemma_index_set_members(cb);
            if ia < a@.len() {
                lemma_sorted_lt_all(a@, ia as int);
            }
            if ib < b@.len() {
                lemma_sorted_lt_all(b@, ib as int);
            }
        }
        if ia < a.len() && (ib >= b.len() || a[ia] < b[ib]) {
            let x = a[ia];
            let ghost c0 = c@;
            c.push(x);
            proof {
                assert(a@.take(ia + 1) =~= ca.push(x));
                lemma_index_set_push(ca, x);
                lemma_index_set_push(c0, x);
                assert(aset.insert(x as int).union(bset) =~= aset.union(bset).insert(x as int));
                assert(index_set(c@) == index_set(a@.take(ia + 1)).union(bset));
            }
            ia = ia + 1;
        } else if ib < b.len() && (ia >= a.len() || b[ib] < a[ia]) {
            let x = b[ib];
            let ghost c0 = c@;
            c.push(x);
            proof {
                assert(b@.take(ib + 1) =~= cb.push(x));
                lemma_index_set_push(cb, x);
                lemma_index_set_push(c0, x);
                assert(aset.union(bset.insert(x as int)) =~= aset.union(bset).insert(x as int));
                assert(index_set(c@) == aset.union(index_set(b@.take(ib + 1))));
            }
            ib = ib + 1;
        } else {
            let x = a[ia];
            let ghost c0 = c@;
            c.push(x);
            proof {
                assert(b@[ib as int] == x);
                assert(a@.take(ia + 1) =~= ca.push(x));
                assert(b@.take(ib + 1) =~= cb.push(x));
                lemma_index_set_push(ca, x);
                lemma_index_set_push(cb, x);
                lemma_index_set_push(c0, x);
                assert(aset.insert(x as int).union(bset.insert(x as int)) =~= aset.union(
                    bset).insert(x as int));
                assert(index_set(c@) == index_set(a@.take(ia + 1)).union(
                    index_set(b@.take(ib + 1)),
                ));
            }
            ia = ia + 1;
            ib = ib + 1;
        }
    }
    proof {
        assert(a@.take(a@.len() as int) =~= a@);
        assert(b@.take(b@.len() as int) =~= b@);
    }
    c
}


/// Stored co-boundaries only mention marked entries.
pub open spec fn cob_marked(st: ReduState) -> bool {
    forall|m: int|
        0 <= m < st.cob.len() && claimed(st, m) ==> (forall|e: int|
            (#[trigger] st.cob[m]).contains(e) ==> marked_set(st).contains(e))
}

/// Everything the engine needs to know about a mid-pass state: the
/// structural invariant, that claimed entries were claimed by
/// already-processed chains, and that only processed chains are marked.
pub open spec fn run_inv(st: ReduState, n: int, i: int) -> bool {
    &&& state_inv(st, n)
    &&& cob_marked(st)
    &&& forall|m: int| 0 <= m < n && claimed(st, m) ==> st.parent[m] < i
    &&& forall|j: int| i <= j < n ==> !st.marked[j]
}

/// What the reduction recurrence yields: a finite reduced boundary of
/// marked in-range indices, and a finite collected chain.
pub proof fn lemma_reduce_props(st: ReduState, b: Set<int>)
    requires
        reduce_pre(st, b),
        cob_marked(st),
        forall|e: int| b.contains(e) ==> marked_set(st).contains(e),
    ensures
        reduce(st, b).0.finite(),
        reduce(st, b).1.finite(),
        forall|e: int| #[trigger] reduce(st, b).0.contains(e) ==> 0 <= e < st.cob.len(),
        forall|e: int| #[trigger] reduce(st, b).0.contains(e) ==> marked_set(st).contains(e),
    decreases reduce_measure(b),
{
    if b.len() == 0 {
    } else {
        lemma_set_max(b);
        let m = set_max(b);
        if claimed(st, m) {
            lemma_reduce_step(st, b);
            let b2 = sym_diff(b, st.cob[m]);
            assert(0 <= m < st.cob.len());
            assert forall|e: int| b2.contains(e) implies marked_set(st).contains(e) by {
                if !b.contains(e) {
                    assert(st.cob[m].contains(e));
                }
            }
            lemma_reduce_props(st, b2);
        }
    }
}

/// Processing one more chain preserves the engine's state invariant.
pub proof fn lemma_step_inv(cplx: Seq<ChainModel>, st: ReduState, i: int)
    requires
        0 <= i < cplx.len(),
        run_inv(st, cplx.len() as int, i),
    ensures
        run_inv(step_state(cplx, st, i), cplx.len() as int, i + 1),
{
    let n = cplx.len() as int;
    let b0 = restrict_marked(st, boundary_at(cplx, i));
    assert(b0.finite()) by {
        assert(b0 == boundary_at(cplx, i).intersect(marked_set(st)));
        assert(marked_set(st).finite()) by {
            lemma_marked_set_finite(st);
        }
    }
    assert forall|e: int| b0.contains(e) implies 0 <= e < n && marked_set(st).contains(e) by {}
    assert(reduce_pre(st, b0));
    lemma_reduce_props(st, b0);
    let rc = reduce(st, b0);
    let st1 = ReduState { chain: st.chain.update(i, st.chain[i].union(rc.1)), ..st };
    let st2 = step_state(cplx, st, i);
    assert(st1.chain[i].finite());
    if rc.0.len() == 0 {
        assert(st2 == ReduState { marked: st1.marked.update(i, true), ..st1 });
        assert(state_inv(st2, n));
        assert forall|m: int| 0 <= m < n && claimed(st2, m) implies st2.parent[m] < i + 1 by {
            assert(st2.cob[m] == st.cob[m]);
            assert(st2.parent[m] == st.parent[m]);
        }
        assert forall|j: int| i + 1 <= j < n implies !st2.marked[j] by {
            assert(st2.marked[j] == st.marked[j]);
        }
        assert(cob_marked(st2)) by {
            assert forall|m: int|
                0 <= m < n && claimed(st2, m) implies (forall|e: int|
                (#[trigger] st2.cob[m]).contains(e) ==> marked_set(st2).contains(e)) by {
                assert(st2.cob[m] == st.cob[m]);
                assert forall|e: int|
                    (#[trigger] st2.cob[m]).contains(e) implies marked_set(st2).contains(e) by {
                    assert(marked_set(st).contains(e));
                }
            }
        }
    } else {
        lemma_set_max(rc.0);
        let m = set_max(rc.0);
        assert(marked_set(st).contains(m));
        assert(0 <= m < n && st.marked[m]);
        assert(m < i) by {
            if m >= i {
                assert(!st.marked[m]);
            }
        }
        assert(st2 == ReduState { cob: st1.cob.update(m, rc.0), parent: st1.parent.update(m, i), ..st1 });
        assert(state_inv(st2, n)) by {
            assert forall|m2: int|
                0 <= m2 < n && claimed(st2, m2) implies (#[trigger] st2.cob[m2]).contains(m2) && (
            forall|e: int| st2.cob[m2].contains(e) ==> 0 <= e <= m2) && 0 <= st2.parent[m2] < n
                && st2.marked[m2] by {
                if m2 == m {
                    assert(st2.cob[m] == rc.0);
                    assert(rc.0.contains(m));
                    assert forall|e: int| rc.0.contains(e) implies 0 <= e <= m by {
                        lemma_set_max(rc.0);
                    }
                } else {
                    assert(st2.cob[m2] == st.cob[m2]);
                }
            }
        }
        assert(cob_marked(st2)) by {
            assert forall|m2: int|
                0 <= m2 < n && claimed(st2, m2) implies (forall|e: int|
                (#[trigger] st2.cob[m2]).contains(e) ==> marked_set(st2).contains(e)) by {
                if m2 == m {
                    assert forall|e: int|
                        (#[trigger] st2.cob[m2]).contains(e) implies marked_set(st2).contains(
                        e) by {
                        assert(marked_set(st).contains(e));
                    }
                } else {
                    assert(st2.cob[m2] == st.cob[m2]);
                    assert forall|e: int|
                        (#[trigger] st2.cob[m2]).contains(e) implies marked_set(st2).contains(
                        e) by {
                        assert(marked_set(st).contains(e));
                    }
                }
            }
        }
        assert forall|m2: int| 0 <= m2 < n && claimed(st2, m2) implies st2.parent[m2] < i + 1 by {
            if m2 == m {
                assert(st2.parent[m2] == i);
            } else {
                assert(st2.cob[m2] == st.cob[m2]);
                assert(claimed(st, m2));
                assert(st.parent[m2] < i);
                assert(st2.parent[m2] == st.parent[m2]);
            }
        }
        assert forall|j: int| i + 1 <= j < n implies !st2.marked[j] by {
            assert(st2.marked[j] == st.marked[j]);
        }
    }
}

/// The set of marked indices is finite.
pub proof fn lemma_marked_set_finite(st: ReduState)
    ensures
        marked_set(st).finite(),
{
    let n = st.marked.len() as int;
    assert(marked_set(st).subset_of(vstd::set_lib::set_int_range(0, n)));
    vstd::set_lib::lemma_int_range(0, n);
    vstd::set_lib::lemma_len_subset(marked_set(st), vstd::set_lib::set_int_range(0, n));
}

/// The invariant holds of every prefix state of the pass.
pub proof fn lemma_run_inv(cplx: Seq<ChainModel>, i: int)
    requires
        0 <= i <= cplx.len(),
    ensures
        run_inv(run_state(cplx, i), cplx.len() as int, i),
    decreases i,
{
    if i == 0 {
        let st = init_state(cplx.len() as int);
        assert forall|m: int|
            0 <= m < cplx.len() && claimed(st, m) implies false by {
            assert(st.cob[m] =~= Set::<int>::empty());
        }
        assert(run_inv(st, cplx.len() as int, 0));
    } else {
        lemma_run_inv(cplx, i - 1);
        lemma_step_inv(cplx, run_state(cplx, i - 1), i - 1);
    }
}

/// A chain's accumulated generating set never changes after its own step.
pub proof fn lemma_chain_stable(cplx: Seq<ChainModel>, j: int, t: int)
    requires
        0 <= j,
        j < t <= cplx.len(),
    ensures
        run_state(cplx, t).chain[j] == run_state(cplx, j + 1).chain[j],
    decreases t,
{
    if t > j + 1 {
        lemma_chain_stable(cplx, j, t - 1);
        lemma_run_inv(cplx, t - 1);
        let st = run_state(cplx, t - 1);
        let st2 = step_state(cplx, st, t - 1);
        assert(st2.chain[j] == st.chain[j]);
    }
}


/// An index vector is empty exactly when its index set is.
pub proof fn lemma_index_set_len(v: Seq<usize>)
    ensures
        index_set(v).finite(),
        (index_set(v).len() == 0) <==> v.len() == 0,
{
    lemma_index_set_members(v);
    if v.len() > 0 {
        assert(index_set(v).contains(v[0] as int));
        if index_set(v).len() == 0 {
            assert(index_set(v) =~= Set::<int>::empty());
        }
    } else {
        assert(index_set(v) =~= Set::<int>::empty());
    }
}

/// One entry of the reduction table: the per-chain working state of a
/// single persistence computation.
pub struct TableEntry {
    /// Index of the chain that claimed this entry as its pivot.
    pub parent: usize,
    /// Marked as a surviving cycle representative.
    pub represents_cycle: bool,
    /// Stored pivot co-boundary (empty = unclaimed), strictly ascending.
    pub co_bounds: Vec<usize>,
    /// Accumulated generating chain, strictly ascending.
    pub chain: Vec<usize>,
}

impl TableEntry {
    /// A fresh entry for the chain at `index`: unmarked, unclaimed,
    /// generating only itself.
    fn new(index: usize) -> (e: TableEntry)
        ensures
            !e.represents_cycle,
            e.co_bounds@.len() == 0,
            e.parent == 0,
            e.chain@ == seq![index],
    {
        let mut chain: Vec<usize> = Vec::new();
        chain.push(index);
        TableEntry { parent: 0, represents_cycle: false, co_bounds: Vec::new(), chain }
    }
}

/// The reduction table realizes an abstract reduction state.
pub open spec fn table_inv(table: Seq<TableEntry>, st: ReduState, n: int) -> bool {
    &&& table.len() == n
    &&& forall|j: int| 0 <= j < n ==> (#[trigger] table[j]).represents_cycle == st.marked[j]
    &&& forall|j: int|
        0 <= j < n ==> sorted_distinct((#[trigger] table[j]).co_bounds@) && index_set(
            table[j].co_bounds@,
        ) == st.cob[j]
    &&& forall|j: int| 0 <= j < n ==> (#[trigger] table[j]).parent as int == st.parent[j]
    &&& forall|j: int|
        0 <= j < n ==> sorted_distinct((#[trigger] table[j]).chain@) && index_set(
            table[j].chain@,
        ) == st.chain[j]
}

/// `st` with `added` collected into chain `i`'s generating set.
pub open spec fn with_collected(st: ReduState, i: int, added: Set<int>) -> ReduState {
    ReduState { chain: st.chain.update(i, st.chain[i].union(added)), ..st }
}

/// Folding one claimant's generating chain into `chain_ix`'s entry keeps
/// the table realizing the abstract state with the grown collection.
proof fn lemma_table_collect(
    t0: Seq<TableEntry>,
    t1: Seq<TableEntry>,
    st: ReduState,
    cix: int,
    added: Set<int>,
    chainp: Set<int>,
    n: int,
)
    requires
        table_inv(t0, with_collected(st, cix, added), n),
        0 <= cix < n,
        st.chain.len() == n,
        t1.len() == n,
        forall|j: int| 0 <= j < n && j != cix ==> t1[j] == t0[j],
        t1[cix].parent == t0[cix].parent,
        t1[cix].represents_cycle == t0[cix].represents_cycle,
        t1[cix].co_bounds@ == t0[cix].co_bounds@,
        sorted_distinct(t1[cix].chain@),
        index_set(t1[cix].chain@) == with_collected(st, cix, added).chain[cix].union(chainp),
    ensures
        table_inv(t1, with_collected(st, cix, added.union(chainp)), n),
{
    let stc = with_collected(st, cix, added);
    let stc2 = with_collected(st, cix, added.union(chainp));
    assert(stc.chain[cix].union(chainp) =~= stc2.chain[cix]);
    assert forall|j: int| 0 <= j < n implies (#[trigger] t1[j]).represents_cycle == stc2.marked[j]
        && sorted_distinct(t1[j].co_bounds@) && index_set(t1[j].co_bounds@) == stc2.cob[j]
        && t1[j].parent as int == stc2.parent[j] && sorted_distinct(t1[j].chain@) && index_set(
        t1[j].chain@,
    ) == stc2.chain[j] by {
        if j != cix {
            assert(t1[j] == t0[j]);
            assert(stc2.chain[j] == stc.chain[j]);
        }
    }
}

/// Reduces the boundary of chain `chain_ix` against the table: restricts
/// it to marked entries, then repeatedly XORs in the stored co-boundary of
/// its greatest index while that index is claimed, folding the claimant's
/// generating chain into `chain_ix`'s.  Returns the reduced boundary.
#[verifier::loop_isolation(false)]
#[verifier::rlimit(100)]
fn remove_pivot_rows<T: Chain, C: ChainComplex<T>>(
    complex: &C,
    chain_ix: usize,
    table: &mut Vec<TableEntry>,
    Ghost(st): Ghost<ReduState>,
) -> (r: Result<Vec<usize>, HomologyError>)
    requires
        complex.wf(),
        chain_ix < complex.model().len(),
        state_inv(st, complex.model().len() as int),
        forall|m: int|
            0 <= m < complex.model().len() && claimed(st, m) ==> st.parent[m] < chain_ix,
        table_inv(old(table)@, st, complex.model().len() as int),
    ensures
        match r {
            Ok(v) => {
                let cplx = complex.model();
                let b0 = restrict_marked(st, boundary_at(cplx, chain_ix as int));
                let rc = reduce(st, b0);
                &&& cplx[chain_ix as int].bnd is Ok
                &&& sorted_distinct(v@)
                &&& index_set(v@) == rc.0
                &&& forall|p: int| 0 <= p < v@.len() ==> #[trigger] v@[p] < cplx.len()
                &&& table_inv(
                    final(table)@,
                    with_collected(st, chain_ix as int, rc.1),
                    cplx.len() as int,
                )
            },
            Err(e) => complex.model()[chain_ix as int].bnd == Err::<Set<int>, HomologyError>(e)
                && final(table)@ == old(table)@,
        },
{
    let ghost cplx = complex.model();
    let ghost n = cplx.len() as int;
    let bv = match complex.boundary(chain_ix) {
        Err(e) => {
            return Err(e);
        },
        Ok(v) => v,
    };
    let ghost b0 = restrict_marked(st, boundary_at(cplx, chain_ix as int));
    let ghost rc = reduce(st, b0);

    // Restrict to entries marked as cycle representatives.
    let mut b: Vec<usize> = Vec::new();
    let mut p: usize = 0;
    proof {
        lemma_index_set_members(bv@);
    }
    while p < bv.len()
        invariant
            p <= bv@.len(),
            sorted_distinct(b@),
            index_set(b@) == restrict_marked(st, index_set(bv@.take(p as int))),
            forall|q: int|
                0 <= q < b@.len() && p < bv@.len() ==> #[trigger] b@[q] < bv@[p as int],
            forall|q: int| 0 <= q < b@.len() ==> #[trigger] b@[q] < n,
        decreases bv@.len() - p,
    {
        let ghost pre = bv@.take(p as int);
        let x = bv[p];
        proof {
            lemma_index_set_members(pre);
            lemma_index_set_push(pre, x);
            assert(bv@.take(p + 1) =~= pre.push(x));
            lemma_sorted_lt_all(bv@, p as int);
        }
        if table[x].represents_cycle {
            let ghost bold = b@;
            b.push(x);
            proof {
                lemma_index_set_push(bold, x);
                assert(marked_set(st).contains(x as int));
                assert(index_set(b@) =~= restrict_marked(st, index_set(bv@.take(p + 1))));
            }
        } else {
            proof {
                assert(!marked_set(st).contains(x as int));
                assert(index_set(b@) =~= restrict_marked(st, index_set(bv@.take(p + 1))));
            }
        }
        p = p + 1;
    }
    proof {
        assert(bv@.take(bv@.len() as int) =~= bv@);
        assert(index_set(b@) == b0);
        assert(reduce_pre(st, index_set(b@))) by {
            lemma_index_set_members(b@);
        }
    }

    // Reduce toward echelon form.
    let ghost mut added = Set::<int>::empty();
    proof {
        let stc = with_collected(st, chain_ix as int, added);
        assert(st.chain[chain_ix as int].union(added) =~= st.chain[chain_ix as int]);
        assert(stc.chain =~= st.chain);
        assert(stc == st) by {
            assert(stc.marked == st.marked && stc.cob == st.cob && stc.parent == st.parent);
        }
        assert(rc.1 =~= added.union(reduce(st, index_set(b@)).1));
    }
    while b.len() > 0
        invariant
            sorted_distinct(b@),
            forall|q: int| 0 <= q < b@.len() ==> #[trigger] b@[q] < n,
            reduce_pre(st, index_set(b@)),
            rc.0 == reduce(st, index_set(b@)).0,
            rc.1 == added.union(reduce(st, index_set(b@)).1),
            added.finite(),
            table_inv(table@, with_collected(st, chain_ix as int, added), n),
        decreases reduce_measure(index_set(b@)),
    {
        let ghost cur = index_set(b@);
        proof {
            lemma_index_set_members(b@);
            lemma_index_set_len(b@);
            assert(cur.len() != 0);
            lemma_set_max(cur);
        }
        let m = max_index(&b);
        proof {
            assert(cur.contains(m as int));
            assert(m < n);
        }
        if table[m].co_bounds.len() == 0 {
            proof {
                lemma_index_set_len(table@[m as int].co_bounds@);
                assert(st.cob[m as int].len() == 0);
                assert(!claimed(st, m as int));
                assert(reduce(st, cur) == (cur, Set::<int>::empty()));
                assert(rc.1 =~= added);
            }
            return Ok(b);
        }
        proof {
            lemma_index_set_len(table@[m as int].co_bounds@);
            assert(claimed(st, m as int));
            lemma_reduce_step(st, cur);
        }
        let parent = table[m].parent;
        proof {
            assert(parent as int == st.parent[m as int]);
            assert((parent as int) < (chain_ix as int));
        }
        let newb = xor_sorted(&b, &table[m].co_bounds);
        let newchain = union_sorted(&table[chain_ix].chain, &table[parent].chain);
        let e_parent = table[chain_ix].parent;
        let e_cycle = table[chain_ix].represents_cycle;
        let e_cob = copy_indices(&table[chain_ix].co_bounds);
        let ghost tbefore = table@;
        let ghost chainp = st.chain[st.parent[m as int]];
        table.set(
            chain_ix,
            TableEntry { parent: e_parent, represents_cycle: e_cycle, co_bounds: e_cob, chain: newchain },
        );
        b = newb;
        proof {
            let cur2 = sym_diff(cur, st.cob[m as int]);
            assert(index_set(b@) == cur2);
            assert(reduce(st, cur) == (reduce(st, cur2).0, reduce(st, cur2).1.union(chainp)));
            let added2 = added.union(chainp);
            assert(rc.1 =~= added2.union(reduce(st, cur2).1));
            lemma_index_set_members(b@);
            assert forall|q: int| 0 <= q < b@.len() implies #[trigger] b@[q] < n by {
                assert(cur2.contains(b@[q] as int));
            }
            // the rewritten entry realizes the grown generating chain
            let stc = with_collected(st, chain_ix as int, added);
            assert(index_set(tbefore[parent as int].chain@) == stc.chain[parent as int]);
            assert(stc.chain[parent as int] == chainp);
            assert(index_set(newchain@) == stc.chain[chain_ix as int].union(chainp));
            lemma_table_collect(tbefore, table@, st, chain_ix as int, added, chainp, n);
            added = added2;
        }
    }
    proof {
        lemma_index_set_len(b@);
        assert(index_set(b@).len() == 0);
        assert(reduce(st, index_set(b@)) == (index_set(b@), Set::<int>::empty()));
        assert(rc.1 =~= added);
    }
    Ok(b)
}


/// Every chain's dimension is bounded by the prefix maximum.
proof fn lemma_max_dim_prefix_bound(cplx: Seq<ChainModel>, j: int, t: int)
    requires
        0 <= j < t <= cplx.len(),
    ensures
        cplx[j].dim <= max_dim_prefix(cplx, t),
    decreases t,
{
    if j < t - 1 {
        lemma_max_dim_prefix_bound(cplx, j, t - 1);
    }
}

/// Computes the persistence intervals of a chain complex by boundary-matrix
/// reduction over GF(2), processing chains strictly in their given order.
///
/// Returns one list of intervals per dimension, from dimension 0 up to the
/// greatest dimension in the complex: first, in emission order, the finite
/// intervals (each born at the pivot chain its killer claims, and grouped
/// under the pivot's dimension); then, in index order, one unbounded
/// interval per surviving cycle representative.  An empty complex yields a
/// single empty list.  A broken closure invariant aborts the computation
/// with the defect reported by the first affected chain.
#[verifier::loop_isolation(false)]
#[verifier::rlimit(100)]
pub fn persistence_intervals<T: Chain, C: ChainComplex<T>>(complex: &C) -> (r: Result<
    Vec<Vec<PersistenceInterval>>,
    HomologyError,
>)
    requires
        complex.wf(),
    ensures
        match r {
            Ok(out) => {
                let cplx = complex.model();
                &&& models_ok(cplx)
                &&& out@.len() == max_dim_of(cplx) + 1
                &&& forall|d: int|
                    0 <= d < out@.len() ==> all_intervals_match(
                        (#[trigger] out@[d])@,
                        intervals_spec(cplx, d as nat),
                    )
            },
            Err(e) => has_defect(complex.model()) && complex.model()[first_defect(
                complex.model(),
            )].bnd == Err::<Set<int>, HomologyError>(e),
        },
{
    let ghost cplx = complex.model();
    let n = complex.len();
    let ghost nn = cplx.len() as int;

    // Greatest dimension present, to size the per-dimension buckets.
    let chains = complex.chains();
    let mut max_dim: usize = 0;
    let mut t: usize = 0;
    while t < n
        invariant
            t <= nn,
            max_dim as nat == max_dim_prefix(cplx, t as int),
        decreases nn - t,
    {
        let d = chains[t].dim();
        if d > max_dim {
            max_dim = d;
        }
        t = t + 1;
    }

    let mut intervals: Vec<Vec<PersistenceInterval>> = Vec::new();
    let mut d0: usize = 0;
    while d0 < max_dim
        invariant
            d0 <= max_dim,
            intervals@.len() == d0,
            forall|d: int| 0 <= d < d0 ==> (#[trigger] intervals@[d])@.len() == 0,
        decreases max_dim - d0,
    {
        intervals.push(Vec::new());
        d0 = d0 + 1;
    }
    intervals.push(Vec::new());

    let mut table: Vec<TableEntry> = Vec::new();
    let mut t2: usize = 0;
    while t2 < n
        invariant
            t2 <= nn,
            table@.len() == t2,
            forall|j: int|
                0 <= j < t2 ==> !(#[trigger] table@[j]).represents_cycle
                    && table@[j].co_bounds@.len() == 0 && table@[j].parent == 0
                    && table@[j].chain@ == seq![j as usize],
        decreases nn - t2,
    {
        table.push(TableEntry::new(t2));
        t2 = t2 + 1;
    }
    proof {
        let st0 = init_state(nn);
        assert forall|j: int|
            0 <= j < nn implies (#[trigger] table@[j]).represents_cycle == st0.marked[j]
            && sorted_distinct(table@[j].co_bounds@) && index_set(table@[j].co_bounds@)
            == st0.cob[j] && table@[j].parent as int == st0.parent[j] && sorted_distinct(
            table@[j].chain@,
        ) && index_set(table@[j].chain@) == st0.chain[j] by {
            lemma_index_set_members(table@[j].co_bounds@);
            assert(index_set(table@[j].co_bounds@) =~= Set::<int>::empty());
            lemma_index_set_members(table@[j].chain@);
            assert(table@[j].chain@.len() == 1);
            assert(table@[j].chain@[0] == j as usize);
            assert(index_set(table@[j].chain@) =~= Set::<int>::empty().insert(j));
        }
        assert(table_inv(table@, run_state(cplx, 0), nn));
    }

    // The pass: process every chain in order.
    let mut i: usize = 0;
    while i < n
        invariant
            i <= nn,
            intervals@.len() == max_dim_of(cplx) + 1,
            table_inv(table@, run_state(cplx, i as int), nn),
            forall|d: int|
                0 <= d < intervals@.len() ==> all_intervals_match(
                    (#[trigger] intervals@[d])@,
                    finite_upto(cplx, d as nat, i as int),
                ),
            forall|j: int| 0 <= j < i ==> (#[trigger] cplx[j].bnd) is Ok,
        decreases nn - i,
    {
        let ghost st = run_state(cplx, i as int);
        proof {
            lemma_run_inv(cplx, i as int);
        }
        let b = match remove_pivot_rows(complex, i, &mut table, Ghost(st)) {
            Err(e) => {
                proof {
                    assert(0 <= i < cplx.len() && !((cplx[i as int].bnd) is Ok));
                    assert(has_defect(cplx));
                    assert(0 <= (i as int) < cplx.len() && !((cplx[i as int].bnd) is Ok) && (
                    forall|j: int| 0 <= j < i as int ==> (#[trigger] cplx[j].bnd) is Ok));
                    let f = first_defect(cplx);
                    assert(0 <= f < cplx.len() && !((cplx[f].bnd) is Ok) && (forall|j: int|
                        0 <= j < f ==> (#[trigger] cplx[j].bnd) is Ok));
                    assert(f == i as int) by {
                        if f < i as int {
                            assert((cplx[f].bnd) is Ok);
                        }
                        if f > i as int {
                            assert((cplx[i as int].bnd) is Ok);
                        }
                    }
                }
                return Err(e);
            },
            Ok(b) => b,
        };
        let ghost b0 = restrict_marked(st, boundary_at(cplx, i as int));
        let ghost rc = reduce(st, b0);
        let ghost st1 = with_collected(st, i as int, rc.1);
        let ghost stnext = run_state(cplx, i + 1);
        proof {
            assert(stnext == step_state(cplx, st, i as int));
            lemma_marked_set_finite(st);
            assert(reduce_pre(st, b0));
            lemma_reduce_props(st, b0);
        }
        if b.len() == 0 {
            proof {
                lemma_index_set_len(b@);
                assert(rc.0.len() == 0);
                assert(pivot_of(cplx, i as int) is None);
                assert(stnext == ReduState { marked: st1.marked.update(i as int, true), ..st1 });
            }
            let e_parent = table[i].parent;
            let e_cob = copy_indices(&table[i].co_bounds);
            let e_chain = copy_indices(&table[i].chain);
            let ghost tb = table@;
            table.set(
                i,
                TableEntry {
                    parent: e_parent,
                    represents_cycle: true,
                    co_bounds: e_cob,
                    chain: e_chain,
                },
            );
            proof {
                assert forall|j: int|
                    0 <= j < nn implies (#[trigger] table@[j]).represents_cycle
                    == stnext.marked[j] && sorted_distinct(table@[j].co_bounds@) && index_set(
                    table@[j].co_bounds@,
                ) == stnext.cob[j] && table@[j].parent as int == stnext.parent[j]
                    && sorted_distinct(table@[j].chain@) && index_set(table@[j].chain@)
                    == stnext.chain[j] by {
                    if j != i as int {
                        assert(table@[j] == tb[j]);
                    }
                }
                assert(table_inv(table@, stnext, nn));
                assert forall|d: int|
                    0 <= d < intervals@.len() implies all_intervals_match(
                    (#[trigger] intervals@[d])@,
                    finite_upto(cplx, d as nat, i + 1),
                ) by {
                    assert(!kills_in_dim(cplx, d as nat, i as int));
                    assert(finite_upto(cplx, d as nat, i + 1) == finite_upto(
                        cplx, d as nat, i as int));
                }
            }
        } else {
            proof {
                lemma_index_set_len(b@);
                lemma_set_max(rc.0);
            }
            let m = max_index(&b);
            proof {
                assert(m as int == set_max(rc.0));
                assert(pivot_of(cplx, i as int) == Some(m as int));
                assert(marked_set(st).contains(m as int));
                assert(m < i);
                lemma_max_dim_prefix_bound(cplx, m as int, nn);
            }
            let dm = complex.chain(m).dim();
            let birth = complex.filtration_level(m);
            let death = complex.filtration_level(i);
            let birth_chain = copy_indices(&table[m].chain);
            let death_chain = copy_indices(&table[i].chain);
            let iv = PersistenceInterval {
                birth,
                birth_chain,
                death: Some(death),
                death_chain: Some(death_chain),
            };
            let ghost ivs0 = intervals@;
            let mut row: Vec<PersistenceInterval> = Vec::new();
            intervals.set_and_swap(dm, &mut row);
            proof {
                assert(row == ivs0[dm as int]);
            }
            row.push(iv);
            let ghost row2 = row@;
            intervals.set_and_swap(dm, &mut row);
            proof {
                assert(row2 =~= ivs0[dm as int]@.push(iv));
                assert(intervals@[dm as int]@ == row2);
                assert(intervals@[dm as int]@ =~= ivs0[dm as int]@.push(iv));
                assert(intervals@.len() == ivs0.len());
                assert forall|d: int|
                    0 <= d < intervals@.len() && d != dm as int implies intervals@[d]
                    == ivs0[d] by {}
            }
            let e_cycle = table[m].represents_cycle;
            let e_chain2 = copy_indices(&table[m].chain);
            let ghost tb = table@;
            table.set(
                m,
                TableEntry { parent: i, represents_cycle: e_cycle, co_bounds: b, chain: e_chain2 },
            );
            proof {
                assert(stnext == ReduState {
                    cob: st1.cob.update(m as int, rc.0),
                    parent: st1.parent.update(m as int, i as int),
                    ..st1
                });
                assert forall|j: int|
                    0 <= j < nn implies (#[trigger] table@[j]).represents_cycle
                    == stnext.marked[j] && sorted_distinct(table@[j].co_bounds@) && index_set(
                    table@[j].co_bounds@,
                ) == stnext.cob[j] && table@[j].parent as int == stnext.parent[j]
                    && sorted_distinct(table@[j].chain@) && index_set(table@[j].chain@)
                    == stnext.chain[j] by {
                    if j != m as int {
                        assert(table@[j] == tb[j]);
                    }
                }
                assert(table_inv(table@, stnext, nn));
                // the emitted interval realizes the model
                lemma_chain_stable(cplx, m as int, i as int);
                lemma_chain_stable(cplx, m as int, nn);
                lemma_chain_stable(cplx, i as int, nn);
                assert(final_state(cplx).chain[m as int] == st.chain[m as int]);
                assert(final_state(cplx).chain[i as int] == st1.chain[i as int]);
                assert(interval_matches(iv, finite_interval_at(cplx, i as int)));
                assert(kills_in_dim(cplx, dm as nat, i as int));
                assert forall|d: int|
                    0 <= d < intervals@.len() implies all_intervals_match(
                    (#[trigger] intervals@[d])@,
                    finite_upto(cplx, d as nat, i + 1),
                ) by {
                    if d == dm as int {
                        assert(finite_upto(cplx, d as nat, i + 1) == finite_upto(
                            cplx, d as nat, i as int).push(finite_interval_at(cplx, i as int)));
                        assert(all_intervals_match(ivs0[d]@, finite_upto(cplx, d as nat, i as int)));
                    } else {
                        assert(!kills_in_dim(cplx, d as nat, i as int));
                        assert(finite_upto(cplx, d as nat, i + 1) == finite_upto(
                            cplx, d as nat, i as int));
                        assert(intervals@[d] == ivs0[d]);
                    }
                }
            }
        }
        i = i + 1;
    }

    // Emit one unbounded interval per surviving representative.
    let ghost fin = final_state(cplx);
    let mut ix: usize = 0;
    while ix < n
        invariant
            ix <= nn,
            intervals@.len() == max_dim_of(cplx) + 1,
            table_inv(table@, fin, nn),
            forall|d: int|
                0 <= d < intervals@.len() ==> all_intervals_match(
                    (#[trigger] intervals@[d])@,
                    finite_upto(cplx, d as nat, nn) + infinite_upto(cplx, d as nat, ix as int),
                ),
            forall|j: int| 0 <= j < nn ==> (#[trigger] cplx[j].bnd) is Ok,
        decreases nn - ix,
    {
        if table[ix].represents_cycle && table[ix].co_bounds.len() == 0 {
            proof {
                lemma_index_set_len(table@[ix as int].co_bounds@);
                assert(survives(cplx, ix as int));
                lemma_max_dim_prefix_bound(cplx, ix as int, nn);
            }
            let dm = complex.chain(ix).dim();
            let birth = complex.filtration_level(ix);
            let birth_chain = copy_indices(&table[ix].chain);
            let iv = PersistenceInterval { birth, birth_chain, death: None, death_chain: None };
            let ghost ivs0 = intervals@;
            let mut row: Vec<PersistenceInterval> = Vec::new();
            intervals.set_and_swap(dm, &mut row);
            proof {
                assert(row == ivs0[dm as int]);
            }
            row.push(iv);
            let ghost row2 = row@;
            intervals.set_and_swap(dm, &mut row);
            proof {
                assert(row2 =~= ivs0[dm as int]@.push(iv));
                assert(intervals@[dm as int]@ == row2);
                assert(intervals@[dm as int]@ =~= ivs0[dm as int]@.push(iv));
                assert(intervals@.len() == ivs0.len());
                assert forall|d: int|
                    0 <= d < intervals@.len() && d != dm as int implies intervals@[d]
                    == ivs0[d] by {}
                assert(interval_matches(iv, infinite_interval_at(cplx, ix as int)));
                assert forall|d: int|
                    0 <= d < intervals@.len() implies all_intervals_match(
                    (#[trigger] intervals@[d])@,
                    finite_upto(cplx, d as nat, nn) + infinite_upto(cplx, d as nat, ix + 1),
                ) by {
                    if d == dm as int {
                        assert(infinite_upto(cplx, d as nat, ix + 1) == infinite_upto(
                            cplx, d as nat, ix as int).push(infinite_interval_at(cplx, ix as int)));
                        assert((finite_upto(cplx, d as nat, nn) + infinite_upto(
                            cplx, d as nat, ix as int)).push(infinite_interval_at(cplx, ix as int))
                            =~= finite_upto(cplx, d as nat, nn) + infinite_upto(
                            cplx, d as nat, ix + 1));
                        assert(all_intervals_match(ivs0[d]@, finite_upto(cplx, d as nat, nn)
                            + infinite_upto(cplx, d as nat, ix as int)));
                    } else {
                        assert(!(survives(cplx, ix as int) && cplx[ix as int].dim == d));
                        assert(infinite_upto(cplx, d as nat, ix + 1) == infinite_upto(
                            cplx, d as nat, ix as int));
                        assert(intervals@[d] == ivs0[d]);
                    }
                }
            }
        } else {
            proof {
                lemma_index_set_len(table@[ix as int].co_bounds@);
                assert forall|d: int|
                    0 <= d < intervals@.len() implies all_intervals_match(
                    (#[trigger] intervals@[d])@,
                    finite_upto(cplx, d as nat, nn) + infinite_upto(cplx, d as nat, ix + 1),
                ) by {
                    assert(!(survives(cplx, ix as int) && cplx[ix as int].dim == d));
                    assert(infinite_upto(cplx, d as nat, ix + 1) == infinite_upto(
                        cplx, d as nat, ix as int));
                }
            }
        }
        ix = ix + 1;
    }
    proof {
        assert forall|d: int|
            0 <= d < intervals@.len() implies all_intervals_match(
            (#[trigger] intervals@[d])@,
            intervals_spec(cplx, d as nat),
        ) by {
            assert(intervals_spec(cplx, d as nat) == finite_upto(cplx, d as nat, nn)
                + infinite_upto(cplx, d as nat, nn));
        }
    }
    Ok(intervals)
}


/// Two strictly ascending vectors with the same index set are equal.
pub proof fn lemma_sorted_distinct_unique(a: Seq<usize>, b: Seq<usize>)
    requires
        sorted_distinct(a),
        sorted_distinct(b),
        index_set(a) == index_set(b),
    ensures
        a == b,
    decreases a.len(),
{
    lemma_index_set_members(a);
    lemma_index_set_members(b);
    lemma_index_set_len(a);
    lemma_index_set_len(b);
    if a.len() == 0 {
        assert(b.len() == 0);
        assert(a =~= b);
    } else {
        assert(b.len() > 0);
        let la = a[a.len() - 1];
        let lb = b[b.len() - 1];
        assert(la == lb) by {
            assert(index_set(a).contains(la as int));
            assert(index_set(b).contains(lb as int));
            let pa = choose|p: int| 0 <= p < b.len() && b[p] == la;
            lemma_sorted_le(b, pa, b.len() - 1);
            let pb = choose|p: int| 0 <= p < a.len() && a[p] == lb;
            lemma_sorted_le(a, pb, a.len() - 1);
        }
        let a2 = a.drop_last();
        let b2 = b.drop_last();
        lemma_index_set_members(a2);
        lemma_index_set_members(b2);
        assert(index_set(a2) =~= index_set(b2)) by {
            assert forall|e: int|
                index_set(a2).contains(e) implies index_set(b2).contains(e) by {
                let p = choose|p: int| 0 <= p < a2.len() && a2[p] == e;
                assert(a[p] == e);
                lemma_sorted_lt_all(a, a.len() - 1);
                assert(e != la as int);
                assert(index_set(b).contains(e));
                let q = choose|q: int| 0 <= q < b.len() && b[q] == e;
                assert(q != b.len() - 1);
                assert(b2[q] == e);
            }
            assert forall|e: int|
                index_set(b2).contains(e) implies index_set(a2).contains(e) by {
                let p = choose|p: int| 0 <= p < b2.len() && b2[p] == e;
                assert(b[p] == e);
                lemma_sorted_lt_all(b, b.len() - 1);
                assert(e != lb as int);
                assert(index_set(a).contains(e));
                let q = choose|q: int| 0 <= q < a.len() && a[q] == e;
                assert(q != a.len() - 1);
                assert(a2[q] == e);
            }
        }
        lemma_sorted_distinct_unique(a2, b2);
        assert(a =~= b) by {
            assert(a.len() == b.len());
            assert forall|p: int| 0 <= p < a.len() implies a[p] == b[p] by {
                if p < a.len() - 1 {
                    assert(a2[p] == b2[p]);
                }
            }
        }
    }
}

/// Two intervals carry the same data.
pub open spec fn interval_same(a: PersistenceInterval, b: PersistenceInterval) -> bool {
    &&& a.birth == b.birth
    &&& a.birth_chain@ == b.birth_chain@
    &&& a.death == b.death
    &&& match (a.death_chain, b.death_chain) {
        (Some(x), Some(y)) => x@ == y@,
        (None, None) => true,
        _ => false,
    }
}

/// Determinism: the persistence computation is a pure function of the
/// complex.  Any two interval tables realizing the same complex's interval
/// specification are equal, dimension by dimension and interval by
/// interval.
pub proof fn lemma_persistence_deterministic(
    cplx: Seq<ChainModel>,
    r1: Seq<Vec<PersistenceInterval>>,
    r2: Seq<Vec<PersistenceInterval>>,
)
    requires
        r1.len() == r2.len(),
        forall|d: int|
            0 <= d < r1.len() ==> all_intervals_match((#[trigger] r1[d])@, intervals_spec(cplx, d as nat)),
        forall|d: int|
            0 <= d < r2.len() ==> all_intervals_match((#[trigger] r2[d])@, intervals_spec(cplx, d as nat)),
    ensures
        forall|d: int| 0 <= d < r1.len() ==> (#[trigger] r1[d])@.len() == r2[d]@.len(),
        forall|d: int, j: int|
            0 <= d < r1.len() && 0 <= j < r1[d]@.len() ==> interval_same(
                #[trigger] r1[d]@[j],
                r2[d]@[j],
            ),
{
    assert forall|d: int, j: int|
        0 <= d < r1.len() && 0 <= j < r1[d]@.len() implies interval_same(
        #[trigger] r1[d]@[j],
        r2[d]@[j],
    ) by {
        let m = intervals_spec(cplx, d as nat)[j];
        let a = r1[d]@[j];
        let b = r2[d]@[j];
        assert(interval_matches(a, m));
        assert(interval_matches(b, m));
        lemma_sorted_distinct_unique(a.birth_chain@, b.birth_chain@);
        match (a.death_chain, b.death_chain) {
            (Some(x), Some(y)) => {
                lemma_sorted_distinct_unique(x@, y@);
            },
            _ => {},
        }
    }
}


/// A nonempty reduced boundary ends at an unclaimed index.
proof fn lemma_reduce_result_unclaimed(st: ReduState, b: Set<int>)
    requires
        reduce_pre(st, b),
    ensures
        reduce(st, b).0.len() != 0 ==> !claimed(st, set_max(reduce(st, b).0)),
    decreases reduce_measure(b),
{
    if b.len() != 0 {
        lemma_set_max(b);
        let m = set_max(b);
        if claimed(st, m) {
            lemma_reduce_step(st, b);
            lemma_reduce_result_unclaimed(st, sym_diff(b, st.cob[m]));
        }
    }
}

/// The pivot index of a chain, or `-1` when it has none.
pub open spec fn pivot_index(cplx: Seq<ChainModel>, i: int) -> int {
    match pivot_of(cplx, i) {
        Some(m) => m,
        None => -1,
    }
}

/// The bookkeeping facts that make the pass conservative, after `t` steps.
pub open spec fn conserv_inv(cplx: Seq<ChainModel>, t: int) -> bool {
    let st = run_state(cplx, t);
    &&& forall|i: int| 0 <= i < t ==> (st.marked[i] <==> pivot_of(cplx, i) is None)
    &&& forall|i: int|
        0 <= i < t && pivot_of(cplx, i) is Some ==> {
            let m = pivot_index(cplx, i);
            0 <= m < i && st.marked[m] && claimed(st, m) && st.parent[m] == i
        }
    &&& forall|m: int|
        0 <= m < cplx.len() && claimed(st, m) ==> pivot_of(cplx, st.parent[m]) == Some(m)
            && st.parent[m] < t
}

/// The conservation facts hold after every prefix of the pass.
#[verifier::rlimit(100)]
proof fn lemma_conserv_inv(cplx: Seq<ChainModel>, t: int)
    requires
        0 <= t <= cplx.len(),
    ensures
        conserv_inv(cplx, t),
    decreases t,
{
    let n = cplx.len() as int;
    if t == 0 {
        let st = run_state(cplx, 0);
        assert forall|m: int| 0 <= m < n && claimed(st, m) implies false by {
            assert(st.cob[m] =~= Set::<int>::empty());
        }
    } else {
        lemma_conserv_inv(cplx, t - 1);
        lemma_run_inv(cplx, t - 1);
        let st = run_state(cplx, t - 1);
        let st2 = run_state(cplx, t);
        assert(st2 == step_state(cplx, st, t - 1));
        let b0 = restrict_marked(st, boundary_at(cplx, t - 1));
        assert(b0.finite()) by {
            assert(b0 == boundary_at(cplx, t - 1).intersect(marked_set(st)));
            lemma_marked_set_finite(st);
        }
        assert(reduce_pre(st, b0));
        lemma_reduce_props(st, b0);
        lemma_reduce_result_unclaimed(st, b0);
        let rc = reduce(st, b0);
        let st1 = ReduState { chain: st.chain.update(t - 1, st.chain[t - 1].union(rc.1)), ..st };
        if rc.0.len() == 0 {
            assert(st2 == ReduState { marked: st1.marked.update(t - 1, true), ..st1 });
            assert(pivot_of(cplx, t - 1) is None);
            assert forall|m: int|
                0 <= m < n && claimed(st2, m) implies pivot_of(cplx, st2.parent[m]) == Some(m)
                && st2.parent[m] < t by {
                assert(st2.cob[m] == st.cob[m]);
                assert(claimed(st, m));
                assert(st2.parent[m] == st.parent[m]);
            }
            assert forall|i: int|
                0 <= i < t && pivot_of(cplx, i) is Some implies {
                let m = pivot_index(cplx, i);
                0 <= m < i && st2.marked[m] && claimed(st2, m) && st2.parent[m] == i
            } by {
                assert(i < t - 1);
                let m = pivot_index(cplx, i);
                assert(0 <= m < i && st.marked[m] && claimed(st, m) && st.parent[m] == i);
                assert(st2.cob[m] == st.cob[m]);
                assert(st2.parent[m] == st.parent[m]);
                assert(st2.marked[m] == st.marked[m] || st2.marked[m]);
            }
        } else {
            lemma_set_max(rc.0);
            let m0 = set_max(rc.0);
            assert(marked_set(st).contains(m0));
            assert(0 <= m0 < n && st.marked[m0]);
            assert(m0 < t - 1) by {
                if m0 >= t - 1 {
                    assert(!st.marked[m0]);
                }
            }
            assert(!claimed(st, m0));
            assert(st2 == ReduState {
                cob: st1.cob.update(m0, rc.0),
                parent: st1.parent.update(m0, t - 1),
                ..st1
            });
            assert(pivot_of(cplx, t - 1) == Some(m0));
            assert forall|i: int|
                0 <= i < t && pivot_of(cplx, i) is Some implies {
                let m = pivot_index(cplx, i);
                0 <= m < i && st2.marked[m] && claimed(st2, m) && st2.parent[m] == i
            } by {
                let m = pivot_index(cplx, i);
                if i == t - 1 {
                    assert(m == m0);
                    assert(st2.cob[m0] == rc.0);
                    assert(st2.parent[m0] == t - 1);
                } else {
                    assert(0 <= m < i && st.marked[m] && claimed(st, m) && st.parent[m] == i);
                    assert(m != m0);
                    assert(st2.cob[m] == st.cob[m]);
                    assert(st2.parent[m] == st.parent[m]);
                }
            }
            assert forall|i: int|
                0 <= i < t implies (st2.marked[i] <==> pivot_of(cplx, i) is None) by {
                assert(st2.marked[i] == st.marked[i]);
                if i == t - 1 {
                    assert(!st.marked[t - 1]);
                }
            }
            assert forall|m: int|
                0 <= m < n && claimed(st2, m) implies pivot_of(cplx, st2.parent[m]) == Some(m)
                && st2.parent[m] < t by {
                if m == m0 {
                    assert(st2.parent[m0] == t - 1);
                } else {
                    assert(st2.cob[m] == st.cob[m]);
                    assert(claimed(st, m));
                    assert(st2.parent[m] == st.parent[m]);
                }
            }
        }
    }
}

/// Conservation of the reduction pass, in bijective form: a chain is
/// marked a cycle representative exactly when it claims no pivot; a chain
/// that does claim a pivot kills exactly one earlier representative (two
/// killers never share a pivot); and conversely every claimed
/// representative is the pivot of exactly the chain recorded as its
/// claimant, while every unclaimed representative survives to an unbounded
/// interval.  Summed over all dimensions, the finite and unbounded
/// intervals together therefore account once for every chain ever marked
/// a representative.
pub proof fn lemma_conservation(cplx: Seq<ChainModel>)
    ensures
        forall|i: int|
            0 <= i < cplx.len() ==> (final_state(cplx).marked[i] <==> pivot_of(cplx, i) is None),
        forall|i: int|
            0 <= i < cplx.len() && pivot_of(cplx, i) is Some ==> {
                let m = pivot_index(cplx, i);
                &&& 0 <= m < i
                &&& final_state(cplx).marked[m]
                &&& final_state(cplx).cob[m].len() != 0
                &&& final_state(cplx).parent[m] == i
            },
        forall|i1: int, i2: int|
            0 <= i1 < cplx.len() && 0 <= i2 < cplx.len() && pivot_of(cplx, i1) is Some
                && pivot_of(cplx, i1) == pivot_of(cplx, i2) ==> i1 == i2,
        forall|m: int|
            0 <= m < cplx.len() && final_state(cplx).marked[m] && final_state(cplx).cob[m].len()
                != 0 ==> pivot_of(cplx, final_state(cplx).parent[m]) == Some(m),
        forall|m: int|
            0 <= m < cplx.len() && final_state(cplx).marked[m] && final_state(cplx).cob[m].len()
                == 0 ==> survives(cplx, m),
{
    let n = cplx.len() as int;
    lemma_conserv_inv(cplx, n);
    let st = final_state(cplx);
    assert forall|m: int|
        0 <= m < n && st.marked[m] && st.cob[m].len() != 0 implies pivot_of(
        cplx,
        st.parent[m],
    ) == Some(m) by {
        assert(claimed(st, m));
    }
    assert forall|i1: int, i2: int|
        0 <= i1 < n && 0 <= i2 < n && pivot_of(cplx, i1) is Some && pivot_of(cplx, i1)
            == pivot_of(cplx, i2) implies i1 == i2 by {
        let m = pivot_index(cplx, i1);
        assert(pivot_index(cplx, i2) == m);
        assert(st.parent[m] == i1);
        assert(st.parent[m] == i2);
    }
}


/// With every boundary lookup succeeding, the complex has no defect, so
/// the engine's error case cannot arise.
pub proof fn lemma_models_ok_no_defect(cplx: Seq<ChainModel>)
    requires
        models_ok(cplx),
    ensures
        !has_defect(cplx),
{
}

} // verus!
