//! Disjoint-set forest with an acyclicity invariant.

use vstd::prelude::*;

verus! {

/// Following parents from `i` reaches a root in exactly `k` steps.
pub open spec fn is_dist(s: Seq<usize>, i: int, k: nat) -> bool
    decreases k,
{
    if 0 <= i < s.len() {
        if s[i] == i {
            k == 0
        } else {
            k > 0 && is_dist(s, s[i] as int, (k - 1) as nat)
        }
    } else {
        false
    }
}

/// Following parents from `i` terminates at a root.
pub open spec fn reaches_root(s: Seq<usize>, i: int) -> bool {
    exists|k: nat| is_dist(s, i, k)
}

/// Every entry's parent chain terminates: the forest is acyclic.
pub open spec fn uf_wf(s: Seq<usize>) -> bool {
    forall|i: int| 0 <= i < s.len() ==> #[trigger] reaches_root(s, i)
}

/// The number of steps to the root is unique.
proof fn lemma_dist_unique(s: Seq<usize>, i: int, k1: nat, k2: nat)
    requires
        is_dist(s, i, k1),
        is_dist(s, i, k2),
    ensures
        k1 == k2,
    decreases k1,
{
    if s[i] != i {
        lemma_dist_unique(s, s[i] as int, (k1 - 1) as nat, (k2 - 1) as nat);
    }
}

/// The number of steps from `i` to its root.
pub open spec fn dist_to_root(s: Seq<usize>, i: int) -> nat {
    choose|k: nat| is_dist(s, i, k)
}

/// The root that the parent chain from `i` reaches.
pub open spec fn root_of(s: Seq<usize>, i: int) -> int
    decreases dist_to_root(s, i),
        when reaches_root(s, i) && 0 <= i < s.len()
        via root_of_decreases
{
    if s[i] == i {
        i
    } else {
        root_of(s, s[i] as int)
    }
}

/// One parent step decreases the distance to the root.
proof fn lemma_dist_step(s: Seq<usize>, i: int)
    requires
        reaches_root(s, i),
        0 <= i < s.len(),
        s[i] != i,
    ensures
        reaches_root(s, s[i] as int),
        0 <= s[i] < s.len(),
        dist_to_root(s, s[i] as int) < dist_to_root(s, i),
{
    let k = choose|k: nat| is_dist(s, i, k);
    assert(is_dist(s, i, k));
    assert(k > 0 && is_dist(s, s[i] as int, (k - 1) as nat));
    assert(reaches_root(s, s[i] as int));
    lemma_dist_unique(s, i, k, dist_to_root(s, i));
    let k2 = choose|k2: nat| is_dist(s, s[i] as int, k2);
    lemma_dist_unique(s, s[i] as int, k2, (k - 1) as nat);
}

#[via_fn]
proof fn root_of_decreases(s: Seq<usize>, i: int) {
    if 0 <= i < s.len() && reaches_root(s, i) && s[i] != i {
        lemma_dist_step(s, i);
    }
}

/// The root the chain reaches is a root and stays within bounds.
pub proof fn lemma_root_of(s: Seq<usize>, i: int)
    requires
        uf_wf(s),
        0 <= i < s.len(),
    ensures
        0 <= root_of(s, i) < s.len(),
        s[root_of(s, i)] == root_of(s, i),
    decreases dist_to_root(s, i),
{
    if s[i] != i {
        lemma_dist_step(s, i);
        lemma_root_of(s, s[i] as int);
    }
}

/// A union-find (disjoint-set) structure over `0 .. size`, stored as a
/// parent forest.
#[derive(Debug, Clone)]
pub struct UnionFind {
    /// Number of elements.
    pub size: usize,
    /// Parent of each element; roots are their own parents.
    pub subsets: Vec<usize>,
}

impl UnionFind {
    /// All parent chains terminate and the recorded size is the number of
    /// elements.
    pub closed spec fn wf(&self) -> bool {
        uf_wf(self.subsets@) && self.size == self.subsets@.len()
    }

    /// Creates `size` singleton sets.
    #[verifier::loop_isolation(false)]
    pub fn new(size: usize) -> (r: UnionFind)
        ensures
            r.wf(),
            r.subsets@.len() == size,
            forall|i: int| 0 <= i < size ==> #[trigger] r.subsets@[i] == i,
    {
        let mut subsets: Vec<usize> = Vec::new();
        let mut t: usize = 0;
        while t < size
            invariant
                t <= size,
                subsets@.len() == t,
                forall|i: int| 0 <= i < t ==> #[trigger] subsets@[i] == i,
            decreases size - t,
        {
            subsets.push(t);
            t = t + 1;
        }
        proof {
            assert forall|i: int| 0 <= i < size implies #[trigger] reaches_root(subsets@, i) by {
                assert(is_dist(subsets@, i, 0));
            }
        }
        UnionFind { size, subsets }
    }

    /// The number of elements.
    pub fn len(&self) -> (n: usize)
        ensures
            n == self.subsets@.len(),
    {
        self.subsets.len()
    }

    /// Follows parents from `x` to the root of its set.
    #[verifier::loop_isolation(false)]
    pub fn find(&mut self, x: usize) -> (r: usize)
        requires
            old(self).wf(),
            x < old(self).subsets@.len(),
        ensures
            *final(self) == *old(self),
            r as int == root_of(old(self).subsets@, x as int),
            final(self).subsets@[r as int] == r,
            r < final(self).subsets@.len(),
    {
        let ghost s = self.subsets@;
        let mut y = x;
        proof {
            lemma_root_of(s, x as int);
        }
        while self.subsets[y] != y
            invariant
                y < s.len(),
                self.subsets@ == s,
                self.size == old(self).size,
                reaches_root(s, y as int),
                root_of(s, y as int) == root_of(s, x as int),
            decreases dist_to_root(s, y as int),
        {
            proof {
                lemma_dist_step(s, y as int);
            }
            y = self.subsets[y];
        }
        y
    }

    /// After the update every chain still terminates: attaching one root
    /// below another cannot create a cycle.
    proof fn lemma_merge_keeps_wf(s: Seq<usize>, xr: int, yr: int)
        requires
            uf_wf(s),
            0 <= xr < s.len(),
            0 <= yr < s.len(),
            s[xr] == xr,
            s[yr] == yr,
        ensures
            uf_wf(s.update(xr, yr as usize)),
    {
        let s2 = s.update(xr, yr as usize);
        assert forall|i: int| 0 <= i < s2.len() implies #[trigger] reaches_root(s2, i) by {
            assert(reaches_root(s, i));
            let k = choose|k: nat| is_dist(s, i, k);
            assert(is_dist(s, i, k));
            Self::lemma_merge_reaches(s, s2, xr, yr, i, k);
        }
    }

    /// Any chain of the old forest still terminates in the new one.
    proof fn lemma_merge_reaches(s: Seq<usize>, s2: Seq<usize>, xr: int, yr: int, i: int, k: nat)
        requires
            0 <= xr < s.len(),
            0 <= yr < s.len(),
            s[xr] == xr,
            s[yr] == yr,
            s2 == s.update(xr, yr as usize),
            is_dist(s, i, k),
        ensures
            reaches_root(s2, i),
        decreases k,
    {
        if i == xr {
            if xr == yr {
                assert(is_dist(s2, i, 0));
            } else {
                assert(s2[xr] == yr && s2[yr] == yr);
                assert(is_dist(s2, yr, 0));
                assert(is_dist(s2, i, 1));
            }
        } else if s[i] == i {
            assert(s2[i] == i);
            assert(is_dist(s2, i, 0));
        } else {
            Self::lemma_merge_reaches(s, s2, xr, yr, s[i] as int, (k - 1) as nat);
            let k2 = choose|k2: nat| is_dist(s2, s[i] as int, k2);
            assert(is_dist(s2, s[i] as int, k2));
            assert(s2[i] == s[i]);
            assert(is_dist(s2, i, k2 + 1));
        }
    }

    /// Merges the sets of `x` and `y` by pointing `x`'s root at `y`'s.
    pub fn merge(&mut self, x: usize, y: usize)
        requires
            old(self).wf(),
            x < old(self).subsets@.len(),
            y < old(self).subsets@.len(),
        ensures
            final(self).wf(),
            final(self).subsets@ == old(self).subsets@.update(
                root_of(old(self).subsets@, x as int),
                root_of(old(self).subsets@, y as int) as usize,
            ),
    {
        let ghost s = self.subsets@;
        let x_root = self.find(x);
        let y_root = self.find(y);
        proof {
            lemma_root_of(s, x as int);
            lemma_root_of(s, y as int);
        }
        self.subsets.set(x_root, y_root);
        proof {
            Self::lemma_merge_keeps_wf(s, x_root as int, y_root as int);
        }
    }
}

} // verus!
