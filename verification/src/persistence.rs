//! The boundary operator of a simplex list as an explicit GF(2) matrix.
//!
//! Entry `(row, col)` is 1 exactly when the simplex indexed by `col`
//! has the simplex indexed by `row` among its faces obtained by deleting
//! one vertex value; indices are resolved to the last occurrence of a
//! vertex list, the convention of an index rebuilt by repeated insertion.

use vstd::prelude::*;

verus! {

/// A simplex, defined by its vertex indices.
#[derive(Debug, Clone, PartialEq, Eq, Hash)]
pub struct Simplex {
    /// The vertex indices that define the simplex.
    pub vertices: Vec<usize>,
}

/// The vertex list with every occurrence of `v` deleted.
pub open spec fn retain_ne(vs: Seq<usize>, v: usize) -> Seq<usize>
    decreases vs.len(),
{
    if vs.len() == 0 {
        Seq::<usize>::empty()
    } else {
        let pre = retain_ne(vs.drop_last(), v);
        if vs.last() == v {
            pre
        } else {
            pre.push(vs.last())
        }
    }
}

/// The last position in `ss` holding exactly these vertices, or `None`.
pub open spec fn lookup_last(ss: Seq<Simplex>, vs: Seq<usize>) -> Option<int> {
    if exists|j: int| 0 <= j < ss.len() && (#[trigger] ss[j].vertices@) == vs {
        Some(
            choose|j: int|
                0 <= j < ss.len() && (#[trigger] ss[j].vertices@) == vs && (forall|j2: int|
                    j < j2 < ss.len() ==> ss[j2].vertices@ != vs),
        )
    } else {
        None
    }
}

/// Vertex deletion `p` of simplex `j` links matrix row `r` to column `c`.
pub open spec fn links(ss: Seq<Simplex>, r: int, c: int, j: int, p: int) -> bool {
    &&& 0 <= j < ss.len()
    &&& 0 <= p < ss[j].vertices@.len()
    &&& lookup_last(ss, retain_ne(ss[j].vertices@, ss[j].vertices@[p])) == Some(r)
    &&& lookup_last(ss, ss[j].vertices@) == Some(c)
}

/// Some vertex deletion strictly before step `(j, p)` links `r` to `c`.
pub open spec fn links_before(ss: Seq<Simplex>, r: int, c: int, j: int, p: int) -> bool {
    exists|j2: int, p2: int| (j2 < j || (j2 == j && p2 < p)) && #[trigger] links(ss, r, c, j2, p2)
}

/// The boundary-matrix entry: 1 when some vertex deletion links `r` to
/// `c`, 0 otherwise.
pub open spec fn boundary_entry(ss: Seq<Simplex>, r: int, c: int) -> i32 {
    if exists|j: int, p: int| #[trigger] links(ss, r, c, j, p) {
        1
    } else {
        0
    }
}

/// Compares two vertex lists member by member.
#[verifier::loop_isolation(false)]
fn same_vertices(a: &Vec<usize>, b: &Vec<usize>) -> (r: bool)
    ensures
        r <==> a@ == b@,
{
    if a.len() != b.len() {
        return false;
    }
    let mut t: usize = 0;
    while t < a.len()
        invariant
            t <= a@.len(),
            a@.len() == b@.len(),
            forall|q: int| 0 <= q < t ==> a@[q] == b@[q],
        decreases a@.len() - t,
    {
        if a[t] != b[t] {
            return false;
        }
        t = t + 1;
    }
    proof {
        assert(a@ =~= b@);
    }
    true
}

/// Finds the last position holding exactly these vertices.
#[verifier::loop_isolation(false)]
fn find_simplex(simplices: &[Simplex], vs: &Vec<usize>) -> (r: Option<usize>)
    ensures
        match r {
            Some(j) => j < simplices@.len() && lookup_last(simplices@, vs@) == Some(j as int),
            None => lookup_last(simplices@, vs@) is None,
        },
{
    let mut j: usize = simplices.len();
    while j > 0
        invariant
            j <= simplices@.len(),
            forall|j2: int|
                j <= j2 < simplices@.len() ==> (#[trigger] simplices@[j2]).vertices@ != vs@,
        decreases j,
    {
        j = j - 1;
        if same_vertices(&simplices[j].vertices, vs) {
            proof {
                let ss = simplices@;
                let c = choose|jc: int|
                    0 <= jc < ss.len() && (#[trigger] ss[jc].vertices@) == vs@ && (forall|
                        j2: int|
                        jc < j2 < ss.len() ==> ss[j2].vertices@ != vs@);
                assert(c == j as int) by {
                    if c < j as int {
                        assert(ss[j as int].vertices@ != vs@);
                    }
                    if c > j as int {
                        assert(ss[c].vertices@ != vs@);
                    }
                }
            }
            return Some(j);
        }
    }
    None
}

/// Deletes every occurrence of a vertex value from a vertex list.
#[verifier::loop_isolation(false)]
fn delete_vertex(vs: &Vec<usize>, v: usize) -> (r: Vec<usize>)
    ensures
        r@ == retain_ne(vs@, v),
{
    let mut r: Vec<usize> = Vec::new();
    let mut q: usize = 0;
    proof {
        assert(vs@.take(0) =~= Seq::<usize>::empty());
    }
    while q < vs.len()
        invariant
            q <= vs@.len(),
            r@ == retain_ne(vs@.take(q as int), v),
        decreases vs@.len() - q,
    {
        let x = vs[q];
        proof {
            assert(vs@.take(q + 1).drop_last() =~= vs@.take(q as int));
            assert(vs@.take(q + 1).last() == x);
        }
        if x != v {
            r.push(x);
        }
        q = q + 1;
    }
    proof {
        assert(vs@.take(vs@.len() as int) =~= vs@);
    }
    r
}

/// Computes the boundary operator of the given simplex list over GF(2):
/// an `n` by `n` matrix whose entry `(row, col)` is 1 exactly when
/// deleting one vertex value from the simplex resolved at `col` yields
/// the vertex list resolved at `row`.
#[verifier::loop_isolation(false)]
#[verifier::rlimit(100)]
pub fn compute_boundary_op(simplices: &[Simplex]) -> (m: Vec<Vec<i32>>)
    ensures
        m@.len() == simplices@.len(),
        forall|r: int| 0 <= r < m@.len() ==> (#[trigger] m@[r])@.len() == simplices@.len(),
        forall|r: int, c: int|
            0 <= r < m@.len() && 0 <= c < m@.len() ==> (#[trigger] m@[r]@[c]) == boundary_entry(
                simplices@,
                r,
                c,
            ),
{
    let ghost ss = simplices@;
    let n = simplices.len();
    let mut matrix: Vec<Vec<i32>> = Vec::new();
    let mut t: usize = 0;
    while t < n
        invariant
            t <= n,
            matrix@.len() == t,
            forall|r: int|
                0 <= r < t ==> (#[trigger] matrix@[r])@.len() == n && (forall|c: int|
                    0 <= c < n ==> matrix@[r]@[c] == 0),
        decreases n - t,
    {
        let row: Vec<i32> = vec![0; n];
        matrix.push(row);
        t = t + 1;
    }
    let mut j: usize = 0;
    while j < n
        invariant
            j <= n,
            matrix@.len() == n,
            forall|r: int| 0 <= r < n ==> (#[trigger] matrix@[r])@.len() == n,
            forall|r: int, c: int|
                0 <= r < n && 0 <= c < n ==> (#[trigger] matrix@[r]@[c]) == (
                if links_before(ss, r, c, j as int, 0) {
                    1i32
                } else {
                    0i32
                }),
        decreases n - j,
    {
        let col = match find_simplex(simplices, &simplices[j].vertices) {
            Some(c) => c,
            None => {
                proof {
                    assert(ss[j as int].vertices@ == ss[j as int].vertices@);
                    assert(false);
                }
                0
            },
        };
        let k = simplices[j].vertices.len();
        let mut p: usize = 0;
        while p < k
            invariant
                p <= k,
                k == ss[j as int].vertices@.len(),
                j < n,
                col < n,
                lookup_last(ss, ss[j as int].vertices@) == Some(col as int),
                matrix@.len() == n,
                forall|r: int| 0 <= r < n ==> (#[trigger] matrix@[r])@.len() == n,
                forall|r: int, c: int|
                    0 <= r < n && 0 <= c < n ==> (#[trigger] matrix@[r]@[c]) == (
                    if links_before(ss, r, c, j as int, p as int) {
                        1i32
                    } else {
                        0i32
                    }),
            decreases k - p,
        {
            let face = delete_vertex(&simplices[j].vertices, simplices[j].vertices[p]);
            match find_simplex(simplices, &face) {
                Some(row) => {
                    proof {
                        assert(links(ss, row as int, col as int, j as int, p as int));
                    }
                    let ghost m0 = matrix@;
                    let mut tmp: Vec<i32> = Vec::new();
                    matrix.set_and_swap(row, &mut tmp);
                    tmp.set(col, 1);
                    matrix.set_and_swap(row, &mut tmp);
                    proof {
                        assert(matrix@[row as int]@ =~= m0[row as int]@.update(col as int, 1i32));
                        assert forall|r: int, c: int|
                            0 <= r < n && 0 <= c < n implies (#[trigger] matrix@[r]@[c]) == (
                        if links_before(ss, r, c, j as int, p + 1) {
                            1i32
                        } else {
                            0i32
                        }) by {
                            if r == row as int && c == col as int {
                                assert(links_before(ss, r, c, j as int, p + 1));
                            } else {
                                assert(matrix@[r]@[c] == m0[r]@[c]);
                                if links_before(ss, r, c, j as int, p + 1) {
                                    let (j2, p2) = choose|j2: int, p2: int|
                                        (j2 < j as int || (j2 == j as int && p2 < p + 1))
                                            && #[trigger] links(ss, r, c, j2, p2);
                                    if j2 == j as int && p2 == p as int {
                                        assert(r == row as int && c == col as int);
                                    } else {
                                        assert(links_before(ss, r, c, j as int, p as int));
                                    }
                                }
                                if links_before(ss, r, c, j as int, p as int) {
                                    let (j2, p2) = choose|j2: int, p2: int|
                                        (j2 < j as int || (j2 == j as int && p2 < p as int))
                                            && #[trigger] links(ss, r, c, j2, p2);
                                    assert(links_before(ss, r, c, j as int, p + 1));
                                }
                            }
                        }
                    }
                },
                None => {
                    proof {
                        assert forall|r: int, c: int|
                            0 <= r < n && 0 <= c < n implies (#[trigger] matrix@[r]@[c]) == (
                        if links_before(ss, r, c, j as int, p + 1) {
                            1i32
                        } else {
                            0i32
                        }) by {
                            if links_before(ss, r, c, j as int, p + 1) {
                                let (j2, p2) = choose|j2: int, p2: int|
                                    (j2 < j as int || (j2 == j as int && p2 < p + 1))
                                        && #[trigger] links(ss, r, c, j2, p2);
                                if j2 == j as int && p2 == p as int {
                                    assert(lookup_last(
                                        ss,
                                        retain_ne(ss[j as int].vertices@, ss[j as int].vertices@[p as int]),
                                    ) is None);
                                } else {
                                    assert(links_before(ss, r, c, j as int, p as int));
                                }
                            }
                            if links_before(ss, r, c, j as int, p as int) {
                                let (j2, p2) = choose|j2: int, p2: int|
                                    (j2 < j as int || (j2 == j as int && p2 < p as int))
                                        && #[trigger] links(ss, r, c, j2, p2);
                                assert(links_before(ss, r, c, j as int, p + 1));
                            }
                        }
                    }
                },
            }
            p = p + 1;
        }
        proof {
            assert forall|r: int, c: int|
                0 <= r < n && 0 <= c < n implies (#[trigger] matrix@[r]@[c]) == (
            if links_before(ss, r, c, j + 1, 0) {
                1i32
            } else {
                0i32
            }) by {
                if links_before(ss, r, c, j + 1, 0) {
                    let (j2, p2) = choose|j2: int, p2: int|
                        (j2 < j + 1 || (j2 == j + 1 && p2 < 0)) && #[trigger] links(
                            ss,
                            r,
                            c,
                            j2,
                            p2,
                        );
                    assert(links_before(ss, r, c, j as int, k as int));
                }
                if links_before(ss, r, c, j as int, k as int) {
                    let (j2, p2) = choose|j2: int, p2: int|
                        (j2 < j as int || (j2 == j as int && p2 < k as int)) && #[trigger] links(
                            ss,
                            r,
                            c,
                            j2,
                            p2,
                        );
                    assert(links_before(ss, r, c, j + 1, 0));
                }
            }
        }
        j = j + 1;
    }
    proof {
        assert forall|r: int, c: int|
            0 <= r < n && 0 <= c < n implies (#[trigger] matrix@[r]@[c]) == boundary_entry(
            ss,
            r,
            c,
        ) by {
            if links_before(ss, r, c, n as int, 0) {
                let (j2, p2) = choose|j2: int, p2: int|
                    (j2 < n as int || (j2 == n as int && p2 < 0)) && #[trigger] links(
                        ss,
                        r,
                        c,
                        j2,
                        p2,
                    );
                assert(exists|j3: int, p3: int| #[trigger] links(ss, r, c, j3, p3));
            }
            if exists|j3: int, p3: int| #[trigger] links(ss, r, c, j3, p3) {
                let (j3, p3) = choose|j3: int, p3: int| #[trigger] links(ss, r, c, j3, p3);
                assert(links_before(ss, r, c, n as int, 0));
            }
        }
    }
    matrix
}

} // verus!
