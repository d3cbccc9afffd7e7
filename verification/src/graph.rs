//! The region-subset graph as a square matrix, its reachability relation and
//! the order in which its strongly connected components are worked through.

use vstd::prelude::*;
use crate::sums::{lemma_sum_bound, lemma_sum_update, sum};

verus! {

/// Whether `m` has `n` rows of `n` entries.
pub open spec fn square(m: Seq<Vec<bool>>, n: nat) -> bool {
    m.len() == n && forall|i: int| 0 <= i < n ==> (#[trigger] m[i])@.len() == n
}

/// Whether the matrix has an entry from `a` to `b`.
pub open spec fn entry(m: Seq<Vec<bool>>, a: int, b: int) -> bool {
    0 <= a < m.len() && 0 <= b < m[a]@.len() && m[a]@[b]
}

/// Whether `path` is a walk in the graph: nodes of the graph, each one joined
/// to the next by an edge.
pub open spec fn is_path(edges: Seq<Vec<bool>>, path: Seq<int>) -> bool {
    &&& path.len() > 0
    &&& forall|i: int| 0 <= i < path.len() ==> 0 <= #[trigger] path[i] < edges.len()
    &&& forall|i: int|
        #![trigger path[i]]
        0 <= i < path.len() - 1 ==> entry(edges, path[i], path[i + 1])
}

/// Whether a walk leads from `a` to `b`; the walk of no edge counts.
pub open spec fn reaches(edges: Seq<Vec<bool>>, a: int, b: int) -> bool {
    exists|path: Seq<int>| is_path(edges, path) && path[0] == a && path.last() == b
}

/// Whether two nodes lie on a common cycle, or are the same node.
pub open spec fn same_component(edges: Seq<Vec<bool>>, a: int, b: int) -> bool {
    reaches(edges, a, b) && reaches(edges, b, a)
}

pub proof fn lemma_reaches_self(edges: Seq<Vec<bool>>, a: int)
    requires
        0 <= a < edges.len(),
    ensures
        reaches(edges, a, a),
{
    let path = seq![a];
    assert(is_path(edges, path));
    assert(path[0] == a && path.last() == a);
}

pub proof fn lemma_reaches_edge(edges: Seq<Vec<bool>>, a: int, b: int)
    requires
        entry(edges, a, b),
        0 <= b < edges.len(),
    ensures
        reaches(edges, a, b),
{
    let path = seq![a, b];
    assert(is_path(edges, path));
    assert(path[0] == a && path.last() == b);
}

pub proof fn lemma_reaches_trans(edges: Seq<Vec<bool>>, a: int, b: int, c: int)
    requires
        reaches(edges, a, b),
        reaches(edges, b, c),
    ensures
        reaches(edges, a, c),
{
    let p = choose|path: Seq<int>| is_path(edges, path) && path[0] == a && path.last() == b;
    let q = choose|path: Seq<int>| is_path(edges, path) && path[0] == b && path.last() == c;
    let path = p + q.drop_first();
    assert forall|i: int| 0 <= i < path.len() implies 0 <= #[trigger] path[i] < edges.len() by {
        if i < p.len() {
            assert(path[i] == p[i]);
        } else {
            assert(path[i] == q[i - p.len() + 1]);
        }
    }
    assert forall|i: int| #![trigger path[i]] 0 <= i < path.len() - 1 implies entry(
        edges,
        path[i],
        path[i + 1],
    ) by {
        if i < p.len() - 1 {
            assert(path[i] == p[i] && path[i + 1] == p[i + 1]);
        } else {
            let k = i - p.len() + 1;
            assert(path[i + 1] == q[k + 1]);
            if k == 0 {
                assert(path[i] == p.last());
                assert(q[0] == b);
            } else {
                assert(path[i] == q[k]);
            }
            assert(entry(edges, q[k], q[k + 1]));
        }
    }
    assert(is_path(edges, path));
    assert(path[0] == p[0]);
    if q.len() == 1 {
        assert(path =~= p);
    } else {
        assert(path.last() == q.last());
    }
}

/// Whether `m` relates `a` to `c` whenever it relates `a` to `b` and `b` to `c`.
pub open spec fn closed_at(m: Seq<Vec<bool>>, a: int, b: int, c: int) -> bool {
    entry(m, a, b) && entry(m, b, c) ==> entry(m, a, c)
}

/// Whether the relation of `m` is transitive.
pub open spec fn transitive(m: Seq<Vec<bool>>) -> bool {
    forall|a: int, b: int, c: int| #[trigger] closed_at(m, a, b, c)
}

/// Whether every node is related to itself.
pub open spec fn reflexive(m: Seq<Vec<bool>>) -> bool {
    forall|a: int| 0 <= a < m.len() ==> #[trigger] entry(m, a, a)
}

/// Whether `m` relates only nodes that a walk in `edges` joins.
pub open spec fn within_reach(edges: Seq<Vec<bool>>, m: Seq<Vec<bool>>) -> bool {
    forall|a: int, b: int| #[trigger] entry(m, a, b) ==> reaches(edges, a, b)
}

/// Whether `m` relates whatever `lower` relates.
pub open spec fn includes(m: Seq<Vec<bool>>, lower: Seq<Vec<bool>>) -> bool {
    forall|a: int, b: int| #[trigger] entry(lower, a, b) ==> entry(m, a, b)
}

/// Whether `m` is exactly the reachability relation of `edges`.
pub open spec fn is_closure_of(m: Seq<Vec<bool>>, edges: Seq<Vec<bool>>) -> bool {
    &&& square(m, edges.len())
    &&& forall|a: int, b: int|
        0 <= a < edges.len() && 0 <= b < edges.len() ==> (#[trigger] entry(m, a, b) <==> reaches(
            edges,
            a,
            b,
        ))
}

/// One for a set entry, zero for a clear one.
pub open spec fn row_weights(row: Seq<bool>) -> Seq<nat> {
    Seq::new(
        row.len(),
        |c: int|
            if row[c] {
                1nat
            } else {
                0nat
            },
    )
}

/// The number of set entries of a row.
pub open spec fn row_count(row: Seq<bool>) -> nat {
    sum(row_weights(row))
}

/// The number of set entries of each row.
pub open spec fn matrix_weights(m: Seq<Vec<bool>>) -> Seq<nat> {
    Seq::new(m.len(), |a: int| row_count(m[a]@))
}

/// The number of set entries of a matrix.
pub open spec fn matrix_count(m: Seq<Vec<bool>>) -> nat {
    sum(matrix_weights(m))
}

proof fn lemma_count_bound(m: Seq<Vec<bool>>, n: nat)
    requires
        square(m, n),
    ensures
        matrix_count(m) <= n * n,
{
    assert forall|a: int| 0 <= a < n implies matrix_weights(m)[a] <= n by {
        lemma_sum_bound(row_weights(m[a]@), 1);
        assert(n * 1 == n) by (nonlinear_arith);
    }
    lemma_sum_bound(matrix_weights(m), n);
}

proof fn lemma_count_set(m: Seq<Vec<bool>>, after: Seq<Vec<bool>>, a: int, c: int)
    requires
        0 <= a < m.len(),
        0 <= c < m[a]@.len(),
        !m[a]@[c],
        after.len() == m.len(),
        after[a]@ == m[a]@.update(c, true),
        forall|i: int| 0 <= i < m.len() && i != a ==> after[i] == m[i],
    ensures
        matrix_count(after) == matrix_count(m) + 1,
{
    assert(row_weights(after[a]@) =~= row_weights(m[a]@).update(c, 1nat));
    lemma_sum_update(row_weights(m[a]@), c, 1nat);
    assert(matrix_weights(after) =~= matrix_weights(m).update(a, row_count(m[a]@) + 1));
    lemma_sum_update(matrix_weights(m), a, row_count(m[a]@) + 1);
}

/// Sets the entry from `a` to `c`.
pub(crate) fn set_entry(m: &mut Vec<Vec<bool>>, a: usize, c: usize)
    requires
        a < old(m).len(),
        c < old(m)[a as int]@.len(),
    ensures
        final(m)@.len() == old(m)@.len(),
        final(m)@[a as int]@ == old(m)@[a as int]@.update(c as int, true),
        forall|i: int| 0 <= i < old(m)@.len() && i != a ==> final(m)@[i] == old(m)@[i],
{
    m[a][c] = true;
}

/// The matrix of the edges and of one entry from each node to itself.
fn with_diagonal(edges: &Vec<Vec<bool>>) -> (r: Vec<Vec<bool>>)
    requires
        square(edges@, edges.len() as nat),
    ensures
        square(r@, edges.len() as nat),
        forall|a: int, b: int|
            0 <= a < edges.len() && 0 <= b < edges.len() ==> (#[trigger] entry(r@, a, b) <==> (
            entry(edges@, a, b) || a == b)),
{
    let n = edges.len();
    let mut r: Vec<Vec<bool>> = Vec::new();
    let mut a: usize = 0;
    while a < n
        invariant
            a <= n,
            n == edges.len(),
            square(edges@, n as nat),
            r@.len() == a,
            forall|i: int| 0 <= i < a ==> (#[trigger] r@[i])@.len() == n,
            forall|i: int, j: int|
                0 <= i < a && 0 <= j < n ==> (#[trigger] entry(r@, i, j) <==> (entry(edges@, i, j)
                    || i == j)),
        decreases n - a,
    {
        let mut row: Vec<bool> = Vec::new();
        let mut b: usize = 0;
        while b < n
            invariant
                b <= n,
                a < n,
                n == edges.len(),
                square(edges@, n as nat),
                row@.len() == b,
                forall|j: int|
                    0 <= j < b ==> (#[trigger] row@[j] <==> (entry(edges@, a as int, j) || a
                        == j)),
            decreases n - b,
        {
            let bit = edges[a][b] || a == b;
            row.push(bit);
            b += 1;
        }
        let ghost before = r@;
        r.push(row);
        assert forall|i: int, j: int| 0 <= i < a + 1 && 0 <= j < n implies (#[trigger] entry(
            r@,
            i,
            j,
        ) <==> (entry(edges@, i, j) || i == j)) by {
            if i < a {
                assert(r@[i] == before[i]);
                assert(entry(before, i, j) <==> entry(r@, i, j));
            }
        }
        a += 1;
    }
    r
}

/// One pass over all triples: wherever `a` is related to `b` and `b` to `c`,
/// `a` is related to `c` afterwards. Says whether an entry was set.
fn saturate_round(edges: &Vec<Vec<bool>>, m: &mut Vec<Vec<bool>>) -> (changed: bool)
    requires
        square(old(m)@, edges.len() as nat),
        within_reach(edges@, old(m)@),
    ensures
        square(final(m)@, edges.len() as nat),
        within_reach(edges@, final(m)@),
        includes(final(m)@, old(m)@),
        changed ==> matrix_count(final(m)@) > matrix_count(old(m)@),
        !changed ==> final(m)@ == old(m)@ && transitive(final(m)@),
{
    let n = edges.len();
    let ghost m0 = m@;
    let mut changed = false;
    let mut a: usize = 0;
    while a < n
        invariant
            a <= n,
            n == edges.len(),
            square(m@, n as nat),
            within_reach(edges@, m@),
            includes(m@, m0),
            changed ==> matrix_count(m@) > matrix_count(m0),
            !changed ==> m@ == m0,
            !changed ==> forall|x: int, y: int, z: int|
                0 <= x < a ==> #[trigger] closed_at(m@, x, y, z),
        decreases n - a,
    {
        let mut b: usize = 0;
        while b < n
            invariant
                b <= n,
                a < n,
                n == edges.len(),
                square(m@, n as nat),
                within_reach(edges@, m@),
                includes(m@, m0),
                changed ==> matrix_count(m@) > matrix_count(m0),
                !changed ==> m@ == m0,
                !changed ==> forall|x: int, y: int, z: int|
                    0 <= x < a ==> #[trigger] closed_at(m@, x, y, z),
                !changed ==> forall|y: int, z: int|
                    0 <= y < b ==> #[trigger] closed_at(m@, a as int, y, z),
            decreases n - b,
        {
            if m[a][b] {
                let mut c: usize = 0;
                while c < n
                    invariant
                        c <= n,
                        a < n,
                        b < n,
                        n == edges.len(),
                        square(m@, n as nat),
                        within_reach(edges@, m@),
                        includes(m@, m0),
                        entry(m@, a as int, b as int),
                        changed ==> matrix_count(m@) > matrix_count(m0),
                        !changed ==> m@ == m0,
                        !changed ==> forall|x: int, y: int, z: int|
                            0 <= x < a ==> #[trigger] closed_at(m@, x, y, z),
                        !changed ==> forall|y: int, z: int|
                            0 <= y < b ==> #[trigger] closed_at(m@, a as int, y, z),
                        !changed ==> forall|z: int|
                            0 <= z < c ==> #[trigger] closed_at(m@, a as int, b as int, z),
                    decreases n - c,
                {
                    if m[b][c] && !m[a][c] {
                        let ghost before = m@;
                        set_entry(m, a, c);
                        proof {
                            lemma_count_set(before, m@, a as int, c as int);
                            assert forall|x: int, y: int| #[trigger] entry(before, x, y) implies entry(
                                m@,
                                x,
                                y,
                            ) by {
                                if x != a {
                                    assert(m@[x] == before[x]);
                                }
                            }
                            assert forall|x: int, y: int| #[trigger] entry(m0, x, y) implies entry(
                                m@,
                                x,
                                y,
                            ) by {
                                assert(entry(before, x, y));
                            }
                            assert forall|x: int, y: int| #[trigger] entry(m@, x, y) implies reaches(
                                edges@,
                                x,
                                y,
                            ) by {
                                if x == a && y == c {
                                    assert(entry(before, a as int, b as int));
                                    assert(entry(before, b as int, c as int));
                                    lemma_reaches_trans(edges@, a as int, b as int, c as int);
                                } else {
                                    if x != a {
                                        assert(m@[x] == before[x]);
                                    }
                                    assert(entry(before, x, y));
                                }
                            }
                            assert forall|i: int| 0 <= i < n implies (#[trigger] m@[i])@.len()
                                == n by {
                                if i != a {
                                    assert(m@[i] == before[i]);
                                }
                            }
                        }
                        changed = true;
                    }
                    c += 1;
                }
            }
            b += 1;
        }
        a += 1;
    }
    proof {
        if !changed {
            assert forall|x: int, y: int, z: int| #[trigger] closed_at(m@, x, y, z) by {
                if 0 <= x < n {
                } else {
                    assert(!entry(m@, x, y));
                }
            }
        }
    }
    changed
}

proof fn lemma_closure_complete(edges: Seq<Vec<bool>>, m: Seq<Vec<bool>>, path: Seq<int>)
    requires
        square(m, edges.len()),
        reflexive(m),
        transitive(m),
        includes(m, edges),
        is_path(edges, path),
    ensures
        entry(m, path[0], path.last()),
    decreases path.len(),
{
    if path.len() == 1 {
        assert(entry(m, path[0], path[0]));
    } else {
        let init = path.drop_last();
        assert forall|i: int| 0 <= i < init.len() implies 0 <= #[trigger] init[i]
            < edges.len() by {
            assert(init[i] == path[i]);
        }
        assert forall|i: int| #![trigger init[i]] 0 <= i < init.len() - 1 implies entry(
            edges,
            init[i],
            init[i + 1],
        ) by {
            assert(init[i] == path[i] && init[i + 1] == path[i + 1]);
        }
        lemma_closure_complete(edges, m, init);
        let k = path.len() - 2;
        assert(init.last() == path[k]);
        assert(entry(edges, path[k], path[k + 1]));
        assert(entry(m, path[k], path[k + 1]));
        assert(closed_at(m, path[0], path[k], path[k + 1]));
    }
}

/// The reachability relation of the graph: the entry from `a` to `b` is set
/// exactly where a walk leads from `a` to `b`.
pub fn transitive_closure(edges: &Vec<Vec<bool>>) -> (r: Vec<Vec<bool>>)
    requires
        square(edges@, edges.len() as nat),
    ensures
        is_closure_of(r@, edges@),
{
    let n = edges.len();
    let mut r = with_diagonal(edges);
    proof {
        assert forall|a: int, b: int| #[trigger] entry(r@, a, b) implies reaches(edges@, a, b) by {
            if entry(edges@, a, b) {
                lemma_reaches_edge(edges@, a, b);
            } else {
                lemma_reaches_self(edges@, a);
            }
        }
    }
    let ghost start = r@;
    let mut changed = true;
    while changed
        invariant
            n == edges.len(),
            square(r@, n as nat),
            within_reach(edges@, r@),
            includes(r@, start),
            !changed ==> transitive(r@),
        decreases 2 * (n * n - matrix_count(r@)) + (if changed { 1int } else { 0int }),
    {
        let ghost before = r@;
        proof {
            lemma_count_bound(r@, n as nat);
        }
        changed = saturate_round(edges, &mut r);
        proof {
            lemma_count_bound(r@, n as nat);
            assert forall|a: int, b: int| #[trigger] entry(start, a, b) implies entry(r@, a, b) by {
                assert(entry(before, a, b));
            }
        }
    }
    proof {
        assert forall|a: int| 0 <= a < n implies #[trigger] entry(r@, a, a) by {
            assert(entry(start, a, a));
        }
        assert forall|a: int, b: int| #[trigger] entry(edges@, a, b) implies entry(r@, a, b) by {
            assert(entry(start, a, b));
        }
        assert forall|a: int, b: int| 0 <= a < n && 0 <= b < n && reaches(edges@, a, b) implies entry(
            r@,
            a,
            b,
        ) by {
            let path = choose|path: Seq<int>|
                is_path(edges@, path) && path[0] == a && path.last() == b;
            lemma_closure_complete(edges@, r@, path);
        }
    }
    r
}

} // verus!
