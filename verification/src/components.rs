//! The strongly connected components of a reachability relation, listed so
//! that no walk leads from a later component back to an earlier one.

use vstd::prelude::*;
use crate::graph::{
    closed_at, entry, is_closure_of, lemma_reaches_self, lemma_reaches_trans, reflexive, row_count,
    row_weights, square, transitive, transitive_closure,
};
use crate::place::Region;
use crate::sums::{lemma_sum_bound, lemma_sum_lt, sum};

verus! {

/// Whether the relation of `m` is reflexive and transitive.
pub open spec fn preorder(m: Seq<Vec<bool>>) -> bool {
    square(m, m.len()) && reflexive(m) && transitive(m)
}

/// Whether `r` is one of `nodes`.
pub open spec fn holds(nodes: Seq<Region>, r: int) -> bool {
    exists|k: int| 0 <= k < nodes.len() && nodes[k] == r
}

/// Whether component `i` of `order` holds node `r`.
pub open spec fn member(order: Seq<Vec<Region>>, i: int, r: int) -> bool {
    0 <= i < order.len() && holds(order[i]@, r)
}

/// Whether some component of `order` holds node `r`.
pub open spec fn covered(order: Seq<Vec<Region>>, r: int) -> bool {
    exists|i: int| member(order, i, r)
}

/// Whether `order` lists the strongly connected components of the relation
/// `reach` in a topological order: every node is in a component, the nodes
/// of a component reach each other, and no node reaches a node of an earlier
/// component.
pub open spec fn is_component_order(order: Seq<Vec<Region>>, reach: Seq<Vec<bool>>) -> bool {
    &&& forall|i: int, r: int| #[trigger] member(order, i, r) ==> 0 <= r < reach.len()
    &&& forall|r: int| 0 <= r < reach.len() ==> #[trigger] covered(order, r)
    &&& forall|i: int, a: int, b: int|
        #![trigger member(order, i, a), member(order, i, b)]
        member(order, i, a) && member(order, i, b) ==> entry(reach, a, b)
    &&& forall|i: int, j: int, a: int, b: int|
        #![trigger member(order, i, b), member(order, j, a)]
        i < j && member(order, i, b) && member(order, j, a) ==> !entry(reach, a, b)
    &&& forall|i: int| 0 <= i < order.len() ==> rising(#[trigger] order[i]@)
}

/// Whether `nodes` is not empty and lists its nodes in rising order.
pub open spec fn rising(nodes: Seq<Region>) -> bool {
    nodes.len() > 0 && forall|j: int, k: int| 0 <= j < k < nodes.len() ==> nodes[j] < nodes[k]
}

/// One for each node that reaches `b`, zero for the others.
pub open spec fn ancestor_weights(m: Seq<Vec<bool>>, b: int) -> Seq<nat> {
    Seq::new(
        m.len(),
        |a: int|
            if entry(m, a, b) {
                1nat
            } else {
                0nat
            },
    )
}

/// The number of nodes that reach `b`.
pub open spec fn rank(m: Seq<Vec<bool>>, b: int) -> nat {
    sum(ancestor_weights(m, b))
}

/// A node that reaches another and is not reached back has fewer ancestors.
proof fn lemma_rank_strict(m: Seq<Vec<bool>>, a: int, b: int)
    requires
        preorder(m),
        entry(m, a, b),
        !entry(m, b, a),
    ensures
        rank(m, a) < rank(m, b),
{
    let wa = ancestor_weights(m, a);
    let wb = ancestor_weights(m, b);
    assert forall|x: int| 0 <= x < wa.len() implies wa[x] <= wb[x] by {
        assert(closed_at(m, x, a, b));
    }
    assert(entry(m, b, b));
    lemma_sum_lt(wa, wb, b);
}

fn compute_rank(m: &Vec<Vec<bool>>, b: usize) -> (r: usize)
    requires
        square(m@, m.len() as nat),
        b < m.len(),
    ensures
        r == rank(m@, b as int),
{
    let n = m.len();
    let mut count: usize = 0;
    let mut a: usize = 0;
    let ghost weights = ancestor_weights(m@, b as int);
    assert(weights.subrange(0, 0) =~= Seq::<nat>::empty());
    while a < n
        invariant
            a <= n,
            n == m.len(),
            b < n,
            square(m@, n as nat),
            weights == ancestor_weights(m@, b as int),
            count == sum(weights.subrange(0, a as int)),
            count <= a,
        decreases n - a,
    {
        let ghost next = weights.subrange(0, a + 1);
        assert(next.drop_last() =~= weights.subrange(0, a as int));
        assert(next.last() == weights[a as int]);
        if m[a][b] {
            count += 1;
        }
        a += 1;
    }
    assert(weights.subrange(0, n as int) =~= weights);
    count
}

fn compute_ranks(m: &Vec<Vec<bool>>) -> (ranks: Vec<usize>)
    requires
        square(m@, m.len() as nat),
    ensures
        ranks@.len() == m.len(),
        forall|b: int| 0 <= b < m.len() ==> #[trigger] ranks@[b] == rank(m@, b),
{
    let n = m.len();
    let mut ranks: Vec<usize> = Vec::new();
    let mut b: usize = 0;
    while b < n
        invariant
            b <= n,
            n == m.len(),
            square(m@, n as nat),
            ranks@.len() == b,
            forall|x: int| 0 <= x < b ==> #[trigger] ranks@[x] == rank(m@, x),
        decreases n - b,
    {
        let r = compute_rank(m, b);
        ranks.push(r);
        b += 1;
    }
    ranks
}

/// The node of least rank among those not yet listed, or the number of nodes
/// where all are listed.
fn least_unlisted(ranks: &Vec<usize>, listed: &Vec<bool>) -> (best: usize)
    requires
        ranks@.len() == listed@.len(),
    ensures
        best <= listed@.len(),
        best < listed@.len() ==> !listed@[best as int] && forall|x: int|
            0 <= x < listed@.len() && !listed@[x] ==> ranks@[best as int] <= #[trigger] ranks@[x],
        best == listed@.len() ==> forall|x: int| 0 <= x < listed@.len() ==> #[trigger] listed@[x],
{
    let n = listed.len();
    let mut best: usize = n;
    let mut r: usize = 0;
    while r < n
        invariant
            r <= n,
            n == listed@.len(),
            n == ranks@.len(),
            best <= n,
            best < n ==> !listed@[best as int] && forall|x: int|
                0 <= x < r && !listed@[x] ==> ranks@[best as int] <= #[trigger] ranks@[x],
            best == n ==> forall|x: int| 0 <= x < r ==> #[trigger] listed@[x],
        decreases n - r,
    {
        if !listed[r] {
            if best == n {
                best = r;
            } else if ranks[r] < ranks[best] {
                best = r;
            }
        }
        r += 1;
    }
    best
}

/// The nodes that `root` reaches and that reach it back, in rising order;
/// each of them is marked as listed.
fn take_component(reach: &Vec<Vec<bool>>, root: usize, listed: &mut Vec<bool>) -> (comp: Vec<Region>)
    requires
        square(reach@, reach.len() as nat),
        root < reach.len(),
        entry(reach@, root as int, root as int),
        old(listed)@.len() == reach.len(),
    ensures
        final(listed)@.len() == reach.len(),
        rising(comp@),
        forall|x: int|
            0 <= x < reach.len() ==> (#[trigger] final(listed)@[x] <==> (old(listed)@[x] || (entry(
                reach@,
                root as int,
                x,
            ) && entry(reach@, x, root as int)))),
        forall|x: int|
            #[trigger] holds(comp@, x) <==> (0 <= x < reach.len() && entry(
                reach@,
                root as int,
                x,
            ) && entry(reach@, x, root as int)),
{
    let n = reach.len();
    let mut comp: Vec<Region> = Vec::new();
    let ghost listed0 = listed@;
    let mut x: usize = 0;
    while x < n
        invariant
            x <= n,
            n == reach.len(),
            root < n,
            square(reach@, n as nat),
            listed@.len() == n,
            listed0.len() == n,
            forall|y: int|
                0 <= y < n ==> (#[trigger] listed@[y] <==> (listed0[y] || (y < x && entry(
                    reach@,
                    root as int,
                    y,
                ) && entry(reach@, y, root as int)))),
            forall|k: int|
                0 <= k < comp@.len() ==> 0 <= #[trigger] comp@[k] < x && entry(
                    reach@,
                    root as int,
                    comp@[k] as int,
                ) && entry(reach@, comp@[k] as int, root as int),
            forall|y: int|
                0 <= y < x && entry(reach@, root as int, y) && entry(reach@, y, root as int)
                    ==> #[trigger] holds(comp@, y),
            forall|j: int, k: int| 0 <= j < k < comp@.len() ==> comp@[j] < comp@[k],
        decreases n - x,
    {
        if reach[root][x] && reach[x][root] {
            let ghost before = comp@;
            comp.push(x);
            listed.set(x, true);
            assert(comp@[before.len() as int] == x);
            assert forall|y: int|
                0 <= y < x + 1 && entry(reach@, root as int, y) && entry(
                    reach@,
                    y,
                    root as int,
                ) implies #[trigger] holds(comp@, y) by {
                if y < x {
                    assert(holds(before, y));
                    let k = choose|k: int| 0 <= k < before.len() && before[k] == y;
                    assert(comp@[k] == y);
                }
            }
        }
        x += 1;
    }
    proof {
        assert forall|y: int| #[trigger] holds(comp@, y) implies 0 <= y < n && entry(
            reach@,
            root as int,
            y,
        ) && entry(reach@, y, root as int) by {
            let k = choose|k: int| 0 <= k < comp@.len() && comp@[k] == y;
            assert(0 <= comp@[k] < x);
        }
        assert(holds(comp@, root as int));
    }
    comp
}

/// The strongly connected components of `reach`, in a topological order.
pub fn component_order(reach: &Vec<Vec<bool>>) -> (order: Vec<Vec<Region>>)
    requires
        preorder(reach@),
    ensures
        is_component_order(order@, reach@),
{
    let n = reach.len();
    let ranks = compute_ranks(reach);
    let mut listed: Vec<bool> = Vec::new();
    let mut i: usize = 0;
    while i < n
        invariant
            i <= n,
            listed@.len() == i,
            forall|x: int| 0 <= x < i ==> !#[trigger] listed@[x],
        decreases n - i,
    {
        listed.push(false);
        i += 1;
    }
    let mut order: Vec<Vec<Region>> = Vec::new();
    loop
        invariant
            n == reach.len(),
            preorder(reach@),
            ranks@.len() == n,
            forall|b: int| 0 <= b < n ==> #[trigger] ranks@[b] == rank(reach@, b),
            listed@.len() == n,
            forall|i: int, r: int| #[trigger] member(order@, i, r) ==> 0 <= r < n && listed@[r],
            forall|r: int| 0 <= r < n && #[trigger] listed@[r] ==> covered(order@, r),
            forall|i: int, a: int, b: int|
                #![trigger member(order@, i, a), member(order@, i, b)]
                member(order@, i, a) && member(order@, i, b) ==> entry(reach@, a, b),
            forall|i: int, j: int, a: int, b: int|
                #![trigger member(order@, i, b), member(order@, j, a)]
                i < j && member(order@, i, b) && member(order@, j, a) ==> !entry(reach@, a, b),
            forall|i: int| 0 <= i < order@.len() ==> rising(#[trigger] order@[i]@),
            forall|a: int, b: int|
                0 <= a < n && 0 <= b < n && !listed@[a] && listed@[b] ==> !#[trigger] entry(
                    reach@,
                    a,
                    b,
                ),
        ensures
            is_component_order(order@, reach@),
        decreases n - row_count(listed@),
    {
        let root = least_unlisted(&ranks, &listed);
        if root == n {
            assert forall|r: int| 0 <= r < n implies #[trigger] covered(order@, r) by {
                assert(listed@[r]);
            }
            break ;
        }
        let ghost before = listed@;
        let ghost order0 = order@;
        assert(entry(reach@, root as int, root as int));
        let comp = take_component(reach, root, &mut listed);
        order.push(comp);
        proof {
            let j = order0.len() as int;
            assert forall|i: int| 0 <= i < order@.len() implies rising(#[trigger] order@[i]@) by {
                if i < j {
                    assert(order@[i] == order0[i]);
                } else {
                    assert(order@[i] == comp);
                }
            }
            // the measure: `root` was not listed and is now.
            lemma_sum_bound(row_weights(listed@), 1);
            assert(n * 1 == n) by (nonlinear_arith);
            assert forall|x: int| 0 <= x < n implies row_weights(before)[x] <= row_weights(
                listed@,
            )[x] by {}
            lemma_sum_lt(row_weights(before), row_weights(listed@), root as int);
            // what the new list holds
            assert forall|i: int, r: int| #[trigger] member(order@, i, r) implies (if i < j {
                member(order0, i, r)
            } else {
                i == j && 0 <= r < n && entry(reach@, root as int, r) && entry(
                    reach@,
                    r,
                    root as int,
                )
            }) by {
                if i < j {
                    assert(order@[i] == order0[i]);
                } else {
                    assert(order@[j] == comp);
                    assert(holds(comp@, r));
                }
            }
            assert forall|i: int, r: int| #[trigger] member(order0, i, r) implies member(
                order@,
                i,
                r,
            ) by {
                assert(order@[i] == order0[i]);
            }
            assert forall|r: int|
                0 <= r < n && entry(reach@, root as int, r) && entry(
                    reach@,
                    r,
                    root as int,
                ) implies member(order@, j, r) by {
                assert(order@[j] == comp);
            }
            assert forall|r: int| 0 <= r < n && #[trigger] listed@[r] implies covered(order@, r) by {
                if before[r] {
                    assert(covered(order0, r));
                    let i = choose|i: int| member(order0, i, r);
                    assert(member(order@, i, r));
                } else {
                    assert(member(order@, j, r));
                }
            }
            assert forall|i: int, a: int, b: int|
                #![trigger member(order@, i, a), member(order@, i, b)]
                member(order@, i, a) && member(order@, i, b) implies entry(reach@, a, b) by {
                if i < j {
                    assert(member(order0, i, a) && member(order0, i, b));
                } else {
                    assert(closed_at(reach@, a, root as int, b));
                }
            }
            assert forall|i: int, k: int, a: int, b: int|
                #![trigger member(order@, i, b), member(order@, k, a)]
                i < k && member(order@, i, b) && member(order@, k, a) implies !entry(
                    reach@,
                    a,
                    b,
                ) by {
                if k < j {
                    assert(member(order0, i, b) && member(order0, k, a));
                } else {
                    assert(member(order0, i, b));
                    assert(before[b]);
                    if before[a] {
                        assert(!entry(reach@, root as int, a));
                    }
                }
            }
            assert forall|a: int, b: int|
                0 <= a < n && 0 <= b < n && !listed@[a] && listed@[b] implies !#[trigger] entry(
                    reach@,
                    a,
                    b,
                ) by {
                if !before[b] && entry(reach@, a, b) {
                    assert(closed_at(reach@, a, b, root as int));
                    assert(!entry(reach@, root as int, a));
                    lemma_rank_strict(reach@, a, root as int);
                    assert(ranks@[root as int] <= ranks@[a]);
                }
            }
        }
    }
    order
}

} // verus!

verus! {

/// The subset relation between the regions of a body: its edges, what
/// reaches what, and its components in working order.
#[derive(Debug)]
pub struct SubsetGraph {
    /// `edges[a][b]` is set where region `a` is a subset of region `b`.
    pub edges: Vec<Vec<bool>>,
    /// `reach[a][b]` is set where a chain of edges leads from `a` to `b`.
    pub reach: Vec<Vec<bool>>,
    /// The strongly connected components, in a topological order.
    pub order: Vec<Vec<Region>>,
}

impl SubsetGraph {
    /// Whether the three fields fit each other.
    pub open spec fn wf(&self) -> bool {
        &&& square(self.edges@, self.edges@.len())
        &&& is_closure_of(self.reach@, self.edges@)
        &&& is_component_order(self.order@, self.reach@)
    }

    /// The graph of these edges.
    pub fn new(edges: Vec<Vec<bool>>) -> (g: SubsetGraph)
        requires
            square(edges@, edges@.len()),
        ensures
            g.wf(),
            g.edges@ == edges@,
    {
        let reach = transitive_closure(&edges);
        proof {
            assert forall|a: int| 0 <= a < reach@.len() implies #[trigger] entry(reach@, a, a) by {
                lemma_reaches_self(edges@, a);
            }
            assert forall|a: int, b: int, c: int| #[trigger] closed_at(reach@, a, b, c) by {
                if entry(reach@, a, b) && entry(reach@, b, c) {
                    lemma_reaches_trans(edges@, a, b, c);
                }
            }
        }
        let order = component_order(&reach);
        SubsetGraph { edges, reach, order }
    }
}

} // verus!
