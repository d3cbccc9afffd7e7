//! The points-to relation: the loans of each region, closed under the
//! subset relation by a fixpoint that is worked out component by component.

use vstd::prelude::*;
use vstd::seq_lib::seq_to_set_is_finite;
use vstd::set_lib::lemma_len_subset;
use crate::body::Body;
use crate::components::{covered, holds, member, SubsetGraph};
use crate::graph::{entry, lemma_reaches_edge, reaches, same_component};
use crate::loans::{all_distinct, definite_view, insert_loan, Definite};
use crate::place::{Place, PlaceElem, PlaceView, Region, Ty, views};
use crate::sums::{lemma_sum_le, lemma_sum_update, sum};

verus! {

/// The loans of region `r`, in the order in which they were found.
pub open spec fn loans(sets: Seq<Vec<Place>>, r: int) -> Seq<PlaceView> {
    if 0 <= r < sets.len() {
        views(sets[r]@)
    } else {
        Seq::empty()
    }
}

/// Whether `p` is a loan of region `r`.
pub open spec fn lent(sets: Seq<Vec<Place>>, r: int, p: PlaceView) -> bool {
    loans(sets, r).contains(p)
}

/// Whether two families of sets hold the same loans in the same order.
pub open spec fn same_loans(x: Seq<Vec<Place>>, y: Seq<Vec<Place>>) -> bool {
    x.len() == y.len() && forall|r: int| #[trigger] loans(x, r) == loans(y, r)
}

/// The record of region `b`, if it has one.
pub open spec fn record_of(definite: Seq<Option<Definite>>, b: int) -> Option<(Ty, Seq<PlaceElem>)> {
    if 0 <= b < definite.len() {
        definite_view(definite[b])
    } else {
        None
    }
}

/// What a loan `p` becomes when it flows into a region with this record:
/// `p` with the path of the record, where the edge lies on no cycle and the
/// record starts from the type of `p`; else `p` itself.
pub open spec fn carried(
    body: &Body,
    cyclic: bool,
    record: Option<(Ty, Seq<PlaceElem>)>,
    p: PlaceView,
) -> PlaceView {
    match record {
        Some((ty, projection)) => if !cyclic && body.ty_of(p) == Some(ty) {
            p.extend(projection)
        } else {
            p
        },
        None => p,
    }
}

/// What the loan `p` of region `a` becomes in region `b`.
pub open spec fn moved(
    body: &Body,
    edges: Seq<Vec<bool>>,
    definite: Seq<Option<Definite>>,
    a: int,
    b: int,
    p: PlaceView,
) -> PlaceView {
    carried(body, same_component(edges, a, b), record_of(definite, b), p)
}

/// Whether the second loan follows from the first along one edge.
pub open spec fn link(
    body: &Body,
    edges: Seq<Vec<bool>>,
    definite: Seq<Option<Definite>>,
    x: (int, PlaceView),
    y: (int, PlaceView),
) -> bool {
    entry(edges, x.0, y.0) && y.1 == moved(body, edges, definite, x.0, y.0, x.1)
}

/// Whether `chain` starts at a loan of `start` and goes on edge by edge.
pub open spec fn is_derivation(
    body: &Body,
    edges: Seq<Vec<bool>>,
    definite: Seq<Option<Definite>>,
    start: Seq<Vec<Place>>,
    chain: Seq<(int, PlaceView)>,
) -> bool {
    &&& chain.len() > 0
    &&& 0 <= chain[0].0 < start.len()
    &&& lent(start, chain[0].0, chain[0].1)
    &&& forall|i: int|
        #![trigger chain[i]]
        0 <= i < chain.len() - 1 ==> link(body, edges, definite, chain[i], chain[i + 1])
}

/// Whether the loans of `start` force `p` into region `r`.
pub open spec fn derivable(
    body: &Body,
    edges: Seq<Vec<bool>>,
    definite: Seq<Option<Definite>>,
    start: Seq<Vec<Place>>,
    r: int,
    p: PlaceView,
) -> bool {
    exists|chain: Seq<(int, PlaceView)>|
        is_derivation(body, edges, definite, start, chain) && chain.last() == (r, p)
}

/// Whether every loan of `a` has arrived in `b`.
pub open spec fn edge_closed(
    body: &Body,
    edges: Seq<Vec<bool>>,
    definite: Seq<Option<Definite>>,
    sets: Seq<Vec<Place>>,
    a: int,
    b: int,
) -> bool {
    forall|p: PlaceView| #[trigger]
        lent(sets, a, p) ==> lent(sets, b, moved(body, edges, definite, a, b, p))
}

/// Whether the sets are stable: along every edge every loan has arrived.
pub open spec fn closed(
    body: &Body,
    edges: Seq<Vec<bool>>,
    definite: Seq<Option<Definite>>,
    sets: Seq<Vec<Place>>,
) -> bool {
    forall|a: int, b: int| #[trigger]
        entry(edges, a, b) ==> edge_closed(body, edges, definite, sets, a, b)
}

/// Whether along every edge that leaves one of `members` every loan has
/// arrived.
pub open spec fn members_closed(
    body: &Body,
    edges: Seq<Vec<bool>>,
    definite: Seq<Option<Definite>>,
    sets: Seq<Vec<Place>>,
    members: Seq<Region>,
) -> bool {
    forall|k: int, b: int|
        0 <= k < members.len() && #[trigger] entry(edges, members[k] as int, b) ==> edge_closed(
            body,
            edges,
            definite,
            sets,
            members[k] as int,
            b,
        )
}

pub proof fn lemma_derivable_seed(
    body: &Body,
    edges: Seq<Vec<bool>>,
    definite: Seq<Option<Definite>>,
    start: Seq<Vec<Place>>,
    r: int,
    p: PlaceView,
)
    requires
        lent(start, r, p),
    ensures
        derivable(body, edges, definite, start, r, p),
{
    let chain = seq![(r, p)];
    assert(is_derivation(body, edges, definite, start, chain));
    assert(chain.last() == (r, p));
}

pub proof fn lemma_derivable_step(
    body: &Body,
    edges: Seq<Vec<bool>>,
    definite: Seq<Option<Definite>>,
    start: Seq<Vec<Place>>,
    a: int,
    b: int,
    p: PlaceView,
)
    requires
        derivable(body, edges, definite, start, a, p),
        entry(edges, a, b),
    ensures
        derivable(body, edges, definite, start, b, moved(body, edges, definite, a, b, p)),
{
    let chain = choose|chain: Seq<(int, PlaceView)>|
        is_derivation(body, edges, definite, start, chain) && chain.last() == (a, p);
    let q = moved(body, edges, definite, a, b, p);
    let longer = chain.push((b, q));
    assert forall|i: int| #![trigger longer[i]] 0 <= i < longer.len() - 1 implies link(
        body,
        edges,
        definite,
        longer[i],
        longer[i + 1],
    ) by {
        if i < chain.len() - 1 {
            assert(longer[i] == chain[i] && longer[i + 1] == chain[i + 1]);
        } else {
            assert(longer[i] == chain.last());
        }
    }
    assert(longer[0] == chain[0]);
    assert(is_derivation(body, edges, definite, start, longer));
    assert(longer.last() == (b, q));
}

/// Stable sets that hold the loans of `start` hold whatever follows from them.
pub proof fn lemma_closed_complete(
    body: &Body,
    edges: Seq<Vec<bool>>,
    definite: Seq<Option<Definite>>,
    start: Seq<Vec<Place>>,
    sets: Seq<Vec<Place>>,
    chain: Seq<(int, PlaceView)>,
)
    requires
        closed(body, edges, definite, sets),
        forall|r: int, p: PlaceView| #[trigger] lent(start, r, p) ==> lent(sets, r, p),
        is_derivation(body, edges, definite, start, chain),
    ensures
        lent(sets, chain.last().0, chain.last().1),
    decreases chain.len(),
{
    if chain.len() > 1 {
        let init = chain.drop_last();
        assert(init[0] == chain[0]);
        assert forall|i: int| #![trigger init[i]] 0 <= i < init.len() - 1 implies link(
            body,
            edges,
            definite,
            init[i],
            init[i + 1],
        ) by {
            assert(init[i] == chain[i] && init[i + 1] == chain[i + 1]);
        }
        lemma_closed_complete(body, edges, definite, start, sets, init);
        let k = chain.len() - 2;
        assert(init.last() == chain[k]);
        assert(link(body, edges, definite, chain[k], chain[k + 1]));
        assert(edge_closed(body, edges, definite, sets, chain[k].0, chain[k + 1].0));
    }
}

/// A sequence without repetition whose items all occur in `w` is no longer
/// than `w`.
proof fn lemma_distinct_within(s: Seq<PlaceView>, w: Seq<PlaceView>)
    requires
        s.no_duplicates(),
        forall|i: int| 0 <= i < s.len() ==> w.contains(#[trigger] s[i]),
    ensures
        s.len() <= w.len(),
{
    s.unique_seq_to_set();
    w.lemma_cardinality_of_set();
    seq_to_set_is_finite(w);
    assert forall|x: PlaceView| s.to_set().contains(x) implies w.to_set().contains(x) by {
        let i = choose|i: int| 0 <= i < s.len() && s[i] == x;
        assert(w.contains(s[i]));
    }
    lemma_len_subset(s.to_set(), w.to_set());
}

/// The loans of the regions `members`, one set after the other.
pub open spec fn gathered(sets: Seq<Vec<Place>>, members: Seq<Region>) -> Seq<PlaceView>
    decreases members.len(),
{
    if members.len() == 0 {
        Seq::empty()
    } else {
        gathered(sets, members.drop_last()) + loans(sets, members.last() as int)
    }
}

proof fn lemma_gathered(sets: Seq<Vec<Place>>, members: Seq<Region>, k: int, p: PlaceView)
    requires
        0 <= k < members.len(),
        lent(sets, members[k] as int, p),
    ensures
        gathered(sets, members).contains(p),
    decreases members.len(),
{
    let init = members.drop_last();
    let all = gathered(sets, members);
    if k == members.len() - 1 {
        let l = loans(sets, members.last() as int);
        let j = choose|j: int| 0 <= j < l.len() && l[j] == p;
        assert(all[gathered(sets, init).len() + j] == p);
    } else {
        lemma_gathered(sets, init, k, p);
        let g = gathered(sets, init);
        let j = choose|j: int| 0 <= j < g.len() && g[j] == p;
        assert(all[j] == p);
    }
}

/// The path of the record of region `r`; empty without a record.
pub open spec fn tail(definite: Seq<Option<Definite>>, r: int) -> Seq<PlaceElem> {
    match record_of(definite, r) {
        Some((ty, projection)) => projection,
        None => Seq::empty(),
    }
}

/// Every place that region `r` can hold while the component `members` is
/// worked on: what it held before, the loans of the component, and those
/// with the path of the record of `r`.
pub open spec fn room(
    definite: Seq<Option<Definite>>,
    sets0: Seq<Vec<Place>>,
    members: Seq<Region>,
    r: int,
) -> Seq<PlaceView> {
    let pool = gathered(sets0, members);
    loans(sets0, r) + pool + pool.map_values(|u: PlaceView| u.extend(tail(definite, r)))
}

proof fn lemma_room_old(
    definite: Seq<Option<Definite>>,
    sets0: Seq<Vec<Place>>,
    members: Seq<Region>,
    r: int,
    x: PlaceView,
)
    requires
        lent(sets0, r, x),
    ensures
        room(definite, sets0, members, r).contains(x),
{
    let l = loans(sets0, r);
    let j = choose|j: int| 0 <= j < l.len() && l[j] == x;
    assert(room(definite, sets0, members, r)[j] == x);
}

proof fn lemma_room_pool(
    definite: Seq<Option<Definite>>,
    sets0: Seq<Vec<Place>>,
    members: Seq<Region>,
    r: int,
    u: PlaceView,
)
    requires
        gathered(sets0, members).contains(u),
    ensures
        room(definite, sets0, members, r).contains(u),
        room(definite, sets0, members, r).contains(u.extend(tail(definite, r))),
{
    let pool = gathered(sets0, members);
    let l = loans(sets0, r);
    let j = choose|j: int| 0 <= j < pool.len() && pool[j] == u;
    let w = room(definite, sets0, members, r);
    assert(w[l.len() + j] == u);
    assert(w[l.len() + pool.len() + j] == u.extend(tail(definite, r)));
}

/// The number of loans of each region.
pub open spec fn lens(sets: Seq<Vec<Place>>) -> Seq<nat> {
    Seq::new(sets.len(), |r: int| sets[r]@.len() as nat)
}

/// The number of loans of all regions together.
pub open spec fn total(sets: Seq<Vec<Place>>) -> nat {
    sum(lens(sets))
}

/// How many loans each region has room for.
pub open spec fn caps(
    definite: Seq<Option<Definite>>,
    sets0: Seq<Vec<Place>>,
    members: Seq<Region>,
) -> Seq<nat> {
    Seq::new(sets0.len(), |r: int| room(definite, sets0, members, r).len())
}

/// Whether an edge leads from one of `members` to `r`.
pub open spec fn targeted(edges: Seq<Vec<bool>>, members: Seq<Region>, r: int) -> bool {
    exists|k: int| 0 <= k < members.len() && entry(edges, members[k] as int, r)
}

/// Whether the nodes of `members` all reach each other.
pub open spec fn clique(reach: Seq<Vec<bool>>, members: Seq<Region>) -> bool {
    forall|i: int, j: int|
        0 <= i < members.len() && 0 <= j < members.len() ==> entry(
            reach,
            #[trigger] members[i] as int,
            #[trigger] members[j] as int,
        )
}

/// What holds of the sets while the component `members` is worked on, where
/// `sets0` is what they were before and `start` what the fixpoint began with.
pub open spec fn working(
    body: &Body,
    graph: &SubsetGraph,
    definite: Seq<Option<Definite>>,
    start: Seq<Vec<Place>>,
    sets0: Seq<Vec<Place>>,
    members: Seq<Region>,
    sets: Seq<Vec<Place>>,
) -> bool {
    &&& sets.len() == graph.edges@.len()
    &&& sets0.len() == graph.edges@.len()
    &&& all_distinct(sets)
    &&& forall|r: int, p: PlaceView| #[trigger]
        lent(sets, r, p) ==> derivable(body, graph.edges@, definite, start, r, p)
    &&& forall|r: int, p: PlaceView| #[trigger] lent(sets0, r, p) ==> lent(sets, r, p)
    &&& forall|r: int|
        !targeted(graph.edges@, members, r) ==> #[trigger] loans(sets, r) == loans(sets0, r)
    &&& forall|k: int, p: PlaceView|
        0 <= k < members.len() && #[trigger] lent(sets, members[k] as int, p) ==> gathered(
            sets0,
            members,
        ).contains(p)
    &&& forall|r: int, x: PlaceView| #[trigger]
        lent(sets, r, x) ==> room(definite, sets0, members, r).contains(x)
}

proof fn lemma_working_start(
    body: &Body,
    graph: &SubsetGraph,
    definite: Seq<Option<Definite>>,
    start: Seq<Vec<Place>>,
    members: Seq<Region>,
    sets: Seq<Vec<Place>>,
)
    requires
        sets.len() == graph.edges@.len(),
        all_distinct(sets),
        forall|r: int, p: PlaceView| #[trigger]
            lent(sets, r, p) ==> derivable(body, graph.edges@, definite, start, r, p),
    ensures
        working(body, graph, definite, start, sets, members, sets),
{
    assert forall|k: int, p: PlaceView|
        0 <= k < members.len() && #[trigger] lent(sets, members[k] as int, p) implies gathered(
        sets,
        members,
    ).contains(p) by {
        lemma_gathered(sets, members, k, p);
    }
    assert forall|r: int, x: PlaceView| #[trigger] lent(sets, r, x) implies room(
        definite,
        sets,
        members,
        r,
    ).contains(x) by {
        lemma_room_old(definite, sets, members, r, x);
    }
}

proof fn lemma_total_bound(
    body: &Body,
    graph: &SubsetGraph,
    definite: Seq<Option<Definite>>,
    start: Seq<Vec<Place>>,
    sets0: Seq<Vec<Place>>,
    members: Seq<Region>,
    sets: Seq<Vec<Place>>,
)
    requires
        working(body, graph, definite, start, sets0, members, sets),
    ensures
        total(sets) <= sum(caps(definite, sets0, members)),
{
    let l = lens(sets);
    let c = caps(definite, sets0, members);
    assert forall|r: int| 0 <= r < l.len() implies l[r] <= c[r] by {
        let s = loans(sets, r);
        let w = room(definite, sets0, members, r);
        assert(views(sets[r]@).no_duplicates());
        assert forall|i: int| 0 <= i < s.len() implies w.contains(#[trigger] s[i]) by {
            assert(lent(sets, r, s[i]));
        }
        lemma_distinct_within(s, w);
    }
    lemma_sum_le(l, c);
}

proof fn lemma_same_loans_closed(
    body: &Body,
    edges: Seq<Vec<bool>>,
    definite: Seq<Option<Definite>>,
    x: Seq<Vec<Place>>,
    y: Seq<Vec<Place>>,
    a: int,
    b: int,
)
    requires
        same_loans(x, y),
    ensures
        edge_closed(body, edges, definite, x, a, b) == edge_closed(body, edges, definite, y, a, b),
{
    assert(loans(x, a) == loans(y, a));
    assert(loans(x, b) == loans(y, b));
    if edge_closed(body, edges, definite, x, a, b) {
        assert forall|p: PlaceView| #[trigger] lent(y, a, p) implies lent(
            y,
            b,
            moved(body, edges, definite, a, b, p),
        ) by {
            assert(lent(x, a, p));
        }
    }
    if edge_closed(body, edges, definite, y, a, b) {
        assert forall|p: PlaceView| #[trigger] lent(x, a, p) implies lent(
            x,
            b,
            moved(body, edges, definite, a, b, p),
        ) by {
            assert(lent(y, a, p));
        }
    }
}

/// What one insertion along the edge from `members[k]` to `b` leaves true.
proof fn lemma_insert_working(
    body: &Body,
    graph: &SubsetGraph,
    definite: Seq<Option<Definite>>,
    start: Seq<Vec<Place>>,
    sets0: Seq<Vec<Place>>,
    members: Seq<Region>,
    prev: Seq<Vec<Place>>,
    next: Seq<Vec<Place>>,
    k: int,
    b: int,
    p: PlaceView,
    q: PlaceView,
    added: bool,
)
    requires
        graph.wf(),
        definite.len() == graph.edges@.len(),
        working(body, graph, definite, start, sets0, members, prev),
        clique(graph.reach@, members),
        0 <= k < members.len(),
        entry(graph.edges@, members[k] as int, b),
        lent(prev, members[k] as int, p),
        q == moved(body, graph.edges@, definite, members[k] as int, b, p),
        next.len() == prev.len(),
        forall|r: int| 0 <= r < prev.len() && r != b ==> next[r] == prev[r],
        added == !lent(prev, b, q),
        loans(next, b) == if added {
            loans(prev, b).push(q)
        } else {
            loans(prev, b)
        },
        all_distinct(next),
    ensures
        working(body, graph, definite, start, sets0, members, next),
        total(next) == total(prev) + if added {
            1nat
        } else {
            0nat
        },
        forall|r: int, x: PlaceView| #[trigger]
            lent(next, r, x) <==> (lent(prev, r, x) || (r == b && x == q)),
        !added ==> same_loans(next, prev),
{
    let a = members[k] as int;
    let edges = graph.edges@;
    let n = edges.len() as int;
    assert(0 <= b < n);
    assert forall|r: int| r != b implies #[trigger] loans(next, r) == loans(prev, r) by {
        if 0 <= r < prev.len() {
            assert(next[r] == prev[r]);
        }
    }
    assert forall|r: int, x: PlaceView| #[trigger]
        lent(next, r, x) <==> (lent(prev, r, x) || (r == b && x == q)) by {
        if r == b {
            crate::constraints::lemma_push_has(loans(prev, b), q, x);
        } else {
            assert(loans(next, r) == loans(prev, r));
        }
    }
    // the count
    assert(lens(next)[b] == loans(next, b).len());
    assert(lens(prev)[b] == loans(prev, b).len());
    assert(lens(next) =~= lens(prev).update(b, lens(next)[b])) by {
        assert forall|r: int| 0 <= r < n && r != b implies lens(next)[r] == lens(prev)[r] by {
            assert(next[r] == prev[r]);
        }
    }
    lemma_sum_update(lens(prev), b, lens(next)[b]);
    // what is derivable
    assert(derivable(body, edges, definite, start, a, p));
    lemma_derivable_step(body, edges, definite, start, a, b, p);
    // the pool and the room
    assert(gathered(sets0, members).contains(p));
    lemma_room_pool(definite, sets0, members, b, p);
    assert(q == p || q == p.extend(tail(definite, b)));
    assert forall|j: int, x: PlaceView|
        0 <= j < members.len() && #[trigger] lent(next, members[j] as int, x) implies gathered(
        sets0,
        members,
    ).contains(x) by {
        if !lent(prev, members[j] as int, x) {
            assert(members[j] == b && x == q);
            assert(entry(graph.reach@, members[j] as int, members[k] as int));
            assert(reaches(edges, b, a));
            lemma_reaches_edge(edges, a, b);
            assert(same_component(edges, a, b));
        }
    }
    assert forall|r: int| !targeted(edges, members, r) implies #[trigger] loans(next, r) == loans(
        sets0,
        r,
    ) by {
        assert(r != b);
        assert(loans(prev, r) == loans(sets0, r));
    }
    assert forall|r: int, x: PlaceView| #[trigger] lent(sets0, r, x) implies lent(next, r, x) by {
        assert(lent(prev, r, x));
    }
    if !added {
        assert forall|r: int| #[trigger] loans(next, r) == loans(prev, r) by {}
    }
}

/// What the loan `place` becomes when it flows into a region with this record.
fn move_place(body: &Body, cyclic: bool, record: &Option<Definite>, place: &Place) -> (r: Place)
    ensures
        r@ == carried(body, cyclic, definite_view(*record), place@),
{
    match record {
        Some(d) => {
            if cyclic {
                place.clone()
            } else {
                match body.place_ty(place) {
                    Some(ty) => {
                        if ty == d.ty {
                            place.project_deeper(&d.projection)
                        } else {
                            place.clone()
                        }
                    },
                    None => place.clone(),
                }
            }
        },
        None => place.clone(),
    }
}

/// Brings every loan of `a` into `b`, and says whether one was new there.
fn push_along(
    body: &Body,
    graph: &SubsetGraph,
    definite: &Vec<Option<Definite>>,
    sets: &mut Vec<Vec<Place>>,
    a: usize,
    b: usize,
    Ghost(start): Ghost<Seq<Vec<Place>>>,
    Ghost(sets0): Ghost<Seq<Vec<Place>>>,
    Ghost(members): Ghost<Seq<Region>>,
    Ghost(k): Ghost<int>,
) -> (changed: bool)
    requires
        graph.wf(),
        definite@.len() == graph.edges@.len(),
        working(body, graph, definite@, start, sets0, members, old(sets)@),
        clique(graph.reach@, members),
        0 <= k < members.len(),
        members[k] == a,
        entry(graph.edges@, a as int, b as int),
    ensures
        working(body, graph, definite@, start, sets0, members, final(sets)@),
        total(final(sets)@) >= total(old(sets)@),
        changed ==> total(final(sets)@) > total(old(sets)@),
        !changed ==> same_loans(final(sets)@, old(sets)@),
        changed == !edge_closed(body, graph.edges@, definite@, old(sets)@, a as int, b as int),
{
    let ghost before = sets@;
    let ghost from = loans(before, a as int);
    let ghost edges = graph.edges@;
    let cyclic = graph.reach[b][a];
    proof {
        lemma_reaches_edge(edges, a as int, b as int);
        assert(cyclic == entry(graph.reach@, b as int, a as int));
        assert(entry(graph.reach@, b as int, a as int) <==> reaches(edges, b as int, a as int));
        assert(cyclic == same_component(edges, a as int, b as int));
    }
    let len = sets[a].len();
    let mut changed = false;
    let mut i: usize = 0;
    while i < len
        invariant
            i <= len,
            graph.wf(),
            edges == graph.edges@,
            definite@.len() == edges.len(),
            a < edges.len(),
            b < edges.len(),
            clique(graph.reach@, members),
            0 <= k < members.len(),
            members[k] == a,
            entry(edges, a as int, b as int),
            cyclic == same_component(edges, a as int, b as int),
            working(body, graph, definite@, start, sets0, members, sets@),
            from == loans(before, a as int),
            len == from.len(),
            len <= sets@[a as int]@.len(),
            forall|j: int| 0 <= j < len ==> #[trigger] sets@[a as int]@[j]@ == from[j],
            total(sets@) >= total(before),
            changed ==> total(sets@) > total(before),
            !changed ==> same_loans(sets@, before),
            !changed ==> forall|j: int|
                0 <= j < i ==> lent(
                    before,
                    b as int,
                    moved(body, edges, definite@, a as int, b as int, #[trigger] from[j]),
                ),
            changed ==> !edge_closed(body, edges, definite@, before, a as int, b as int),
        decreases len - i,
    {
        let ghost prev = sets@;
        let place = sets[a][i].clone();
        let target = move_place(body, cyclic, &definite[b], &place);
        proof {
            assert(place@ == from[i as int]);
            assert(views(prev[a as int]@)[i as int] == place@);
            assert(lent(prev, a as int, place@));
            assert(target@ == moved(body, edges, definite@, a as int, b as int, place@));
        }
        let added = insert_loan(sets, b, target);
        proof {
            lemma_insert_working(
                body,
                graph,
                definite@,
                start,
                sets0,
                members,
                prev,
                sets@,
                k,
                b as int,
                place@,
                target@,
                added,
            );
            assert forall|j: int| 0 <= j < len implies #[trigger] sets@[a as int]@[j]@
                == from[j] by {
                assert(prev[a as int]@[j]@ == from[j]);
                assert(views(prev[a as int]@)[j] == from[j]);
                if a == b {
                    assert(views(sets@[a as int]@)[j] == from[j]);
                } else {
                    assert(sets@[a as int] == prev[a as int]);
                }
            }
            assert(views(sets@[a as int]@).len() >= views(prev[a as int]@).len());
            if added && !changed {
                assert(loans(prev, b as int) == loans(before, b as int));
                assert(!lent(before, b as int, target@));
                assert(lent(before, a as int, place@));
            }
            if !added && !changed {
                assert forall|r: int| #[trigger] loans(sets@, r) == loans(before, r) by {
                    assert(loans(sets@, r) == loans(prev, r));
                    assert(loans(prev, r) == loans(before, r));
                }
                assert(lent(prev, b as int, target@));
                assert(loans(prev, b as int) == loans(before, b as int));
            }
        }
        if added {
            changed = true;
        }
        i += 1;
    }
    proof {
        if !changed {
            assert forall|p: PlaceView| #[trigger] lent(before, a as int, p) implies lent(
                before,
                b as int,
                moved(body, edges, definite@, a as int, b as int, p),
            ) by {
                let j = choose|j: int| 0 <= j < from.len() && from[j] == p;
                assert(lent(
                    before,
                    b as int,
                    moved(body, edges, definite@, a as int, b as int, from[j]),
                ));
            }
        }
    }
    changed
}

/// Brings the loans of each of `members` along each of its edges, once, and
/// says whether a loan was new anywhere.
fn round(
    body: &Body,
    graph: &SubsetGraph,
    definite: &Vec<Option<Definite>>,
    sets: &mut Vec<Vec<Place>>,
    members: &Vec<Region>,
    Ghost(start): Ghost<Seq<Vec<Place>>>,
    Ghost(sets0): Ghost<Seq<Vec<Place>>>,
) -> (changed: bool)
    requires
        graph.wf(),
        definite@.len() == graph.edges@.len(),
        working(body, graph, definite@, start, sets0, members@, old(sets)@),
        clique(graph.reach@, members@),
        forall|k: int| 0 <= k < members@.len() ==> #[trigger] members@[k] < graph.edges@.len(),
    ensures
        working(body, graph, definite@, start, sets0, members@, final(sets)@),
        total(final(sets)@) >= total(old(sets)@),
        changed ==> total(final(sets)@) > total(old(sets)@),
        !changed ==> same_loans(final(sets)@, old(sets)@),
        changed == !members_closed(body, graph.edges@, definite@, old(sets)@, members@),
{
    let ghost before = sets@;
    let ghost edges = graph.edges@;
    let n = graph.edges.len();
    let mut changed = false;
    let mut k: usize = 0;
    while k < members.len()
        invariant
            k <= members.len(),
            graph.wf(),
            edges == graph.edges@,
            n == edges.len(),
            definite@.len() == n,
            clique(graph.reach@, members@),
            forall|j: int| 0 <= j < members@.len() ==> #[trigger] members@[j] < n,
            working(body, graph, definite@, start, sets0, members@, sets@),
            total(sets@) >= total(before),
            changed ==> total(sets@) > total(before),
            !changed ==> same_loans(sets@, before),
            !changed ==> forall|j: int, b: int|
                0 <= j < k && #[trigger] entry(edges, members@[j] as int, b) ==> edge_closed(
                    body,
                    edges,
                    definite@,
                    before,
                    members@[j] as int,
                    b,
                ),
            changed ==> !members_closed(body, edges, definite@, before, members@),
        decreases members.len() - k,
    {
        let a = members[k];
        let mut b: usize = 0;
        while b < n
            invariant
                b <= n,
                k < members.len(),
                a == members@[k as int],
                a < n,
                graph.wf(),
                edges == graph.edges@,
                n == edges.len(),
                definite@.len() == n,
                clique(graph.reach@, members@),
                forall|j: int| 0 <= j < members@.len() ==> #[trigger] members@[j] < n,
                working(body, graph, definite@, start, sets0, members@, sets@),
                total(sets@) >= total(before),
                changed ==> total(sets@) > total(before),
                !changed ==> same_loans(sets@, before),
                !changed ==> forall|j: int, c: int|
                    0 <= j < k && #[trigger] entry(edges, members@[j] as int, c) ==> edge_closed(
                        body,
                        edges,
                        definite@,
                        before,
                        members@[j] as int,
                        c,
                    ),
                !changed ==> forall|c: int|
                    0 <= c < b && #[trigger] entry(edges, a as int, c) ==> edge_closed(
                        body,
                        edges,
                        definite@,
                        before,
                        a as int,
                        c,
                    ),
                changed ==> !members_closed(body, edges, definite@, before, members@),
            decreases n - b,
        {
            if graph.edges[a][b] {
                let ghost prev = sets@;
                let pushed = push_along(
                    body,
                    graph,
                    definite,
                    sets,
                    a,
                    b,
                    Ghost(start),
                    Ghost(sets0),
                    Ghost(members@),
                    Ghost(k as int),
                );
                proof {
                    if !changed {
                        lemma_same_loans_closed(
                            body,
                            edges,
                            definite@,
                            prev,
                            before,
                            a as int,
                            b as int,
                        );
                        if !pushed {
                            assert forall|r: int| #[trigger] loans(sets@, r) == loans(before, r) by {
                                assert(loans(sets@, r) == loans(prev, r));
                                assert(loans(prev, r) == loans(before, r));
                            }
                        } else {
                            assert(entry(edges, members@[k as int] as int, b as int));
                        }
                    }
                }
                if pushed {
                    changed = true;
                }
            }
            b += 1;
        }
        k += 1;
    }
    proof {
        if !changed {
            assert(members_closed(body, edges, definite@, before, members@));
        }
    }
    changed
}

/// Works on one component until no set changes.
fn settle_component(
    body: &Body,
    graph: &SubsetGraph,
    definite: &Vec<Option<Definite>>,
    sets: &mut Vec<Vec<Place>>,
    members: &Vec<Region>,
    Ghost(start): Ghost<Seq<Vec<Place>>>,
)
    requires
        graph.wf(),
        definite@.len() == graph.edges@.len(),
        old(sets)@.len() == graph.edges@.len(),
        all_distinct(old(sets)@),
        forall|r: int, p: PlaceView| #[trigger]
            lent(old(sets)@, r, p) ==> derivable(body, graph.edges@, definite@, start, r, p),
        clique(graph.reach@, members@),
        forall|k: int| 0 <= k < members@.len() ==> #[trigger] members@[k] < graph.edges@.len(),
    ensures
        working(body, graph, definite@, start, old(sets)@, members@, final(sets)@),
        members_closed(body, graph.edges@, definite@, final(sets)@, members@),
        members_closed(body, graph.edges@, definite@, old(sets)@, members@) ==> same_loans(
            final(sets)@,
            old(sets)@,
        ),
{
    let ghost sets0 = sets@;
    let ghost edges = graph.edges@;
    let ghost cap = sum(caps(definite@, sets0, members@));
    proof {
        lemma_working_start(body, graph, definite@, start, members@, sets0);
        assert forall|r: int| #[trigger] loans(sets@, r) == loans(sets0, r) by {}
    }
    let mut changed = true;
    while changed
        invariant
            graph.wf(),
            edges == graph.edges@,
            definite@.len() == edges.len(),
            clique(graph.reach@, members@),
            forall|k: int| 0 <= k < members@.len() ==> #[trigger] members@[k] < edges.len(),
            cap == sum(caps(definite@, sets0, members@)),
            working(body, graph, definite@, start, sets0, members@, sets@),
            !changed ==> members_closed(body, edges, definite@, sets@, members@),
            members_closed(body, edges, definite@, sets0, members@) ==> same_loans(sets@, sets0),
        decreases 2 * (cap - total(sets@)) + (if changed {
            1int
        } else {
            0int
        }),
    {
        let ghost prev = sets@;
        proof {
            lemma_total_bound(body, graph, definite@, start, sets0, members@, sets@);
        }
        changed = round(body, graph, definite, sets, members, Ghost(start), Ghost(sets0));
        proof {
            lemma_total_bound(body, graph, definite@, start, sets0, members@, sets@);
            if !changed {
                assert forall|k: int, b: int|
                    0 <= k < members@.len() && #[trigger] entry(
                        edges,
                        members@[k] as int,
                        b,
                    ) implies edge_closed(body, edges, definite@, sets@, members@[k] as int, b) by {
                    lemma_same_loans_closed(
                        body,
                        edges,
                        definite@,
                        sets@,
                        prev,
                        members@[k] as int,
                        b,
                    );
                }
            }
            if members_closed(body, edges, definite@, sets0, members@) {
                assert forall|k: int, b: int|
                    0 <= k < members@.len() && #[trigger] entry(
                        edges,
                        members@[k] as int,
                        b,
                    ) implies edge_closed(body, edges, definite@, prev, members@[k] as int, b) by {
                    lemma_same_loans_closed(
                        body,
                        edges,
                        definite@,
                        prev,
                        sets0,
                        members@[k] as int,
                        b,
                    );
                }
                assert(!changed);
                assert forall|r: int| #[trigger] loans(sets@, r) == loans(sets0, r) by {
                    assert(loans(sets@, r) == loans(prev, r));
                    assert(loans(prev, r) == loans(sets0, r));
                }
            }
        }
    }
}

/// Whether every set holds only what follows from `start`.
pub open spec fn sound(
    body: &Body,
    edges: Seq<Vec<bool>>,
    definite: Seq<Option<Definite>>,
    start: Seq<Vec<Place>>,
    sets: Seq<Vec<Place>>,
) -> bool {
    forall|r: int, p: PlaceView| #[trigger]
        lent(sets, r, p) ==> derivable(body, edges, definite, start, r, p)
}

/// Whether every set holds what it held in `start`.
pub open spec fn keeps(start: Seq<Vec<Place>>, sets: Seq<Vec<Place>>) -> bool {
    forall|r: int, p: PlaceView| #[trigger] lent(start, r, p) ==> lent(sets, r, p)
}

/// Whether the edges that leave the first `i` components are settled.
pub open spec fn done(
    body: &Body,
    graph: &SubsetGraph,
    definite: Seq<Option<Definite>>,
    sets: Seq<Vec<Place>>,
    i: int,
) -> bool {
    forall|j: int, a: int, b: int|
        #![trigger member(graph.order@, j, a), entry(graph.edges@, a, b)]
        0 <= j < i && member(graph.order@, j, a) && entry(graph.edges@, a, b) ==> edge_closed(
            body,
            graph.edges@,
            definite,
            sets,
            a,
            b,
        )
}

proof fn lemma_members(graph: &SubsetGraph, i: int)
    requires
        graph.wf(),
        0 <= i < graph.order@.len(),
    ensures
        clique(graph.reach@, graph.order@[i]@),
        forall|k: int|
            0 <= k < graph.order@[i]@.len() ==> #[trigger] graph.order@[i]@[k]
                < graph.edges@.len(),
{
    let members = graph.order@[i]@;
    assert forall|k: int| 0 <= k < members.len() implies #[trigger] members[k]
        < graph.edges@.len() by {
        assert(holds(members, members[k] as int));
        assert(member(graph.order@, i, members[k] as int));
    }
    assert forall|x: int, y: int| 0 <= x < members.len() && 0 <= y < members.len() implies entry(
        graph.reach@,
        #[trigger] members[x] as int,
        #[trigger] members[y] as int,
    ) by {
        assert(holds(members, members[x] as int));
        assert(holds(members, members[y] as int));
        assert(member(graph.order@, i, members[x] as int));
        assert(member(graph.order@, i, members[y] as int));
    }
}

/// No edge leads from component `i` into an earlier component.
proof fn lemma_earlier_untouched(graph: &SubsetGraph, i: int, j: int, a: int)
    requires
        graph.wf(),
        0 <= j < i < graph.order@.len(),
        member(graph.order@, j, a),
    ensures
        !targeted(graph.edges@, graph.order@[i]@, a),
{
    let edges = graph.edges@;
    let members = graph.order@[i]@;
    if targeted(edges, members, a) {
        let k = choose|k: int| 0 <= k < members.len() && entry(edges, members[k] as int, a);
        let m = members[k] as int;
        assert(holds(members, m));
        assert(member(graph.order@, i, m));
        lemma_reaches_edge(edges, m, a);
        assert(entry(graph.reach@, m, a));
        assert(false);
    }
}

proof fn lemma_after_component(
    body: &Body,
    graph: &SubsetGraph,
    definite: Seq<Option<Definite>>,
    start: Seq<Vec<Place>>,
    prev: Seq<Vec<Place>>,
    next: Seq<Vec<Place>>,
    i: int,
)
    requires
        graph.wf(),
        0 <= i < graph.order@.len(),
        done(body, graph, definite, prev, i),
        working(body, graph, definite, start, prev, graph.order@[i]@, next),
        members_closed(body, graph.edges@, definite, next, graph.order@[i]@),
    ensures
        done(body, graph, definite, next, i + 1),
{
    let edges = graph.edges@;
    let members = graph.order@[i]@;
    assert forall|j: int, a: int, b: int|
        #![trigger member(graph.order@, j, a), entry(edges, a, b)]
        0 <= j < i + 1 && member(graph.order@, j, a) && entry(edges, a, b) implies edge_closed(
        body,
        edges,
        definite,
        next,
        a,
        b,
    ) by {
        if j < i {
            lemma_earlier_untouched(graph, i, j, a);
            assert(loans(next, a) == loans(prev, a));
            assert(edge_closed(body, edges, definite, prev, a, b));
            assert forall|p: PlaceView| #[trigger] lent(next, a, p) implies lent(
                next,
                b,
                moved(body, edges, definite, a, b, p),
            ) by {
                assert(lent(prev, a, p));
                assert(lent(prev, b, moved(body, edges, definite, a, b, p)));
            }
        } else {
            assert(holds(members, a));
            let k = choose|k: int| 0 <= k < members.len() && members[k] == a;
            assert(entry(edges, members[k] as int, b));
        }
    }
}

proof fn lemma_stable_component(
    body: &Body,
    edges: Seq<Vec<bool>>,
    definite: Seq<Option<Definite>>,
    start: Seq<Vec<Place>>,
    prev: Seq<Vec<Place>>,
    members: Seq<Region>,
)
    requires
        closed(body, edges, definite, start),
        same_loans(prev, start),
    ensures
        members_closed(body, edges, definite, prev, members),
{
    assert forall|k: int, b: int|
        0 <= k < members.len() && #[trigger] entry(edges, members[k] as int, b) implies edge_closed(
        body,
        edges,
        definite,
        prev,
        members[k] as int,
        b,
    ) by {
        lemma_same_loans_closed(body, edges, definite, prev, start, members[k] as int, b);
    }
}

proof fn lemma_same_loans_trans(x: Seq<Vec<Place>>, y: Seq<Vec<Place>>, z: Seq<Vec<Place>>)
    requires
        same_loans(x, y),
        same_loans(y, z),
    ensures
        same_loans(x, z),
{
    assert forall|r: int| #[trigger] loans(x, r) == loans(z, r) by {
        assert(loans(x, r) == loans(y, r));
        assert(loans(y, r) == loans(z, r));
    }
}

proof fn lemma_all_done(
    body: &Body,
    graph: &SubsetGraph,
    definite: Seq<Option<Definite>>,
    sets: Seq<Vec<Place>>,
)
    requires
        graph.wf(),
        done(body, graph, definite, sets, graph.order@.len() as int),
    ensures
        closed(body, graph.edges@, definite, sets),
{
    let edges = graph.edges@;
    assert forall|a: int, b: int| #[trigger] entry(edges, a, b) implies edge_closed(
        body,
        edges,
        definite,
        sets,
        a,
        b,
    ) by {
        assert(covered(graph.order@, a));
        let j = choose|j: int| member(graph.order@, j, a);
        assert(member(graph.order@, j, a) && entry(edges, a, b));
    }
}

/// Stable sets that hold the loans of `start`, and only what follows from
/// them, hold exactly what follows from them.
pub proof fn lemma_fixpoint_exact(
    body: &Body,
    edges: Seq<Vec<bool>>,
    definite: Seq<Option<Definite>>,
    start: Seq<Vec<Place>>,
    sets: Seq<Vec<Place>>,
)
    requires
        closed(body, edges, definite, sets),
        keeps(start, sets),
        sound(body, edges, definite, start, sets),
    ensures
        forall|r: int, p: PlaceView| #[trigger]
            lent(sets, r, p) <==> derivable(body, edges, definite, start, r, p),
{
    assert forall|r: int, p: PlaceView|
        derivable(body, edges, definite, start, r, p) implies #[trigger] lent(sets, r, p) by {
        let chain = choose|chain: Seq<(int, PlaceView)>|
            is_derivation(body, edges, definite, start, chain) && chain.last() == (r, p);
        lemma_closed_complete(body, edges, definite, start, sets, chain);
    }
}

/// The fixpoint of the loans under the subset relation. The components of
/// the graph are taken in their order, and each is worked on until none of
/// its sets changes: along an edge from `a` to `b` every loan of `a` enters
/// `b`, with the path of the record of `b` where the edge lies on no cycle
/// and the types agree.
///
/// Afterwards region `r` holds exactly the places that follow from the loans
/// it started with, and sets that were stable already are left as they were.
pub fn propagate(
    body: &Body,
    graph: &SubsetGraph,
    definite: &Vec<Option<Definite>>,
    sets: &mut Vec<Vec<Place>>,
)
    requires
        graph.wf(),
        definite@.len() == graph.edges@.len(),
        old(sets)@.len() == graph.edges@.len(),
        all_distinct(old(sets)@),
    ensures
        final(sets)@.len() == old(sets)@.len(),
        all_distinct(final(sets)@),
        forall|r: int, p: PlaceView| #[trigger]
            lent(final(sets)@, r, p) <==> derivable(
                body,
                graph.edges@,
                definite@,
                old(sets)@,
                r,
                p,
            ),
        closed(body, graph.edges@, definite@, final(sets)@),
        closed(body, graph.edges@, definite@, old(sets)@) ==> same_loans(
            final(sets)@,
            old(sets)@,
        ),
{
    let ghost start = sets@;
    let ghost edges = graph.edges@;
    proof {
        assert forall|r: int, p: PlaceView| #[trigger] lent(start, r, p) implies derivable(
            body,
            edges,
            definite@,
            start,
            r,
            p,
        ) by {
            lemma_derivable_seed(body, edges, definite@, start, r, p);
        }
        assert forall|r: int| #[trigger] loans(sets@, r) == loans(start, r) by {}
    }
    let mut i: usize = 0;
    while i < graph.order.len()
        invariant
            i <= graph.order.len(),
            graph.wf(),
            edges == graph.edges@,
            definite@.len() == edges.len(),
            sets@.len() == edges.len(),
            start.len() == edges.len(),
            all_distinct(sets@),
            sound(body, edges, definite@, start, sets@),
            keeps(start, sets@),
            done(body, graph, definite@, sets@, i as int),
            closed(body, edges, definite@, start) ==> same_loans(sets@, start),
        decreases graph.order.len() - i,
    {
        let ghost prev = sets@;
        let members = &graph.order[i];
        proof {
            lemma_members(graph, i as int);
        }
        settle_component(body, graph, definite, sets, members, Ghost(start));
        proof {
            lemma_after_component(body, graph, definite@, start, prev, sets@, i as int);
            if closed(body, edges, definite@, start) {
                lemma_stable_component(body, edges, definite@, start, prev, members@);
                lemma_same_loans_trans(sets@, prev, start);
            }
            assert forall|r: int, p: PlaceView| #[trigger] lent(start, r, p) implies lent(
                sets@,
                r,
                p,
            ) by {
                assert(lent(prev, r, p));
            }
        }
        i += 1;
    }
    proof {
        lemma_all_done(body, graph, definite@, sets@);
        lemma_fixpoint_exact(body, edges, definite@, start, sets@);
    }
}

} // verus!
