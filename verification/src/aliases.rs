//! The alias engine: built once for a body from the facts of the borrow
//! checker, and from then on an oracle for what a place may alias.

use vstd::prelude::*;
use crate::body::{Body, Location};
use crate::components::SubsetGraph;
use crate::constraints::{
    arg_pointers, build_edges, check_borrows, check_pairs, check_types, collect_arg_pointers,
    conservative_pair, generate_conservative_constraints, pairs_in_range, subset_edge,
    types_in_range,
};
use crate::extensions::{EvalMode, PointerMode};
use crate::graph::entry;
use crate::loans::{
    all_distinct, args_in_range, body_borrows, borrow_views, borrows_in_range, definite_record,
    definite_records, definite_view, gather_borrows, seed, seed_loans, Borrow, Definite,
};
use crate::order::{lemma_sorted_distinct, sort_places, sorted};
use crate::place::{Place, PlaceView, Region, views};
use crate::propagate::{
    closed, derivable, edge_closed, is_derivation, lent, link, loans, moved, propagate,
};

verus! {

/// What the borrow checker found out about the regions of a body.
#[derive(Debug)]
pub struct BorrowFacts {
    /// The number of regions; region 0 is the static region.
    pub num_regions: usize,
    /// Pairs of a region and a region that it is a subset of.
    pub subset_base: Vec<(Region, Region)>,
}

/// Why no engine could be built.
#[derive(Debug, PartialEq, Eq, Clone, Copy, Structural)]
pub enum BuildError {
    /// A fact, a type or a borrow names a region that the facts do not have.
    InconsistentFacts,
}

/// The program points of a body in their order, and its arguments.
#[derive(Debug)]
pub struct LocationDomain {
    pub locations: Vec<Location>,
    pub arg_places: Vec<Place>,
}

/// The alias engine of one body.
#[derive(Debug)]
pub struct Aliases {
    pub body: Body,
    pub facts: BorrowFacts,
    pub mode: EvalMode,
    pub graph: SubsetGraph,
    pub definite: Vec<Option<Definite>>,
    pub loans: Vec<Vec<Place>>,
    pub location_domain: LocationDomain,
}

/// Whether every region that the facts, the types and the borrows name is
/// one of the regions of the facts.
pub open spec fn consistent(body: &Body, facts: &BorrowFacts) -> bool {
    &&& pairs_in_range(facts.subset_base@, facts.num_regions as nat)
    &&& types_in_range(body, facts.num_regions as nat)
    &&& borrows_in_range(body_borrows(body.blocks@), facts.num_regions as nat)
}

/// Whether region `a` is a subset of region `b`: by a fact, because `a` is
/// the static region, or, in the conservative mode, because a pointer of
/// each that is reachable from an argument points to values of one type.
pub open spec fn subset_of(body: &Body, facts: &BorrowFacts, mode: EvalMode, a: int, b: int) -> bool {
    let n = facts.num_regions as nat;
    ||| subset_edge(n, facts.subset_base@, a, b)
    ||| (mode.pointer_mode == PointerMode::Conservative && 0 <= a < n && 0 <= b < n
        && conservative_pair(
        body,
        arg_pointers(body, body.local_decls.len() as nat),
        a as usize,
        b as usize,
    ))
}

/// Whether `x` comes before `y` in the body.
pub open spec fn earlier(x: Location, y: Location) -> bool {
    x.block < y.block || (x.block == y.block && x.statement_index < y.statement_index)
}

/// Whether `loc` is a program point of the body: a statement of a block, or
/// its terminator.
pub open spec fn is_location(body: &Body, loc: Location) -> bool {
    loc.block < body.blocks.len() && loc.statement_index
        <= body.blocks@[loc.block as int].statements.len()
}

impl LocationDomain {
    /// Whether this is the domain of `body`: every program point once, in
    /// rising order, and the place of every argument.
    pub open spec fn of(&self, body: &Body) -> bool {
        &&& forall|loc: Location| #[trigger] self.locations@.contains(loc) <==> is_location(body, loc)
        &&& forall|i: int, j: int|
            0 <= i < j < self.locations@.len() ==> earlier(self.locations@[i], self.locations@[j])
        &&& views(self.arg_places@) == Seq::new(
            body.arg_count as nat,
            |i: int| PlaceView::of_local((i + 1) as usize),
        )
    }

    /// The domain of `body`.
    pub fn new(body: &Body) -> (r: LocationDomain)
        ensures
            r.of(body),
    {
        let mut locations: Vec<Location> = Vec::new();
        let mut bi: usize = 0;
        while bi < body.blocks.len()
            invariant
                bi <= body.blocks.len(),
                forall|loc: Location|
                    #[trigger] locations@.contains(loc) <==> (is_location(body, loc) && loc.block < bi),
                forall|i: int, j: int|
                    0 <= i < j < locations@.len() ==> earlier(locations@[i], locations@[j]),
            decreases body.blocks.len() - bi,
        {
            let count = body.blocks[bi].statements.len();
            let mut si: usize = 0;
            while si < count
                invariant
                    si <= count,
                    bi < body.blocks.len(),
                    count == body.blocks@[bi as int].statements.len(),
                    forall|loc: Location|
                        #[trigger] locations@.contains(loc) <==> (is_location(body, loc) && (loc.block < bi
                            || (loc.block == bi && loc.statement_index < si))),
                    forall|i: int, j: int|
                        0 <= i < j < locations@.len() ==> earlier(locations@[i], locations@[j]),
                decreases count - si,
            {
                let ghost before = locations@;
                let here = Location { block: bi, statement_index: si };
                locations.push(here);
                proof {
                    assert forall|loc: Location|
                        #[trigger] locations@.contains(loc) <==> (is_location(body, loc) && (loc.block < bi
                            || (loc.block == bi && loc.statement_index < si + 1))) by {
                        crate::constraints::lemma_push_has(before, here, loc);
                    }
                    assert forall|i: int, j: int| 0 <= i < j < locations@.len() implies earlier(
                        locations@[i],
                        locations@[j],
                    ) by {
                        if j == before.len() {
                            assert(before.contains(before[i]));
                        }
                    }
                }
                si += 1;
            }
            let ghost before = locations@;
            let last = Location { block: bi, statement_index: count };
            locations.push(last);
            proof {
                assert forall|loc: Location|
                    #[trigger] locations@.contains(loc) <==> (is_location(body, loc) && loc.block < bi + 1) by {
                    crate::constraints::lemma_push_has(before, last, loc);
                }
                assert forall|i: int, j: int| 0 <= i < j < locations@.len() implies earlier(
                    locations@[i],
                    locations@[j],
                ) by {
                    if j == before.len() {
                        assert(before.contains(before[i]));
                    }
                }
            }
            bi += 1;
        }
        let mut arg_places: Vec<Place> = Vec::new();
        let mut i: usize = 0;
        while i < body.arg_count
            invariant
                i <= body.arg_count,
                arg_places@.len() == i,
                forall|k: int|
                    0 <= k < i ==> (#[trigger] arg_places@[k])@ == PlaceView::of_local(
                        (k + 1) as usize,
                    ),
            decreases body.arg_count - i,
        {
            arg_places.push(Place::from_local(i + 1));
            i += 1;
        }
        assert(views(arg_places@) =~= Seq::new(
            body.arg_count as nat,
            |i: int| PlaceView::of_local((i + 1) as usize),
        ));
        LocationDomain { locations, arg_places }
    }
}

impl Aliases {
    /// The number of regions of the body.
    pub open spec fn num_regions(&self) -> nat {
        self.facts.num_regions as nat
    }

    /// Whether region `a` is a subset of region `b`.
    pub open spec fn subset(&self, a: int, b: int) -> bool {
        subset_of(&self.body, &self.facts, self.mode, a, b)
    }

    /// The places that a pointer with region `r` may point to.
    pub open spec fn contains(&self, r: int) -> Seq<PlaceView> {
        loans(self.loans@, r)
    }

    /// Whether `p` is a loan of region `r` before anything is propagated.
    pub open spec fn seeded(&self, r: int, p: PlaceView) -> bool {
        0 <= r < self.num_regions() && seed(&self.body, body_borrows(self.body.blocks@), r, p)
    }

    /// Whether `chain` leads from a loan of the body along subset edges.
    pub open spec fn flows(&self, chain: Seq<(int, PlaceView)>) -> bool {
        &&& chain.len() > 0
        &&& self.seeded(chain[0].0, chain[0].1)
        &&& forall|i: int|
            #![trigger chain[i]]
            0 <= i < chain.len() - 1 ==> link(
                &self.body,
                self.graph.edges@,
                self.definite@,
                chain[i],
                chain[i + 1],
            )
    }

    /// Whether the loans of the body and the subset relation put `p` into
    /// region `r`.
    pub open spec fn points_to(&self, r: int, p: PlaceView) -> bool {
        exists|chain: Seq<(int, PlaceView)>| self.flows(chain) && chain.last() == (r, p)
    }

    /// Whether the engine is that of its body, facts and mode: the graph
    /// holds the subset relation, each region has the record of its last
    /// borrow, and the loans of each region are exactly those that the
    /// subset relation puts there, in rising order.
    pub open spec fn wf(&self) -> bool {
        &&& consistent(&self.body, &self.facts)
        &&& self.graph.wf()
        &&& self.graph.edges@.len() == self.num_regions()
        &&& forall|a: int, b: int| #[trigger] entry(self.graph.edges@, a, b) <==> self.subset(a, b)
        &&& self.definite@.len() == self.num_regions()
        &&& forall|r: int|
            0 <= r < self.num_regions() ==> definite_view(#[trigger] self.definite@[r])
                == definite_record(&self.body, body_borrows(self.body.blocks@), r)
        &&& self.loans@.len() == self.num_regions()
        &&& all_distinct(self.loans@)
        &&& all_sorted(self.loans@)
        &&& forall|r: int, p: PlaceView| #[trigger]
            lent(self.loans@, r, p) <==> self.points_to(r, p)
        &&& closed(&self.body, self.graph.edges@, self.definite@, self.loans@)
        &&& self.location_domain.of(&self.body)
    }
}

/// Whether the loans of each region are in rising order.
pub open spec fn all_sorted(sets: Seq<Vec<Place>>) -> bool {
    forall|r: int| 0 <= r < sets.len() ==> sorted(views(#[trigger] sets[r]@))
}

/// Brings the loans of each region into rising order.
pub fn sort_loans(sets: &mut Vec<Vec<Place>>)
    ensures
        final(sets)@.len() == old(sets)@.len(),
        all_sorted(final(sets)@),
        all_distinct(final(sets)@),
        forall|r: int, p: PlaceView| #[trigger]
            lent(final(sets)@, r, p) <==> lent(old(sets)@, r, p),
{
    let ghost before = sets@;
    let mut r: usize = 0;
    while r < sets.len()
        invariant
            r <= sets.len(),
            sets@.len() == before.len(),
            forall|x: int| 0 <= x < r ==> sorted(views(#[trigger] sets@[x]@)),
            forall|x: int| r <= x < sets@.len() ==> #[trigger] sets@[x] == before[x],
            forall|x: int, p: PlaceView| #[trigger] lent(sets@, x, p) <==> lent(before, x, p),
        decreases sets.len() - r,
    {
        let ghost prev = sets@;
        let ordered = sort_places(&sets[r]);
        sets.set(r, ordered);
        proof {
            assert forall|x: int, p: PlaceView| #[trigger]
                lent(sets@, x, p) <==> lent(before, x, p) by {
                if x == r {
                    assert(prev[x] == before[x]);
                } else if 0 <= x < sets@.len() {
                    assert(sets@[x] == prev[x]);
                    assert(lent(prev, x, p) <==> lent(before, x, p));
                }
            }
            assert forall|x: int| 0 <= x < r + 1 implies sorted(views(#[trigger] sets@[x]@)) by {
                if x < r {
                    assert(sets@[x] == prev[x]);
                }
            }
        }
        r += 1;
    }
    proof {
        assert forall|x: int| 0 <= x < sets@.len() implies views(
            #[trigger] sets@[x]@,
        ).no_duplicates() by {
            lemma_sorted_distinct(views(sets@[x]@));
        }
    }
}

/// Sets with the same members are stable together.
proof fn lemma_closed_same_members(
    body: &Body,
    edges: Seq<Vec<bool>>,
    definite: Seq<Option<Definite>>,
    x: Seq<Vec<Place>>,
    y: Seq<Vec<Place>>,
)
    requires
        closed(body, edges, definite, x),
        forall|r: int, p: PlaceView| #[trigger] lent(y, r, p) <==> lent(x, r, p),
    ensures
        closed(body, edges, definite, y),
{
    assert forall|a: int, b: int| #[trigger] entry(edges, a, b) implies edge_closed(
        body,
        edges,
        definite,
        y,
        a,
        b,
    ) by {
        assert(edge_closed(body, edges, definite, x, a, b));
        assert forall|p: PlaceView| #[trigger] lent(y, a, p) implies lent(
            y,
            b,
            moved(body, edges, definite, a, b, p),
        ) by {
            assert(lent(x, a, p));
        }
    }
}

proof fn lemma_args_in_range(body: &Body, n: nat)
    requires
        types_in_range(body, n),
    ensures
        args_in_range(body, n),
{
    assert forall|l: int| 0 <= l < body.local_decls.len() && body.arg(l as usize) implies match body.ref_of(
         #[trigger] body.local_decls@[l],
    ) {
        Some((region, pointee)) => region < n,
        None => true,
    } by {
        let t = body.local_decls@[l];
        if t < body.types.len() {
            assert(body.kind_of(t) == body.types@[t as int]);
        }
    }
}

/// The facts followed by the edges of the conservative mode.
fn join_pairs(base: &Vec<(Region, Region)>, more: &Vec<(Region, Region)>) -> (r: Vec<(Region, Region)>)
    ensures
        r@ == base@ + more@,
{
    let mut r: Vec<(Region, Region)> = Vec::new();
    let mut i: usize = 0;
    while i < base.len()
        invariant
            i <= base.len(),
            r@ == base@.subrange(0, i as int),
        decreases base.len() - i,
    {
        r.push(base[i]);
        i += 1;
        assert(r@ =~= base@.subrange(0, i as int));
    }
    assert(base@.subrange(0, base.len() as int) =~= base@);
    let mut j: usize = 0;
    assert(r@ =~= base@ + more@.subrange(0, 0));
    while j < more.len()
        invariant
            j <= more.len(),
            r@ == base@ + more@.subrange(0, j as int),
        decreases more.len() - j,
    {
        r.push(more[j]);
        j += 1;
        assert(r@ =~= base@ + more@.subrange(0, j as int));
    }
    assert(more@.subrange(0, more.len() as int) =~= more@);
    r
}

proof fn lemma_joined_has<T>(x: Seq<T>, y: Seq<T>, v: T)
    ensures
        (x + y).contains(v) <==> (x.contains(v) || y.contains(v)),
{
    if x.contains(v) {
        let i = choose|i: int| 0 <= i < x.len() && x[i] == v;
        assert((x + y)[i] == v);
    }
    if y.contains(v) {
        let i = choose|i: int| 0 <= i < y.len() && y[i] == v;
        assert((x + y)[x.len() + i] == v);
    }
    if (x + y).contains(v) {
        let i = choose|i: int| 0 <= i < (x + y).len() && (x + y)[i] == v;
        if i < x.len() {
            assert(x[i] == v);
        } else {
            assert(y[i - x.len()] == v);
        }
    }
}

/// The matrix of the subset relation of a body under a mode.
pub fn subset_matrix(body: &Body, facts: &BorrowFacts, mode: EvalMode) -> (edges: Vec<Vec<bool>>)
    ensures
        crate::graph::square(edges@, facts.num_regions as nat),
        forall|a: int, b: int| #[trigger] entry(edges@, a, b) <==> subset_of(body, facts, mode, a, b),
{
    let n = facts.num_regions;
    match mode.pointer_mode {
        PointerMode::Precise => build_edges(n, &facts.subset_base),
        PointerMode::Conservative => {
            let pointers = collect_arg_pointers(body);
            let more = generate_conservative_constraints(body, &pointers);
            let pairs = join_pairs(&facts.subset_base, &more);
            let edges = build_edges(n, &pairs);
            proof {
                assert forall|a: int, b: int| #[trigger] entry(edges@, a, b) <==> subset_of(
                    body,
                    facts,
                    mode,
                    a,
                    b,
                ) by {
                    if 0 <= a < n && 0 <= b < n {
                        lemma_joined_has(facts.subset_base@, more@, (a as usize, b as usize));
                    }
                }
            }
            edges
        },
    }
}

proof fn lemma_flows_match(engine: &Aliases, start: Seq<Vec<Place>>, chain: Seq<(int, PlaceView)>)
    requires
        start.len() == engine.num_regions(),
        forall|r: int, p: PlaceView|
            0 <= r < start.len() ==> (#[trigger] views(start[r]@).contains(p) <==> seed(
                &engine.body,
                body_borrows(engine.body.blocks@),
                r,
                p,
            )),
    ensures
        engine.flows(chain) <==> is_derivation(
            &engine.body,
            engine.graph.edges@,
            engine.definite@,
            start,
            chain,
        ),
{
    if chain.len() > 0 {
        let r = chain[0].0;
        let p = chain[0].1;
        if 0 <= r < start.len() {
            assert(views(start[r]@).contains(p) <==> seed(
                &engine.body,
                body_borrows(engine.body.blocks@),
                r,
                p,
            ));
            assert(lent(start, r, p) == views(start[r]@).contains(p));
        } else {
            assert(!lent(start, r, p));
        }
    }
}

impl Aliases {
    /// The engine of a body. Along the way: the subset graph of the facts
    /// and the mode, the borrows of the body with the record of each region,
    /// the loans that each region starts with, and their fixpoint under the
    /// subset relation.
    ///
    /// An engine is built exactly where every region that is named is one of
    /// the regions of the facts.
    pub fn build(body: Body, facts: BorrowFacts, mode: EvalMode) -> (r: Result<Aliases, BuildError>)
        ensures
            r is Ok <==> consistent(&body, &facts),
            r matches Ok(engine) ==> engine.wf() && engine.body == body && engine.facts == facts
                && engine.mode == mode,
    {
        let n = facts.num_regions;
        if !check_pairs(&facts.subset_base, n) || !check_types(&body, n) {
            return Err(BuildError::InconsistentFacts);
        }
        let borrows = gather_borrows(&body);
        if !check_borrows(&borrows, n) {
            return Err(BuildError::InconsistentFacts);
        }
        let (graph, definite, sets) = Self::compute_loans(&body, &facts, mode, &borrows);
        let location_domain = LocationDomain::new(&body);
        let ghost start = choose|start: Seq<Vec<Place>>| Self::seeds_of(&body, n as nat, start) && (forall|r: int, p: PlaceView| #[trigger]
                    lent(sets@, r, p) <==> derivable(&body, graph.edges@, definite@, start, r, p));
        let engine = Aliases { body, facts, mode, graph, definite, loans: sets, location_domain };
        proof {
            assert forall|r: int, p: PlaceView| #[trigger]
                lent(engine.loans@, r, p) <==> engine.points_to(r, p) by {
                if lent(engine.loans@, r, p) {
                    let chain = choose|chain: Seq<(int, PlaceView)>|
                        is_derivation(
                            &engine.body,
                            engine.graph.edges@,
                            engine.definite@,
                            start,
                            chain,
                        ) && chain.last() == (r, p);
                    lemma_flows_match(&engine, start, chain);
                    assert(engine.flows(chain) && chain.last() == (r, p));
                }
                if engine.points_to(r, p) {
                    let chain = choose|chain: Seq<(int, PlaceView)>|
                        engine.flows(chain) && chain.last() == (r, p);
                    lemma_flows_match(&engine, start, chain);
                    assert(is_derivation(
                        &engine.body,
                        engine.graph.edges@,
                        engine.definite@,
                        start,
                        chain,
                    ) && chain.last() == (r, p));
                }
            }
        }
        Ok(engine)
    }

    /// Whether `start` holds, for each of `n` regions, the loans that the
    /// region starts with.
    pub open spec fn seeds_of(body: &Body, n: nat, start: Seq<Vec<Place>>) -> bool {
        &&& start.len() == n
        &&& forall|r: int, p: PlaceView|
            0 <= r < n ==> (#[trigger] views(start[r]@).contains(p) <==> seed(
                body,
                body_borrows(body.blocks@),
                r,
                p,
            ))
    }

    /// The points-to relation of a body: the subset graph, the record of
    /// each region, and for each region the places that a pointer with that
    /// region may point to, in rising order.
    pub fn compute_loans(body: &Body, facts: &BorrowFacts, mode: EvalMode, borrows: &Vec<Borrow>) -> (r: (
        SubsetGraph,
        Vec<Option<Definite>>,
        Vec<Vec<Place>>,
    ))
        requires
            consistent(body, facts),
            borrow_views(borrows@) == body_borrows(body.blocks@),
        ensures
            r.0.wf(),
            r.0.edges@.len() == facts.num_regions,
            forall|a: int, b: int| #[trigger]
                entry(r.0.edges@, a, b) <==> subset_of(body, facts, mode, a, b),
            r.1@.len() == facts.num_regions,
            forall|x: int|
                0 <= x < facts.num_regions ==> definite_view(#[trigger] r.1@[x]) == definite_record(
                    body,
                    body_borrows(body.blocks@),
                    x,
                ),
            r.2@.len() == facts.num_regions,
            all_distinct(r.2@),
            all_sorted(r.2@),
            closed(body, r.0.edges@, r.1@, r.2@),
            exists|start: Seq<Vec<Place>>|
                Self::seeds_of(body, facts.num_regions as nat, start) && (forall|x: int, p: PlaceView| #[trigger]
                        lent(r.2@, x, p) <==> derivable(body, r.0.edges@, r.1@, start, x, p)),
    {
        let n = facts.num_regions;
        let edges = subset_matrix(body, facts, mode);
        let graph = SubsetGraph::new(edges);
        let definite = definite_records(body, borrows, n);
        proof {
            lemma_args_in_range(body, n as nat);
        }
        let mut sets = seed_loans(body, borrows, n);
        let ghost start = sets@;
        propagate(body, &graph, &definite, &mut sets);
        let ghost stable = sets@;
        sort_loans(&mut sets);
        proof {
            assert(Self::seeds_of(body, n as nat, start));
            lemma_closed_same_members(body, graph.edges@, definite@, stable, sets@);
            assert forall|x: int, p: PlaceView| #[trigger]
                lent(sets@, x, p) <==> derivable(body, graph.edges@, definite@, start, x, p) by {
                assert(lent(sets@, x, p) <==> lent(stable, x, p));
            }
        }
        (graph, definite, sets)
    }
}

} // verus!
