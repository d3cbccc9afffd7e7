//! What holds of every engine: laws that relate the points-to relation to
//! the subset relation, one mode to the other, and one build to the next.

use vstd::prelude::*;
use crate::aliases::Aliases;
use crate::extensions::PointerMode;
use crate::graph::{entry, includes, is_path, reaches, same_component};
use crate::place::PlaceView;
use crate::body::Body;
use crate::loans::Definite;
use crate::order::{lemma_sorted_unique, sorted};
use crate::place::{views, Place};
use crate::propagate::{
    closed, derivable, edge_closed, is_derivation, lemma_closed_complete, lemma_derivable_seed, lent,
    link, moved, record_of,
};

verus! {

/// Whether each region of `path` is a subset of the next.
pub open spec fn subset_path(engine: &Aliases, path: Seq<int>) -> bool {
    &&& path.len() > 0
    &&& forall|i: int|
        #![trigger path[i]]
        0 <= i < path.len() - 1 ==> engine.subset(path[i], path[i + 1])
}

proof fn lemma_prefix_of_extension(p: PlaceView, q: PlaceView, suffix: Seq<crate::place::PlaceElem>)
    requires
        p.is_prefix_of(q),
    ensures
        p.is_prefix_of(q.extend(suffix)),
        p.is_prefix_of(p),
{
    let a = p.projection;
    let b = q.projection;
    assert(a =~= b.subrange(0, a.len() as int));
    assert((b + suffix).subrange(0, a.len() as int) =~= a);
    assert(a.subrange(0, a.len() as int) =~= a);
}

/// Containment is sound under the subset relation. Where region `a` is a
/// subset of region `b`, directly or through a chain of regions, no loan of
/// `a` is lost on the way: `b` holds the loan itself, or the loan with the
/// projections that it gained along the chain.
pub proof fn lemma_containment_follows_subset(engine: &Aliases, path: Seq<int>, p: PlaceView)
    requires
        engine.wf(),
        subset_path(engine, path),
        engine.contains(path[0]).contains(p),
    ensures
        exists|q: PlaceView| engine.contains(path.last()).contains(q) && p.is_prefix_of(q),
    decreases path.len(),
{
    if path.len() == 1 {
        lemma_prefix_of_extension(p, p, Seq::empty());
        assert(engine.contains(path.last()).contains(p) && p.is_prefix_of(p));
    } else {
        let init = path.drop_last();
        assert forall|i: int| #![trigger init[i]] 0 <= i < init.len() - 1 implies engine.subset(
            init[i],
            init[i + 1],
        ) by {
            assert(init[i] == path[i] && init[i + 1] == path[i + 1]);
        }
        assert(init[0] == path[0]);
        lemma_containment_follows_subset(engine, init, p);
        let q = choose|q: PlaceView| engine.contains(init.last()).contains(q) && p.is_prefix_of(q);
        let a = init.last();
        let b = path.last();
        let k = path.len() - 2;
        assert(a == path[k] && b == path[k + 1]);
        assert(engine.subset(path[k], path[k + 1]));
        assert(entry(engine.graph.edges@, a, b));
        assert(edge_closed(&engine.body, engine.graph.edges@, engine.definite@, engine.loans@, a, b));
        assert(lent(engine.loans@, a, q));
        let next = moved(&engine.body, engine.graph.edges@, engine.definite@, a, b, q);
        assert(lent(engine.loans@, b, next));
        match record_of(engine.definite@, b) {
            Some((ty, projection)) => {
                lemma_prefix_of_extension(p, q, projection);
            },
            None => {},
        }
        assert(engine.contains(b).contains(next) && p.is_prefix_of(next));
    }
}

/// The fixpoint is idempotent. From sets that are stable nothing follows
/// that they do not hold: a second run has nothing to add.
pub proof fn lemma_fixpoint_idempotent(
    body: &Body,
    edges: Seq<Vec<bool>>,
    definite: Seq<Option<Definite>>,
    sets: Seq<Vec<Place>>,
)
    requires
        closed(body, edges, definite, sets),
    ensures
        forall|r: int, p: PlaceView|
            derivable(body, edges, definite, sets, r, p) <==> #[trigger] lent(sets, r, p),
{
    assert forall|r: int, p: PlaceView|
        derivable(body, edges, definite, sets, r, p) <==> #[trigger] lent(sets, r, p) by {
        if lent(sets, r, p) {
            lemma_derivable_seed(body, edges, definite, sets, r, p);
        }
        if derivable(body, edges, definite, sets, r, p) {
            let chain = choose|chain: Seq<(int, PlaceView)>|
                is_derivation(body, edges, definite, sets, chain) && chain.last() == (r, p);
            lemma_closed_complete(body, edges, definite, sets, sets, chain);
        }
    }
}

/// A place is one of its own aliases.
pub proof fn lemma_alias_reflexive(engine: &Aliases, place: PlaceView)
    ensures
        engine.is_alias(place, place),
{
}

/// A place conflicts with itself.
pub proof fn lemma_conflict_reflexive(engine: &Aliases, place: PlaceView)
    ensures
        engine.is_conflict(place, place),
{
    assert(engine.is_alias(place, place) && engine.overlaps(place, place));
}

/// A walk in a graph is a walk in any graph that has its edges.
pub proof fn lemma_reaches_carries_over(lower: Seq<Vec<bool>>, upper: Seq<Vec<bool>>, a: int, b: int)
    requires
        lower.len() == upper.len(),
        includes(upper, lower),
        reaches(lower, a, b),
    ensures
        reaches(upper, a, b),
{
    let path = choose|path: Seq<int>| is_path(lower, path) && path[0] == a && path.last() == b;
    assert forall|i: int| #![trigger path[i]] 0 <= i < path.len() - 1 implies entry(
        upper,
        path[i],
        path[i + 1],
    ) by {
        assert(entry(lower, path[i], path[i + 1]));
    }
    assert(is_path(upper, path));
}

/// Whether two engines are for one body and one set of facts.
pub open spec fn same_input(x: &Aliases, y: &Aliases) -> bool {
    x.body == y.body && x.facts == y.facts
}

/// Whether both engines carry every loan of the precise engine alike along
/// every edge of the precise engine.
pub open spec fn carries_alike(precise: &Aliases, wide: &Aliases) -> bool {
    forall|a: int, b: int, p: PlaceView|
        #![trigger precise.subset(a, b), lent(precise.loans@, a, p)]
        precise.subset(a, b) && lent(precise.loans@, a, p) ==> moved(
            &precise.body,
            precise.graph.edges@,
            precise.definite@,
            a,
            b,
            p,
        ) == moved(&wide.body, wide.graph.edges@, wide.definite@, a, b, p)
}

/// Whether no edge of the precise engine that lies on no cycle there lies on
/// a cycle of the conservative engine.
pub open spec fn keeps_edges_acyclic(precise: &Aliases, wide: &Aliases) -> bool {
    forall|a: int, b: int|
        #![trigger precise.subset(a, b)]
        precise.subset(a, b) && same_component(wide.graph.edges@, a, b) ==> same_component(
            precise.graph.edges@,
            a,
            b,
        )
}

proof fn lemma_wide_includes(precise: &Aliases, wide: &Aliases)
    requires
        precise.wf(),
        wide.wf(),
        same_input(precise, wide),
        precise.mode.pointer_mode == PointerMode::Precise,
    ensures
        includes(wide.graph.edges@, precise.graph.edges@),
        precise.graph.edges@.len() == wide.graph.edges@.len(),
{
    assert forall|a: int, b: int| #[trigger] entry(precise.graph.edges@, a, b) implies entry(
        wide.graph.edges@,
        a,
        b,
    ) by {
        assert(precise.subset(a, b));
        assert(wide.subset(a, b));
    }
}

/// Where the conservative mode closes no cycle through an edge that lay on
/// none, both engines carry every loan alike.
pub proof fn lemma_acyclic_edges_carry_alike(precise: &Aliases, wide: &Aliases)
    requires
        precise.wf(),
        wide.wf(),
        same_input(precise, wide),
        precise.mode.pointer_mode == PointerMode::Precise,
        keeps_edges_acyclic(precise, wide),
    ensures
        carries_alike(precise, wide),
{
    lemma_wide_includes(precise, wide);
    assert forall|a: int, b: int, p: PlaceView|
        #![trigger precise.subset(a, b), lent(precise.loans@, a, p)]
        precise.subset(a, b) && lent(precise.loans@, a, p) implies moved(
        &precise.body,
        precise.graph.edges@,
        precise.definite@,
        a,
        b,
        p,
    ) == moved(&wide.body, wide.graph.edges@, wide.definite@, a, b, p) by {
        assert(entry(precise.graph.edges@, a, b));
        assert(record_of(precise.definite@, b) == record_of(wide.definite@, b));
        if same_component(precise.graph.edges@, a, b) {
            lemma_reaches_carries_over(precise.graph.edges@, wide.graph.edges@, a, b);
            lemma_reaches_carries_over(precise.graph.edges@, wide.graph.edges@, b, a);
        }
    }
}

proof fn lemma_flow_prefix(engine: &Aliases, chain: Seq<(int, PlaceView)>, len: int)
    requires
        engine.flows(chain),
        0 < len <= chain.len(),
    ensures
        engine.flows(chain.subrange(0, len)),
{
    let part = chain.subrange(0, len);
    assert(part[0] == chain[0]);
    assert forall|i: int| #![trigger part[i]] 0 <= i < part.len() - 1 implies link(
        &engine.body,
        engine.graph.edges@,
        engine.definite@,
        part[i],
        part[i + 1],
    ) by {
        assert(part[i] == chain[i] && part[i + 1] == chain[i + 1]);
    }
}

proof fn lemma_wide_flows(precise: &Aliases, wide: &Aliases, chain: Seq<(int, PlaceView)>)
    requires
        precise.wf(),
        wide.wf(),
        same_input(precise, wide),
        precise.mode.pointer_mode == PointerMode::Precise,
        carries_alike(precise, wide),
        precise.flows(chain),
    ensures
        wide.flows(chain),
{
    lemma_wide_includes(precise, wide);
    assert forall|i: int| #![trigger chain[i]] 0 <= i < chain.len() - 1 implies link(
        &wide.body,
        wide.graph.edges@,
        wide.definite@,
        chain[i],
        chain[i + 1],
    ) by {
        let a = chain[i].0;
        let b = chain[i + 1].0;
        assert(link(&precise.body, precise.graph.edges@, precise.definite@, chain[i], chain[i + 1]));
        assert(entry(precise.graph.edges@, a, b));
        assert(precise.subset(a, b));
        assert(entry(wide.graph.edges@, a, b));
        let part = chain.subrange(0, i + 1);
        lemma_flow_prefix(precise, chain, i + 1);
        assert(part.last() == chain[i]);
        assert(precise.points_to(a, chain[i].1));
        assert(lent(precise.loans@, a, chain[i].1));
    }
}

/// The conservative mode only adds aliases. For one body and one set of
/// facts, whatever the precise engine takes for an alias of a place the
/// conservative engine takes for one too, as long as both carry the loans
/// of the precise engine alike along its edges. They do not where an edge
/// that the conservative mode adds closes a cycle through an edge along
/// which the precise engine extends a loan by the path of a borrow: on a
/// cycle no loan is extended.
pub proof fn lemma_conservative_only_adds(
    precise: &Aliases,
    wide: &Aliases,
    place: PlaceView,
    x: PlaceView,
)
    requires
        precise.wf(),
        wide.wf(),
        same_input(precise, wide),
        precise.mode.pointer_mode == PointerMode::Precise,
        carries_alike(precise, wide),
        precise.is_alias(place, x),
    ensures
        wide.is_alias(place, x),
{
    if x != place {
        match precise.resolved(place) {
            Some((region, ty)) => {
                let loan = choose|loan: PlaceView|
                    lent(precise.loans@, region as int, loan) && x == precise.alias_from(
                        place,
                        ty,
                        loan,
                    );
                assert(precise.points_to(region as int, loan));
                let chain = choose|chain: Seq<(int, PlaceView)>|
                    precise.flows(chain) && chain.last() == (region as int, loan);
                lemma_wide_flows(precise, wide, chain);
                assert(wide.points_to(region as int, loan));
                assert(lent(wide.loans@, region as int, loan));
                assert(x == wide.alias_from(place, ty, loan));
            },
            None => {},
        }
    }
}

proof fn lemma_same_reach(x: &Aliases, y: &Aliases, a: int, b: int)
    requires
        x.wf(),
        y.wf(),
        same_input(x, y),
        x.mode == y.mode,
    ensures
        reaches(x.graph.edges@, a, b) == reaches(y.graph.edges@, a, b),
{
    assert forall|u: int, v: int| #[trigger] entry(x.graph.edges@, u, v) implies entry(
        y.graph.edges@,
        u,
        v,
    ) by {
        assert(x.subset(u, v));
        assert(y.subset(u, v));
    }
    assert forall|u: int, v: int| #[trigger] entry(y.graph.edges@, u, v) implies entry(
        x.graph.edges@,
        u,
        v,
    ) by {
        assert(y.subset(u, v));
        assert(x.subset(u, v));
    }
    if reaches(x.graph.edges@, a, b) {
        lemma_reaches_carries_over(x.graph.edges@, y.graph.edges@, a, b);
    }
    if reaches(y.graph.edges@, a, b) {
        lemma_reaches_carries_over(y.graph.edges@, x.graph.edges@, a, b);
    }
}

proof fn lemma_same_flows(x: &Aliases, y: &Aliases, chain: Seq<(int, PlaceView)>)
    requires
        x.wf(),
        y.wf(),
        same_input(x, y),
        x.mode == y.mode,
        x.flows(chain),
    ensures
        y.flows(chain),
{
    assert forall|i: int| #![trigger chain[i]] 0 <= i < chain.len() - 1 implies link(
        &y.body,
        y.graph.edges@,
        y.definite@,
        chain[i],
        chain[i + 1],
    ) by {
        let a = chain[i].0;
        let b = chain[i + 1].0;
        assert(link(&x.body, x.graph.edges@, x.definite@, chain[i], chain[i + 1]));
        assert(entry(x.graph.edges@, a, b));
        assert(x.subset(a, b));
        assert(y.subset(a, b));
        assert(entry(y.graph.edges@, a, b));
        assert(record_of(x.definite@, b) == record_of(y.definite@, b));
        lemma_same_reach(x, y, a, b);
        lemma_same_reach(x, y, b, a);
    }
}

/// The engine is determined by its input. Two engines for one body, one set
/// of facts and one mode have the same subset relation and hold the same
/// places for each region in the same order, so that every query has the
/// same answers from both.
pub proof fn lemma_builds_agree(x: &Aliases, y: &Aliases)
    requires
        x.wf(),
        y.wf(),
        same_input(x, y),
        x.mode == y.mode,
    ensures
        forall|a: int, b: int| x.subset(a, b) == y.subset(a, b),
        forall|r: int| #[trigger] x.contains(r) == y.contains(r),
        forall|place: PlaceView, p: PlaceView| #[trigger]
            x.is_alias(place, p) == y.is_alias(place, p),
        forall|place: PlaceView, p: PlaceView| #[trigger]
            x.is_conflict(place, p) == y.is_conflict(place, p),
        forall|place: PlaceView, shallow: bool, p: PlaceView| #[trigger]
            x.is_reachable(place, shallow, p) == y.is_reachable(place, shallow, p),
{
    assert forall|r: int, p: PlaceView| #[trigger]
        lent(x.loans@, r, p) == lent(y.loans@, r, p) by {
        if x.points_to(r, p) {
            let chain = choose|chain: Seq<(int, PlaceView)>| x.flows(chain) && chain.last() == (r, p);
            lemma_same_flows(x, y, chain);
        }
        if y.points_to(r, p) {
            let chain = choose|chain: Seq<(int, PlaceView)>| y.flows(chain) && chain.last() == (r, p);
            lemma_same_flows(y, x, chain);
        }
    }
    assert forall|place: PlaceView, p: PlaceView| #[trigger]
        x.is_alias(place, p) == y.is_alias(place, p) by {
        if x.is_alias(place, p) {
            lemma_same_alias(x, y, place, p);
        }
        if y.is_alias(place, p) {
            lemma_same_alias(y, x, place, p);
        }
    }
    assert forall|r: int| #[trigger] x.contains(r) == y.contains(r) by {
        if 0 <= r < x.num_regions() {
            assert(sorted(views(x.loans@[r]@)));
            assert(sorted(views(y.loans@[r]@)));
            assert forall|p: PlaceView| x.contains(r).contains(p) <==> y.contains(r).contains(p) by {
                assert(x.contains(r).contains(p) == lent(x.loans@, r, p));
                assert(y.contains(r).contains(p) == lent(y.loans@, r, p));
            }
            lemma_sorted_unique(x.contains(r), y.contains(r));
        }
    }
    assert forall|place: PlaceView, p: PlaceView| #[trigger]
        x.is_conflict(place, p) == y.is_conflict(place, p) by {
        if x.is_conflict(place, p) {
            let alias = choose|alias: PlaceView| x.is_alias(place, alias) && x.overlaps(alias, p);
            assert(y.is_alias(place, alias) && y.overlaps(alias, p));
        }
        if y.is_conflict(place, p) {
            let alias = choose|alias: PlaceView| y.is_alias(place, alias) && y.overlaps(alias, p);
            assert(x.is_alias(place, alias) && x.overlaps(alias, p));
        }
    }
    assert forall|place: PlaceView, shallow: bool, p: PlaceView| #[trigger]
        x.is_reachable(place, shallow, p) == y.is_reachable(place, shallow, p) by {
        let pointers = x.body.pointer_places(place, shallow);
        if x.is_reachable(place, shallow, p) && p != place {
            let k = choose|k: int|
                0 <= k < pointers.len() && x.is_alias((#[trigger] pointers[k]).deref(), p);
            assert(y.is_alias(pointers[k].deref(), p));
        }
        if y.is_reachable(place, shallow, p) && p != place {
            let k = choose|k: int|
                0 <= k < pointers.len() && y.is_alias((#[trigger] pointers[k]).deref(), p);
            assert(x.is_alias(pointers[k].deref(), p));
        }
    }
}

/// Two engines for one input give one answer. Answers in rising order
/// about the aliases of a place are the same sequence from both.
pub proof fn lemma_answers_agree(
    x: &Aliases,
    y: &Aliases,
    place: PlaceView,
    from_x: Seq<PlaceView>,
    from_y: Seq<PlaceView>,
)
    requires
        x.wf(),
        y.wf(),
        same_input(x, y),
        x.mode == y.mode,
        sorted(from_x),
        sorted(from_y),
        forall|p: PlaceView| #[trigger] from_x.contains(p) <==> x.is_alias(place, p),
        forall|p: PlaceView| #[trigger] from_y.contains(p) <==> y.is_alias(place, p),
    ensures
        from_x == from_y,
{
    lemma_builds_agree(x, y);
    assert forall|p: PlaceView| from_x.contains(p) <==> from_y.contains(p) by {
        assert(x.is_alias(place, p) == y.is_alias(place, p));
    }
    lemma_sorted_unique(from_x, from_y);
}

/// Answers in rising order about the conflicts of a place are the same
/// sequence from two engines for one input.
pub proof fn lemma_conflicts_agree(
    x: &Aliases,
    y: &Aliases,
    place: PlaceView,
    from_x: Seq<PlaceView>,
    from_y: Seq<PlaceView>,
)
    requires
        x.wf(),
        y.wf(),
        same_input(x, y),
        x.mode == y.mode,
        sorted(from_x),
        sorted(from_y),
        forall|p: PlaceView| #[trigger] from_x.contains(p) <==> x.is_conflict(place, p),
        forall|p: PlaceView| #[trigger] from_y.contains(p) <==> y.is_conflict(place, p),
    ensures
        from_x == from_y,
{
    lemma_builds_agree(x, y);
    assert forall|p: PlaceView| from_x.contains(p) <==> from_y.contains(p) by {
        assert(x.is_conflict(place, p) == y.is_conflict(place, p));
    }
    lemma_sorted_unique(from_x, from_y);
}

/// Answers in rising order about the values reachable from a place are the
/// same sequence from two engines for one input.
pub proof fn lemma_reachable_agree(
    x: &Aliases,
    y: &Aliases,
    place: PlaceView,
    shallow: bool,
    from_x: Seq<PlaceView>,
    from_y: Seq<PlaceView>,
)
    requires
        x.wf(),
        y.wf(),
        same_input(x, y),
        x.mode == y.mode,
        sorted(from_x),
        sorted(from_y),
        forall|p: PlaceView| #[trigger] from_x.contains(p) <==> x.is_reachable(place, shallow, p),
        forall|p: PlaceView| #[trigger] from_y.contains(p) <==> y.is_reachable(place, shallow, p),
    ensures
        from_x == from_y,
{
    lemma_builds_agree(x, y);
    assert forall|p: PlaceView| from_x.contains(p) <==> from_y.contains(p) by {
        assert(x.is_reachable(place, shallow, p) == y.is_reachable(place, shallow, p));
    }
    lemma_sorted_unique(from_x, from_y);
}

proof fn lemma_same_alias(x: &Aliases, y: &Aliases, place: PlaceView, p: PlaceView)
    requires
        x.body == y.body,
        forall|r: int, q: PlaceView| #[trigger] lent(x.loans@, r, q) == lent(y.loans@, r, q),
        x.is_alias(place, p),
    ensures
        y.is_alias(place, p),
{
    if p != place {
        match x.resolved(place) {
            Some((region, ty)) => {
                let loan = choose|loan: PlaceView|
                    lent(x.loans@, region as int, loan) && p == x.alias_from(place, ty, loan);
                assert(lent(y.loans@, region as int, loan));
                assert(p == y.alias_from(place, ty, loan));
            },
            None => {},
        }
    }
}

} // verus!
