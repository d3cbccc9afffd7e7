//! The edges of the subset graph: the facts of the borrow checker, the edges
//! that leave the static region, and the edges that the conservative mode
//! adds between pointers to one type.

use vstd::prelude::*;
use crate::body::{Body, TyKind};
use crate::graph::{entry, set_entry, square};
use crate::loans::{borrow_views, borrows_in_range, Borrow};
use crate::place::{Place, PlaceView, Region, Ty};

verus! {

/// A pointer-valued place together with the region of its type.
#[derive(Debug)]
pub struct RegionPointer {
    pub region: Region,
    pub place: Place,
}

/// The values of a list of pointers.
pub open spec fn pointer_views(pointers: Seq<RegionPointer>) -> Seq<(Region, PlaceView)> {
    pointers.map_values(|p: RegionPointer| (p.region, p.place@))
}

/// The region of the reference stored at `place`, if it stores one.
pub open spec fn region_at(body: &Body, place: PlaceView) -> Option<Region> {
    match body.ty_of(place) {
        Some(ty) => match body.ref_of(ty) {
            Some((region, pointee)) => Some(region),
            None => None,
        },
        None => None,
    }
}

/// The places of `pointers` that store a reference, each with its region.
pub open spec fn tagged(body: &Body, pointers: Seq<PlaceView>) -> Seq<(Region, PlaceView)>
    decreases pointers.len(),
{
    if pointers.len() == 0 {
        Seq::empty()
    } else {
        let init = tagged(body, pointers.drop_last());
        match region_at(body, pointers.last()) {
            Some(region) => init.push((region, pointers.last())),
            None => init,
        }
    }
}

/// The references reachable from the arguments among the first `upto`
/// locals, each with its region.
pub open spec fn arg_pointers(body: &Body, upto: nat) -> Seq<(Region, PlaceView)>
    decreases upto,
{
    if upto == 0 {
        Seq::empty()
    } else {
        let l = (upto - 1) as nat;
        let init = arg_pointers(body, l);
        if body.arg(l as usize) && l < body.local_decls.len() {
            init + tagged(body, body.pointer_places(PlaceView::of_local(l as usize), false))
        } else {
            init
        }
    }
}

/// Whether both places point to values of one type.
pub open spec fn same_pointee(body: &Body, p: PlaceView, q: PlaceView) -> bool {
    match (body.ty_of(p.deref()), body.ty_of(q.deref())) {
        (Some(s), Some(t)) => s == t,
        _ => false,
    }
}

/// Whether pointers `x` and `y` of the list have different regions and point
/// to values of one type.
pub open spec fn paired(body: &Body, pointers: Seq<(Region, PlaceView)>, x: int, y: int) -> bool {
    &&& 0 <= x < pointers.len()
    &&& 0 <= y < pointers.len()
    &&& pointers[x].0 != pointers[y].0
    &&& same_pointee(body, pointers[x].1, pointers[y].1)
}

/// Whether the conservative mode makes region `a` a subset of region `b`:
/// they differ, and a pointer of each points to values of one type.
pub open spec fn conservative_pair(
    body: &Body,
    pointers: Seq<(Region, PlaceView)>,
    a: Region,
    b: Region,
) -> bool {
    exists|x: int, y: int|
        #![trigger pointers[x], pointers[y]]
        paired(body, pointers, x, y) && pointers[x].0 == a && pointers[y].0 == b
}

/// The references reachable from the arguments, each with its region.
pub fn collect_arg_pointers(body: &Body) -> (r: Vec<RegionPointer>)
    ensures
        pointer_views(r@) == arg_pointers(body, body.local_decls.len() as nat),
{
    let mut r: Vec<RegionPointer> = Vec::new();
    let mut l: usize = 0;
    assert(pointer_views(r@) =~= Seq::<(Region, PlaceView)>::empty());
    while l < body.local_decls.len()
        invariant
            l <= body.local_decls.len(),
            pointer_views(r@) == arg_pointers(body, l as nat),
        decreases body.local_decls.len() - l,
    {
        if body.is_arg(l) {
            let base = Place::from_local(l);
            let found = body.interior_pointers(&base, false);
            let ghost done = pointer_views(r@);
            let ghost places = crate::place::views(found@);
            let mut i: usize = 0;
            assert(places.subrange(0, 0) =~= Seq::<PlaceView>::empty());
            assert(done + Seq::<(Region, PlaceView)>::empty() =~= done);
            while i < found.len()
                invariant
                    i <= found.len(),
                    places == crate::place::views(found@),
                    pointer_views(r@) == done + tagged(body, places.subrange(0, i as int)),
                decreases found.len() - i,
            {
                let ghost before = pointer_views(r@);
                let ghost earlier = tagged(body, places.subrange(0, i as int));
                let ghost next = places.subrange(0, i + 1);
                assert(next.drop_last() =~= places.subrange(0, i as int));
                assert(next.last() == found@[i as int]@);
                let region = match body.place_ty(&found[i]) {
                    Some(ty) => match body.ref_parts(ty) {
                        Some((region, _)) => Some(region),
                        None => None,
                    },
                    None => None,
                };
                match region {
                    Some(region) => {
                        let pointer = RegionPointer { region, place: found[i].clone() };
                        r.push(pointer);
                        assert(pointer_views(r@) =~= before.push((region, found@[i as int]@)));
                        assert(before.push((region, found@[i as int]@)) =~= done + earlier.push(
                            (region, found@[i as int]@),
                        ));
                    },
                    None => {},
                }
                i += 1;
            }
            assert(places.subrange(0, found.len() as int) =~= places);
        }
        l += 1;
    }
    r
}

/// The edges that the conservative mode adds: for every two pointers of the
/// list with different regions that point to values of one type, an edge
/// from the region of the first to that of the second. Each such pair of
/// regions is found from both sides, so the edges go both ways.
pub fn generate_conservative_constraints(body: &Body, pointers: &Vec<RegionPointer>) -> (r: Vec<
    (Region, Region),
>)
    ensures
        forall|a: Region, b: Region|
            r@.contains((a, b)) <==> conservative_pair(body, pointer_views(pointers@), a, b),
{
    let ghost all = pointer_views(pointers@);
    let mut tys: Vec<Option<Ty>> = Vec::new();
    let mut i: usize = 0;
    while i < pointers.len()
        invariant
            i <= pointers.len(),
            tys@.len() == i,
            forall|x: int| 0 <= x < i ==> #[trigger] tys@[x] == body.ty_of(pointers@[x].place@.deref()),
        decreases pointers.len() - i,
    {
        let target = pointers[i].place.deref_place();
        tys.push(body.place_ty(&target));
        i += 1;
    }
    let mut r: Vec<(Region, Region)> = Vec::new();
    let mut x: usize = 0;
    while x < pointers.len()
        invariant
            x <= pointers.len(),
            all == pointer_views(pointers@),
            tys@.len() == pointers.len(),
            forall|k: int|
                0 <= k < pointers.len() ==> #[trigger] tys@[k] == body.ty_of(
                    pointers@[k].place@.deref(),
                ),
            forall|a: Region, b: Region|
                r@.contains((a, b)) <==> exists|u: int, v: int|
                    #![trigger all[u], all[v]]
                    0 <= u < x && paired(body, all, u, v) && all[u].0 == a && all[v].0 == b,
        decreases pointers.len() - x,
    {
        let mut y: usize = 0;
        while y < pointers.len()
            invariant
                y <= pointers.len(),
                x < pointers.len(),
                all == pointer_views(pointers@),
                tys@.len() == pointers.len(),
                forall|k: int|
                    0 <= k < pointers.len() ==> #[trigger] tys@[k] == body.ty_of(
                        pointers@[k].place@.deref(),
                    ),
                forall|a: Region, b: Region|
                    r@.contains((a, b)) <==> ((exists|u: int, v: int|
                        #![trigger all[u], all[v]]
                        0 <= u < x && paired(body, all, u, v) && all[u].0 == a && all[v].0 == b)
                        || (exists|v: int|
                        #![trigger all[v]]
                        0 <= v < y && paired(body, all, x as int, v) && all[x as int].0 == a
                            && all[v].0 == b)),
            decreases pointers.len() - y,
        {
            let same = match (tys[x], tys[y]) {
                (Some(s), Some(t)) => s == t,
                _ => false,
            };
            let ghost before = r@;
            proof {
                assert(all[x as int] == (pointers@[x as int].region, pointers@[x as int].place@));
                assert(all[y as int] == (pointers@[y as int].region, pointers@[y as int].place@));
                assert(same == same_pointee(body, all[x as int].1, all[y as int].1));
            }
            if pointers[x].region != pointers[y].region && same {
                r.push((pointers[x].region, pointers[y].region));
                proof {
                    assert(paired(body, all, x as int, y as int));
                    assert forall|a: Region, b: Region|
                        r@.contains((a, b)) <==> (before.contains((a, b)) || (a, b) == (
                            all[x as int].0,
                            all[y as int].0,
                        )) by {
                        lemma_push_has(before, (all[x as int].0, all[y as int].0), (a, b));
                    }
                }
            }
            proof {
                assert forall|a: Region, b: Region|
                    r@.contains((a, b)) <==> ((exists|u: int, v: int|
                        #![trigger all[u], all[v]]
                        0 <= u < x && paired(body, all, u, v) && all[u].0 == a && all[v].0 == b)
                        || (exists|v: int|
                        #![trigger all[v]]
                        0 <= v < y + 1 && paired(body, all, x as int, v) && all[x as int].0 == a
                            && all[v].0 == b)) by {
                    let first = exists|u: int, v: int|
                        #![trigger all[u], all[v]]
                        0 <= u < x && paired(body, all, u, v) && all[u].0 == a && all[v].0 == b;
                    let second_old = exists|v: int|
                        #![trigger all[v]]
                        0 <= v < y && paired(body, all, x as int, v) && all[x as int].0 == a
                            && all[v].0 == b;
                    let second_new = exists|v: int|
                        #![trigger all[v]]
                        0 <= v < y + 1 && paired(body, all, x as int, v) && all[x as int].0 == a
                            && all[v].0 == b;
                    assert(before.contains((a, b)) <==> (first || second_old));
                    let here = paired(body, all, x as int, y as int) && all[x as int].0 == a
                        && all[y as int].0 == b;
                    if second_old {
                        let v = choose|v: int|
                            #![trigger all[v]]
                            0 <= v < y && paired(body, all, x as int, v) && all[x as int].0 == a
                                && all[v].0 == b;
                        assert(0 <= v < y + 1 && paired(body, all, x as int, v));
                    }
                    if here {
                        assert(0 <= y < y + 1 && paired(body, all, x as int, y as int));
                        assert(second_new);
                    }
                    if second_new {
                        let v = choose|v: int|
                            #![trigger all[v]]
                            0 <= v < y + 1 && paired(body, all, x as int, v) && all[x as int].0
                                == a && all[v].0 == b;
                        if v < y {
                            assert(second_old);
                        } else {
                            assert(here);
                        }
                    }
                    assert(second_new <==> (second_old || here));
                }
            }
            y += 1;
        }
        proof {
            assert forall|a: Region, b: Region|
                r@.contains((a, b)) <==> exists|u: int, v: int|
                    #![trigger all[u], all[v]]
                    0 <= u < x + 1 && paired(body, all, u, v) && all[u].0 == a && all[v].0
                        == b by {
                let first = exists|u: int, v: int|
                    #![trigger all[u], all[v]]
                    0 <= u < x && paired(body, all, u, v) && all[u].0 == a && all[v].0 == b;
                let second = exists|v: int|
                    #![trigger all[v]]
                    0 <= v < pointers.len() && paired(body, all, x as int, v) && all[x as int].0
                        == a && all[v].0 == b;
                let goal = exists|u: int, v: int|
                    #![trigger all[u], all[v]]
                    0 <= u < x + 1 && paired(body, all, u, v) && all[u].0 == a && all[v].0 == b;
                if first {
                    let (u, v) = choose|u: int, v: int|
                        #![trigger all[u], all[v]]
                        0 <= u < x && paired(body, all, u, v) && all[u].0 == a && all[v].0 == b;
                    assert(0 <= u < x + 1 && paired(body, all, u, v));
                }
                if second {
                    let v = choose|v: int|
                        #![trigger all[v]]
                        0 <= v < pointers.len() && paired(body, all, x as int, v) && all[x as int].0
                            == a && all[v].0 == b;
                    assert(0 <= x < x + 1 && paired(body, all, x as int, v) && all[x as int].0 == a
                        && all[v].0 == b);
                }
                if goal {
                    let (u, v) = choose|u: int, v: int|
                        #![trigger all[u], all[v]]
                        0 <= u < x + 1 && paired(body, all, u, v) && all[u].0 == a && all[v].0
                            == b;
                    if u < x {
                        assert(first);
                    } else {
                        assert(0 <= v < pointers.len() && paired(body, all, x as int, v));
                        assert(second);
                    }
                }
            }
        }
        x += 1;
    }
    proof {
        assert forall|a: Region, b: Region|
            r@.contains((a, b)) <==> conservative_pair(body, all, a, b) by {
            if conservative_pair(body, all, a, b) {
                let (u, v) = choose|u: int, v: int|
                    #![trigger all[u], all[v]]
                    paired(body, all, u, v) && all[u].0 == a && all[v].0 == b;
                assert(0 <= u < pointers.len() && paired(body, all, u, v));
            }
        }
    }
    r
}

pub proof fn lemma_push_has<T>(s: Seq<T>, v: T, x: T)
    ensures
        s.push(v).contains(x) <==> (s.contains(x) || x == v),
{
    if s.contains(x) {
        let i = choose|i: int| 0 <= i < s.len() && s[i] == x;
        assert(s.push(v)[i] == x);
    }
    if x == v {
        assert(s.push(v)[s.len() as int] == x);
    }
    if s.push(v).contains(x) {
        let i = choose|i: int| 0 <= i < s.push(v).len() && s.push(v)[i] == x;
        if i < s.len() {
            assert(s[i] == x);
        }
    }
}

/// Whether region `a` is a subset of region `b` in a graph of `n` regions
/// with these facts: the pair is a fact, or `a` is the static region, which
/// is a subset of every region.
pub open spec fn subset_edge(n: nat, pairs: Seq<(Region, Region)>, a: int, b: int) -> bool {
    0 <= a < n && 0 <= b < n && (a == 0 || pairs.contains((a as usize, b as usize)))
}

/// The matrix of the subset relation of `n` regions. Pairs that name a region
/// outside the graph are passed over.
pub fn build_edges(n: usize, pairs: &Vec<(Region, Region)>) -> (edges: Vec<Vec<bool>>)
    ensures
        square(edges@, n as nat),
        forall|a: int, b: int| #[trigger] entry(edges@, a, b) <==> subset_edge(n as nat, pairs@, a, b),
{
    let mut edges: Vec<Vec<bool>> = Vec::new();
    let mut a: usize = 0;
    while a < n
        invariant
            a <= n,
            edges@.len() == a,
            forall|i: int| 0 <= i < a ==> (#[trigger] edges@[i])@.len() == n,
            forall|i: int, j: int| 0 <= i < a && 0 <= j < n ==> (edges@[i]@[j] <==> i == 0),
        decreases n - a,
    {
        let mut row: Vec<bool> = Vec::new();
        let mut b: usize = 0;
        while b < n
            invariant
                b <= n,
                row@.len() == b,
                forall|j: int| 0 <= j < b ==> (row@[j] <==> a == 0),
            decreases n - b,
        {
            row.push(a == 0);
            b += 1;
        }
        edges.push(row);
        a += 1;
    }
    let mut i: usize = 0;
    while i < pairs.len()
        invariant
            i <= pairs.len(),
            square(edges@, n as nat),
            forall|x: int, y: int|
                0 <= x < n && 0 <= y < n ==> (edges@[x]@[y] <==> (x == 0 || exists|k: int|
                    0 <= k < i && pairs@[k] == (x as usize, y as usize))),
        decreases pairs.len() - i,
    {
        let (x, y) = pairs[i];
        if x < n && y < n {
            let ghost before = edges@;
            set_entry(&mut edges, x, y);
            proof {
                assert forall|u: int| 0 <= u < n implies (#[trigger] edges@[u])@.len() == n by {
                    if u != x {
                        assert(edges@[u] == before[u]);
                    }
                }
                assert forall|u: int, v: int| 0 <= u < n && 0 <= v < n implies (edges@[u]@[v] <==> (
                u == 0 || exists|k: int| 0 <= k < i + 1 && pairs@[k] == (u as usize, v as usize))) by {
                    if u != x {
                        assert(edges@[u] == before[u]);
                    }
                    if exists|k: int| 0 <= k < i && pairs@[k] == (u as usize, v as usize) {
                        let k = choose|k: int| 0 <= k < i && pairs@[k] == (u as usize, v as usize);
                        assert(0 <= k < i + 1 && pairs@[k] == (u as usize, v as usize));
                    }
                    if u == x && v == y {
                        assert(pairs@[i as int] == (u as usize, v as usize));
                    }
                }
            }
        } else {
            proof {
                assert forall|u: int, v: int| 0 <= u < n && 0 <= v < n implies (edges@[u]@[v] <==> (
                u == 0 || exists|k: int| 0 <= k < i + 1 && pairs@[k] == (u as usize, v as usize))) by {
                    if exists|k: int| 0 <= k < i && pairs@[k] == (u as usize, v as usize) {
                        let k = choose|k: int| 0 <= k < i && pairs@[k] == (u as usize, v as usize);
                        assert(0 <= k < i + 1 && pairs@[k] == (u as usize, v as usize));
                    }
                }
            }
        }
        i += 1;
    }
    proof {
        assert forall|a: int, b: int| #[trigger] entry(edges@, a, b) <==> subset_edge(
            n as nat,
            pairs@,
            a,
            b,
        ) by {
            if 0 <= a < n && 0 <= b < n {
                if pairs@.contains((a as usize, b as usize)) {
                    let k = choose|k: int|
                        0 <= k < pairs@.len() && pairs@[k] == (a as usize, b as usize);
                    assert(0 <= k < pairs.len() && pairs@[k] == (a as usize, b as usize));
                }
            }
        }
    }
    edges
}

/// Whether every fact names regions below `n`.
pub open spec fn pairs_in_range(pairs: Seq<(Region, Region)>, n: nat) -> bool {
    forall|i: int| 0 <= i < pairs.len() ==> (#[trigger] pairs[i]).0 < n && pairs[i].1 < n
}

/// Whether every reference type of the table names a region below `n`.
pub open spec fn types_in_range(body: &Body, n: nat) -> bool {
    forall|t: int|
        0 <= t < body.types.len() ==> match #[trigger] body.types@[t] {
            TyKind::Ref { region, pointee } => region < n,
            _ => true,
        }
}

/// Whether every fact names regions below `n`.
pub fn check_pairs(pairs: &Vec<(Region, Region)>, n: usize) -> (r: bool)
    ensures
        r == pairs_in_range(pairs@, n as nat),
{
    let mut i: usize = 0;
    while i < pairs.len()
        invariant
            i <= pairs.len(),
            forall|k: int| 0 <= k < i ==> (#[trigger] pairs@[k]).0 < n && pairs@[k].1 < n,
        decreases pairs.len() - i,
    {
        if pairs[i].0 >= n || pairs[i].1 >= n {
            return false;
        }
        i += 1;
    }
    true
}

/// Whether every reference type of the table names a region below `n`.
pub fn check_types(body: &Body, n: usize) -> (r: bool)
    ensures
        r == types_in_range(body, n as nat),
{
    let mut t: usize = 0;
    while t < body.types.len()
        invariant
            t <= body.types.len(),
            forall|k: int|
                0 <= k < t ==> match #[trigger] body.types@[k] {
                    TyKind::Ref { region, pointee } => region < n,
                    _ => true,
                },
        decreases body.types.len() - t,
    {
        match &body.types[t] {
            TyKind::Ref { region, pointee } => {
                if *region >= n {
                    return false;
                }
            },
            _ => {},
        }
        t += 1;
    }
    true
}

/// Whether every borrow names a region below `n`.
pub fn check_borrows(borrows: &Vec<Borrow>, n: usize) -> (r: bool)
    ensures
        r == borrows_in_range(borrow_views(borrows@), n as nat),
{
    let mut i: usize = 0;
    while i < borrows.len()
        invariant
            i <= borrows.len(),
            forall|k: int| 0 <= k < i ==> (#[trigger] borrow_views(borrows@)[k]).0 < n,
        decreases borrows.len() - i,
    {
        assert(borrow_views(borrows@)[i as int].0 == borrows@[i as int].region);
        if borrows[i].region >= n {
            return false;
        }
        i += 1;
    }
    true
}

} // verus!
