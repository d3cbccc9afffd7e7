//! The loans of a body: which place each borrow expression borrows under
//! which region, and what each region is known to point into.

use vstd::prelude::*;
use crate::body::{BasicBlock, Body, Rvalue, Statement};
use crate::place::{
    insert_place, last_deref, lemma_last_deref, Place, PlaceElem, PlaceView, Region, Ty, views,
};

verus! {

/// A borrow expression: the region of the reference and the borrowed place.
#[derive(Debug)]
pub struct Borrow {
    pub region: Region,
    pub place: Place,
}

/// What a region is known to point at: the type that the borrow started
/// from, and the path that the borrow took below it.
#[derive(Debug)]
pub struct Definite {
    pub ty: Ty,
    pub projection: Vec<PlaceElem>,
}

/// The borrow that a statement makes, if it makes one.
pub open spec fn statement_borrow(stmt: Statement) -> Option<(Region, PlaceView)> {
    match stmt {
        Statement::Assign { place, rvalue } => match rvalue {
            Rvalue::Ref { region, place } => Some((region, place@)),
            _ => None,
        },
        Statement::Other => None,
    }
}

/// The borrows of a run of statements, in their order.
pub open spec fn block_borrows(stmts: Seq<Statement>) -> Seq<(Region, PlaceView)>
    decreases stmts.len(),
{
    if stmts.len() == 0 {
        Seq::empty()
    } else {
        let init = block_borrows(stmts.drop_last());
        match statement_borrow(stmts.last()) {
            Some(b) => init.push(b),
            None => init,
        }
    }
}

/// The borrows of the blocks, block by block.
pub open spec fn body_borrows(blocks: Seq<BasicBlock>) -> Seq<(Region, PlaceView)>
    decreases blocks.len(),
{
    if blocks.len() == 0 {
        Seq::empty()
    } else {
        body_borrows(blocks.drop_last()) + block_borrows(blocks.last().statements@)
    }
}

/// The values of a list of borrows.
pub open spec fn borrow_views(borrows: Seq<Borrow>) -> Seq<(Region, PlaceView)> {
    borrows.map_values(|b: Borrow| (b.region, b.place@))
}

/// Every borrow expression of the body, in program order.
pub fn gather_borrows(body: &Body) -> (r: Vec<Borrow>)
    ensures
        borrow_views(r@) == body_borrows(body.blocks@),
{
    let mut r: Vec<Borrow> = Vec::new();
    let mut bi: usize = 0;
    assert(body.blocks@.subrange(0, 0) =~= Seq::<BasicBlock>::empty());
    assert(borrow_views(r@) =~= Seq::<(Region, PlaceView)>::empty());
    while bi < body.blocks.len()
        invariant
            bi <= body.blocks.len(),
            borrow_views(r@) == body_borrows(body.blocks@.subrange(0, bi as int)),
        decreases body.blocks.len() - bi,
    {
        let block = &body.blocks[bi];
        let ghost done = borrow_views(r@);
        let ghost next_blocks = body.blocks@.subrange(0, bi + 1);
        assert(next_blocks.drop_last() =~= body.blocks@.subrange(0, bi as int));
        assert(next_blocks.last() == body.blocks@[bi as int]);
        let mut si: usize = 0;
        assert(block.statements@.subrange(0, 0) =~= Seq::<Statement>::empty());
        assert(done + Seq::<(Region, PlaceView)>::empty() =~= done);
        while si < block.statements.len()
            invariant
                si <= block.statements.len(),
                borrow_views(r@) == done + block_borrows(
                    block.statements@.subrange(0, si as int),
                ),
            decreases block.statements.len() - si,
        {
            let ghost before = borrow_views(r@);
            let ghost earlier = block_borrows(block.statements@.subrange(0, si as int));
            let ghost next = block.statements@.subrange(0, si + 1);
            assert(next.drop_last() =~= block.statements@.subrange(0, si as int));
            assert(next.last() == block.statements@[si as int]);
            match &block.statements[si] {
                Statement::Assign { place, rvalue } => match rvalue {
                    Rvalue::Ref { region, place } => {
                        let borrow = Borrow { region: *region, place: place.clone() };
                        r.push(borrow);
                        assert(borrow_views(r@) =~= before.push((*region, place@)));
                        assert(before.push((*region, place@)) =~= done + earlier.push(
                            (*region, place@),
                        ));
                    },
                    _ => {},
                },
                Statement::Other => {},
            }
            si += 1;
        }
        assert(block.statements@.subrange(0, block.statements.len() as int)
            =~= block.statements@);
        bi += 1;
    }
    assert(body.blocks@.subrange(0, body.blocks.len() as int) =~= body.blocks@);
    r
}

/// What borrowing `place` says of the region of the borrow. With a
/// dereference on the path: the type behind the last pointer, all layers of
/// references taken off, and the path after that dereference. Without one:
/// the type of the local and the whole path.
pub open spec fn definite_of(body: &Body, place: PlaceView) -> Option<(Ty, Seq<PlaceElem>)> {
    let i = last_deref(place.projection);
    if i >= 0 {
        match body.ty_of(place.prefix(i)) {
            Some(ty) => Some(
                (
                    body.peeled(ty, body.types.len() as nat),
                    place.projection.subrange(i + 1, place.projection.len() as int),
                ),
            ),
            None => None,
        }
    } else {
        match body.local_ty_of(place.local) {
            Some(ty) => Some((ty, place.projection)),
            None => None,
        }
    }
}

/// The record of region `r`: that of the last borrow under `r`.
pub open spec fn definite_record(
    body: &Body,
    borrows: Seq<(Region, PlaceView)>,
    r: int,
) -> Option<(Ty, Seq<PlaceElem>)>
    decreases borrows.len(),
{
    if borrows.len() == 0 {
        None
    } else if borrows.last().0 == r {
        definite_of(body, borrows.last().1)
    } else {
        definite_record(body, borrows.drop_last(), r)
    }
}

/// The value of a record.
pub open spec fn definite_view(d: Option<Definite>) -> Option<(Ty, Seq<PlaceElem>)> {
    match d {
        Some(d) => Some((d.ty, d.projection@)),
        None => None,
    }
}

/// What borrowing `place` says of the region of the borrow.
pub fn compute_definite(body: &Body, place: &Place) -> (r: Option<Definite>)
    ensures
        definite_view(r) == definite_of(body, place@),
{
    proof {
        lemma_last_deref(place.projection@);
    }
    match place.last_deref() {
        Some(i) => match {
            assert(i < place.projection.len());
            body.prefix_ty(place, i)
        } {
            Some(ty) => Some(Definite { ty: body.peel_refs(ty), projection: place.suffix(i + 1) }),
            None => None,
        },
        None => {
            if place.local < body.local_decls.len() {
                let mut projection: Vec<PlaceElem> = place.suffix(0);
                assert(projection@ =~= place.projection@);
                Some(Definite { ty: body.local_decls[place.local], projection })
            } else {
                None
            }
        },
    }
}

/// Whether every borrow names a region below `n`.
pub open spec fn borrows_in_range(borrows: Seq<(Region, PlaceView)>, n: nat) -> bool {
    forall|i: int| 0 <= i < borrows.len() ==> (#[trigger] borrows[i]).0 < n
}

/// The record of each region below `n`.
pub fn definite_records(body: &Body, borrows: &Vec<Borrow>, n: usize) -> (r: Vec<Option<Definite>>)
    requires
        borrows_in_range(borrow_views(borrows@), n as nat),
    ensures
        r@.len() == n,
        forall|x: int|
            0 <= x < n ==> definite_view(#[trigger] r@[x]) == definite_record(
                body,
                borrow_views(borrows@),
                x,
            ),
{
    let mut r: Vec<Option<Definite>> = Vec::new();
    let mut x: usize = 0;
    while x < n
        invariant
            x <= n,
            r@.len() == x,
            forall|y: int| 0 <= y < x ==> #[trigger] r@[y] is None,
        decreases n - x,
    {
        r.push(None);
        x += 1;
    }
    let ghost all = borrow_views(borrows@);
    let mut i: usize = 0;
    assert(all.subrange(0, 0) =~= Seq::<(Region, PlaceView)>::empty());
    while i < borrows.len()
        invariant
            i <= borrows.len(),
            all == borrow_views(borrows@),
            borrows_in_range(all, n as nat),
            r@.len() == n,
            forall|y: int|
                0 <= y < n ==> definite_view(#[trigger] r@[y]) == definite_record(
                    body,
                    all.subrange(0, i as int),
                    y,
                ),
        decreases borrows.len() - i,
    {
        let ghost next = all.subrange(0, i + 1);
        assert(next.drop_last() =~= all.subrange(0, i as int));
        assert(next.last() == all[i as int]);
        assert(all[i as int] == (borrows@[i as int].region, borrows@[i as int].place@));
        let region = borrows[i].region;
        let d = compute_definite(body, &borrows[i].place);
        r.set(region, d);
        i += 1;
    }
    assert(all.subrange(0, borrows.len() as int) =~= all);
    r
}

/// Whether `place` is a loan of region `r` before anything is propagated:
/// a place borrowed under `r`, or the target of an argument that is a
/// reference with region `r`.
pub open spec fn seed(body: &Body, borrows: Seq<(Region, PlaceView)>, r: int, place: PlaceView) -> bool {
    ||| exists|i: int| 0 <= i < borrows.len() && borrows[i] == (r as usize, place)
    ||| exists|l: int| arg_seed(body, l, r, place)
}

/// Whether local `l` is an argument of reference type with region `r`, and
/// `place` what it points to.
pub open spec fn arg_seed(body: &Body, l: int, r: int, place: PlaceView) -> bool {
    &&& 0 <= l < body.local_decls.len()
    &&& body.arg(l as usize)
    &&& place == PlaceView::of_local(l as usize).deref()
    &&& match body.ref_of(body.local_decls@[l]) {
        Some((region, pointee)) => region == r,
        None => false,
    }
}

/// Whether each set of `sets` holds no place twice.
pub open spec fn all_distinct(sets: Seq<Vec<Place>>) -> bool {
    forall|r: int| 0 <= r < sets.len() ==> views(#[trigger] sets[r]@).no_duplicates()
}

/// Adds `place` to the set of region `r`, and says whether it was new.
pub fn insert_loan(sets: &mut Vec<Vec<Place>>, r: usize, place: Place) -> (added: bool)
    requires
        r < old(sets)@.len(),
    ensures
        final(sets)@.len() == old(sets)@.len(),
        forall|x: int| 0 <= x < old(sets)@.len() && x != r ==> final(sets)@[x] == old(sets)@[x],
        added == !views(old(sets)@[r as int]@).contains(place@),
        views(final(sets)@[r as int]@) == if added {
            views(old(sets)@[r as int]@).push(place@)
        } else {
            views(old(sets)@[r as int]@)
        },
        all_distinct(old(sets)@) ==> all_distinct(final(sets)@),
{
    let ghost before = sets@;
    let added = insert_place(&mut sets[r], place);
    proof {
        if all_distinct(before) {
            assert forall|x: int| 0 <= x < sets@.len() implies views(
                #[trigger] sets@[x]@,
            ).no_duplicates() by {
                if x != r {
                    assert(sets@[x] == before[x]);
                }
                assert(views(before[x]@).no_duplicates());
            }
        }
    }
    added
}

/// Whether every reference type of an argument names a region below `n`.
pub open spec fn args_in_range(body: &Body, n: nat) -> bool {
    forall|l: int|
        0 <= l < body.local_decls.len() && body.arg(l as usize) ==> match body.ref_of(
            #[trigger] body.local_decls@[l],
        ) {
            Some((region, pointee)) => region < n,
            None => true,
        }
}

/// The loans that each region below `n` starts with.
pub fn seed_loans(body: &Body, borrows: &Vec<Borrow>, n: usize) -> (sets: Vec<Vec<Place>>)
    requires
        borrows_in_range(borrow_views(borrows@), n as nat),
        args_in_range(body, n as nat),
    ensures
        sets@.len() == n,
        all_distinct(sets@),
        forall|r: int, p: PlaceView|
            0 <= r < n ==> (#[trigger] views(sets@[r]@).contains(p) <==> seed(
                body,
                borrow_views(borrows@),
                r,
                p,
            )),
{
    let mut sets: Vec<Vec<Place>> = Vec::new();
    let mut x: usize = 0;
    while x < n
        invariant
            x <= n,
            sets@.len() == x,
            forall|y: int| 0 <= y < x ==> (#[trigger] sets@[y])@.len() == 0,
        decreases n - x,
    {
        sets.push(Vec::new());
        x += 1;
    }
    let ghost all = borrow_views(borrows@);
    let mut i: usize = 0;
    while i < borrows.len()
        invariant
            i <= borrows.len(),
            all == borrow_views(borrows@),
            borrows_in_range(all, n as nat),
            sets@.len() == n,
            all_distinct(sets@),
            forall|r: int, p: PlaceView|
                0 <= r < n ==> (#[trigger] views(sets@[r]@).contains(p) <==> exists|k: int|
                    0 <= k < i && all[k] == (r as usize, p)),
        decreases borrows.len() - i,
    {
        let ghost before = sets@;
        let region = borrows[i].region;
        let place = borrows[i].place.clone();
        assert(all[i as int] == (region, place@));
        insert_loan(&mut sets, region, place);
        proof {
            assert forall|r: int, p: PlaceView| 0 <= r < n implies (#[trigger] views(
                sets@[r]@,
            ).contains(p) <==> exists|k: int| 0 <= k < i + 1 && all[k] == (r as usize, p)) by {
                if r != region {
                    assert(sets@[r] == before[r]);
                }
                if views(sets@[r]@).contains(p) {
                    if views(before[r]@).contains(p) {
                        let k = choose|k: int| 0 <= k < i && all[k] == (r as usize, p);
                        assert(0 <= k < i + 1 && all[k] == (r as usize, p));
                    } else {
                        assert(r == region && p == place@);
                        assert(all[i as int] == (r as usize, p));
                    }
                }
                if exists|k: int| 0 <= k < i + 1 && all[k] == (r as usize, p) {
                    let k = choose|k: int| 0 <= k < i + 1 && all[k] == (r as usize, p);
                    if k < i {
                        assert(views(before[r]@).contains(p));
                    } else {
                        assert(r == region && p == place@);
                        assert(views(before[r]@).push(p).last() == p);
                    }
                    if r == region {
                        if views(before[r]@).contains(p) {
                            let w = choose|w: int|
                                0 <= w < views(before[r]@).len() && views(before[r]@)[w] == p;
                            assert(views(sets@[r]@)[w] == p);
                        }
                    }
                }
            }
        }
        i += 1;
    }
    let mut l: usize = 0;
    while l < body.local_decls.len()
        invariant
            l <= body.local_decls.len(),
            all == borrow_views(borrows@),
            args_in_range(body, n as nat),
            sets@.len() == n,
            all_distinct(sets@),
            forall|r: int, p: PlaceView|
                0 <= r < n ==> (#[trigger] views(sets@[r]@).contains(p) <==> ((exists|k: int|
                    0 <= k < all.len() && all[k] == (r as usize, p)) || (exists|a: int|
                    0 <= a < l && arg_seed(body, a, r, p)))),
        decreases body.local_decls.len() - l,
    {
        let ghost before = sets@;
        if body.is_arg(l) {
            match body.ref_parts(body.local_decls[l]) {
                Some((region, _)) => {
                    let target = Place::from_local(l).deref_place();
                    insert_loan(&mut sets, region, target);
                    proof {
                        assert forall|r: int, p: PlaceView| 0 <= r < n implies (#[trigger] views(
                            sets@[r]@,
                        ).contains(p) <==> ((exists|k: int|
                            0 <= k < all.len() && all[k] == (r as usize, p)) || (exists|a: int|
                            0 <= a < l + 1 && arg_seed(body, a, r, p)))) by {
                            if r != region {
                                assert(sets@[r] == before[r]);
                            }
                            let old_side = (exists|k: int|
                                0 <= k < all.len() && all[k] == (r as usize, p)) || (exists|a: int|
                                0 <= a < l && arg_seed(body, a, r, p));
                            assert(views(before[r]@).contains(p) <==> old_side);
                            if views(sets@[r]@).contains(p) && !views(before[r]@).contains(p) {
                                assert(r == region && p == target@);
                                assert(arg_seed(body, l as int, r, p));
                            }
                            if exists|a: int| 0 <= a < l + 1 && arg_seed(body, a, r, p) {
                                let a = choose|a: int| 0 <= a < l + 1 && arg_seed(body, a, r, p);
                                if a == l {
                                    assert(r == region && p == target@);
                                    assert(views(before[r]@).push(p).last() == p);
                                }
                            }
                            if views(before[r]@).contains(p) && r == region {
                                let w = choose|w: int|
                                    0 <= w < views(before[r]@).len() && views(before[r]@)[w] == p;
                                assert(views(sets@[r]@)[w] == p);
                            }
                        }
                    }
                },
                None => {
                    assert(forall|r: int, p: PlaceView| !arg_seed(body, l as int, r, p));
                },
            }
        } else {
            assert(forall|r: int, p: PlaceView| !arg_seed(body, l as int, r, p));
        }
        l += 1;
    }
    proof {
        assert forall|r: int, p: PlaceView| 0 <= r < n implies (#[trigger] views(
            sets@[r]@,
        ).contains(p) <==> seed(body, all, r, p)) by {
            if exists|a: int| arg_seed(body, a, r, p) {
                let a = choose|a: int| arg_seed(body, a, r, p);
                assert(0 <= a < body.local_decls.len() && arg_seed(body, a, r, p));
            }
        }
    }
    sets
}

} // verus!
