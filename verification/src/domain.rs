//! The places that a body speaks of: the domain over which facts about
//! places are kept.

use vstd::prelude::*;
use crate::body::{
    collect_operand_places, collect_rvalue_places, field_places, operand_places, project_fields,
    rvalue_places, BasicBlock, Body, Rvalue, Statement, Terminator, TyKind,
};
use crate::place::{Place, PlaceView, views};

verus! {

/// The place of each of the first `n` locals.
pub open spec fn local_places(n: nat) -> Seq<PlaceView> {
    Seq::new(n, |l: int| PlaceView::of_local(l as usize))
}

/// What each of the pointers points to.
pub open spec fn targets(pointers: Seq<PlaceView>) -> Seq<PlaceView> {
    pointers.map_values(|p: PlaceView| p.deref())
}

/// What the pointers inside each of the arguments point to.
pub open spec fn arg_targets(body: &Body, args: Seq<PlaceView>) -> Seq<PlaceView>
    decreases args.len(),
{
    if args.len() == 0 {
        Seq::empty()
    } else {
        arg_targets(body, args.drop_last()) + targets(body.pointer_places(args.last(), false))
    }
}

/// What an assignment of `rvalue` to `dst` brings forth beside the places it
/// names: the target of `dst` where a reference is stored, the fields of
/// `dst` where a struct is built.
pub open spec fn assigned_places(body: &Body, dst: PlaceView, rvalue: Rvalue) -> Seq<PlaceView> {
    match rvalue {
        Rvalue::Ref { region, place } => seq![dst.deref()],
        Rvalue::Aggregate { ty, operands } => match body.struct_fields_of(ty) {
            Some(tys) => field_places(dst, tys),
            None => Seq::empty(),
        },
        _ => Seq::empty(),
    }
}

/// The places of a statement: what is assigned, what is read, and what the
/// assignment brings forth.
pub open spec fn statement_places(body: &Body, stmt: Statement) -> Seq<PlaceView> {
    match stmt {
        Statement::Assign { place, rvalue } => seq![place@] + rvalue_places(rvalue)
            + assigned_places(body, place@, rvalue),
        Statement::Other => Seq::empty(),
    }
}

/// The places of a terminator: the arguments and the destination of a call,
/// and what the pointers inside the arguments point to.
pub open spec fn terminator_places(body: &Body, terminator: Terminator) -> Seq<PlaceView> {
    match terminator {
        Terminator::Call { args, destination } => operand_places(args@) + seq![destination@]
            + arg_targets(body, operand_places(args@)),
        Terminator::Other => Seq::empty(),
    }
}

/// The places of a run of statements.
pub open spec fn statements_places(body: &Body, stmts: Seq<Statement>) -> Seq<PlaceView>
    decreases stmts.len(),
{
    if stmts.len() == 0 {
        Seq::empty()
    } else {
        statements_places(body, stmts.drop_last()) + statement_places(body, stmts.last())
    }
}

/// The places of the blocks, block by block.
pub open spec fn blocks_places(body: &Body, blocks: Seq<BasicBlock>) -> Seq<PlaceView>
    decreases blocks.len(),
{
    if blocks.len() == 0 {
        Seq::empty()
    } else {
        blocks_places(body, blocks.drop_last()) + statements_places(
            body,
            blocks.last().statements@,
        ) + terminator_places(body, blocks.last().terminator)
    }
}

/// Every place that the body speaks of, in the order of the body and with
/// repetitions: first each local, then the places of each instruction.
pub open spec fn body_places(body: &Body) -> Seq<PlaceView> {
    local_places(body.local_decls.len() as nat) + blocks_places(body, body.blocks@)
}

/// Moves the places of `more` to the end of `out`.
pub fn append_places(out: &mut Vec<Place>, more: Vec<Place>)
    ensures
        views(final(out)@) == views(old(out)@) + views(more@),
{
    let ghost start = views(out@);
    let mut i: usize = 0;
    assert(views(out@) =~= start + views(more@).subrange(0, 0));
    while i < more.len()
        invariant
            i <= more.len(),
            views(out@) == start + views(more@).subrange(0, i as int),
        decreases more.len() - i,
    {
        let ghost before = views(out@);
        out.push(more[i].clone());
        i += 1;
        assert(views(out@) =~= before.push(more@[i - 1]@));
        assert(views(out@) =~= start + views(more@).subrange(0, i as int));
    }
    assert(views(more@).subrange(0, more.len() as int) =~= views(more@));
}

/// What the pointers inside each of the arguments point to.
pub fn collect_arg_targets(body: &Body, args: &Vec<Place>) -> (r: Vec<Place>)
    ensures
        views(r@) == arg_targets(body, views(args@)),
{
    let mut r: Vec<Place> = Vec::new();
    let ghost all = views(args@);
    let mut i: usize = 0;
    assert(all.subrange(0, 0) =~= Seq::<PlaceView>::empty());
    assert(views(r@) =~= Seq::<PlaceView>::empty());
    while i < args.len()
        invariant
            i <= args.len(),
            all == views(args@),
            views(r@) == arg_targets(body, all.subrange(0, i as int)),
        decreases args.len() - i,
    {
        let ghost next = all.subrange(0, i + 1);
        assert(next.drop_last() =~= all.subrange(0, i as int));
        assert(next.last() == args@[i as int]@);
        let pointers = body.interior_pointers(&args[i], false);
        let mut found: Vec<Place> = Vec::new();
        let mut j: usize = 0;
        while j < pointers.len()
            invariant
                j <= pointers.len(),
                found@.len() == j,
                forall|k: int| 0 <= k < j ==> (#[trigger] found@[k])@ == pointers@[k]@.deref(),
            decreases pointers.len() - j,
        {
            found.push(pointers[j].deref_place());
            j += 1;
        }
        assert(views(found@) =~= targets(views(pointers@)));
        append_places(&mut r, found);
        i += 1;
    }
    assert(all.subrange(0, args.len() as int) =~= all);
    r
}

/// The places of a statement.
pub fn collect_statement_places(body: &Body, stmt: &Statement) -> (r: Vec<Place>)
    ensures
        views(r@) == statement_places(body, *stmt),
{
    let mut r: Vec<Place> = Vec::new();
    match stmt {
        Statement::Assign { place, rvalue } => {
            r.push(place.clone());
            assert(views(r@) =~= seq![place@]);
            append_places(&mut r, collect_rvalue_places(rvalue));
            let mut more: Vec<Place> = Vec::new();
            assert(views(more@) =~= Seq::<PlaceView>::empty());
            match rvalue {
                Rvalue::Ref { region, place: borrowed } => {
                    more.push(place.deref_place());
                    assert(views(more@) =~= seq![place@.deref()]);
                },
                Rvalue::Aggregate { ty, operands } => {
                    if *ty < body.types.len() {
                        match &body.types[*ty] {
                            TyKind::Struct { fields } => {
                                more = project_fields(place, fields);
                            },
                            _ => {},
                        }
                    }
                },
                _ => {},
            }
            append_places(&mut r, more);
        },
        Statement::Other => {
            assert(views(r@) =~= Seq::<PlaceView>::empty());
        },
    }
    r
}

/// The places of a terminator.
pub fn collect_terminator_places(body: &Body, terminator: &Terminator) -> (r: Vec<Place>)
    ensures
        views(r@) == terminator_places(body, *terminator),
{
    match terminator {
        Terminator::Call { args, destination } => {
            let read = collect_operand_places(args);
            let mut r: Vec<Place> = Vec::new();
            assert(views(r@) =~= Seq::<PlaceView>::empty());
            let behind = collect_arg_targets(body, &read);
            append_places(&mut r, read);
            let mut one: Vec<Place> = Vec::new();
            one.push(destination.clone());
            assert(views(one@) =~= seq![destination@]);
            append_places(&mut r, one);
            append_places(&mut r, behind);
            assert(views(r@) =~= operand_places(args@) + seq![destination@] + arg_targets(
                body,
                operand_places(args@),
            ));
            r
        },
        Terminator::Other => {
            let r: Vec<Place> = Vec::new();
            assert(views(r@) =~= Seq::<PlaceView>::empty());
            r
        },
    }
}

/// Every place that the body speaks of, in the order of the body and with
/// repetitions.
pub fn find_places(body: &Body) -> (r: Vec<Place>)
    ensures
        views(r@) == body_places(body),
{
    let mut r: Vec<Place> = Vec::new();
    let mut l: usize = 0;
    while l < body.local_decls.len()
        invariant
            l <= body.local_decls.len(),
            r@.len() == l,
            forall|k: int| 0 <= k < l ==> (#[trigger] r@[k])@ == PlaceView::of_local(k as usize),
        decreases body.local_decls.len() - l,
    {
        r.push(Place::from_local(l));
        l += 1;
    }
    let ghost locals = local_places(body.local_decls.len() as nat);
    assert(views(r@) =~= locals);
    let mut bi: usize = 0;
    assert(body.blocks@.subrange(0, 0) =~= Seq::<BasicBlock>::empty());
    assert(views(r@) =~= locals + Seq::<PlaceView>::empty());
    while bi < body.blocks.len()
        invariant
            bi <= body.blocks.len(),
            locals == local_places(body.local_decls.len() as nat),
            views(r@) == locals + blocks_places(body, body.blocks@.subrange(0, bi as int)),
        decreases body.blocks.len() - bi,
    {
        let block = &body.blocks[bi];
        let ghost done = views(r@);
        let ghost earlier = blocks_places(body, body.blocks@.subrange(0, bi as int));
        let ghost next_blocks = body.blocks@.subrange(0, bi + 1);
        assert(next_blocks.drop_last() =~= body.blocks@.subrange(0, bi as int));
        assert(next_blocks.last() == body.blocks@[bi as int]);
        let mut si: usize = 0;
        assert(block.statements@.subrange(0, 0) =~= Seq::<Statement>::empty());
        assert(views(r@) =~= done + Seq::<PlaceView>::empty());
        while si < block.statements.len()
            invariant
                si <= block.statements.len(),
                views(r@) == done + statements_places(
                    body,
                    block.statements@.subrange(0, si as int),
                ),
            decreases block.statements.len() - si,
        {
            let ghost sofar = statements_places(body, block.statements@.subrange(0, si as int));
            let ghost next = block.statements@.subrange(0, si + 1);
            assert(next.drop_last() =~= block.statements@.subrange(0, si as int));
            assert(next.last() == block.statements@[si as int]);
            let found = collect_statement_places(body, &block.statements[si]);
            append_places(&mut r, found);
            assert(views(r@) =~= done + (sofar + statement_places(
                body,
                block.statements@[si as int],
            )));
            si += 1;
        }
        assert(block.statements@.subrange(0, block.statements.len() as int)
            =~= block.statements@);
        let ghost in_block = statements_places(body, block.statements@);
        let found = collect_terminator_places(body, &block.terminator);
        append_places(&mut r, found);
        assert(views(r@) =~= locals + (earlier + in_block + terminator_places(
            body,
            block.terminator,
        )));
        bi += 1;
    }
    assert(body.blocks@.subrange(0, body.blocks.len() as int) =~= body.blocks@);
    r
}

} // verus!
