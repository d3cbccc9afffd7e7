//! What each instruction mutates: a description, for an assignment or a
//! call, of the places that are written, how surely, and from which inputs.
//! A call is summarised from its arguments alone; its body is not looked at.

use vstd::prelude::*;
use crate::aliases::{earlier, is_location, Aliases};
use crate::body::{
    collect_operand_places, collect_rvalue_places, operand_place, operand_places, rvalue_places, Body, Location, Operand, Rvalue, Statement, Terminator, TyKind,
};
use crate::order::{lemma_sorted_unique, place_lt, sorted};
use crate::place::{clone_places, Place, PlaceElem, PlaceView, Ty, views};

verus! {

/// How sure it is that a place is mutated.
#[derive(Debug, PartialEq, Eq, Clone, Copy, Hash, Structural)]
pub enum MutationStatus {
    /// The old value of the place is overwritten, as that of `x` by `x = y`.
    Definitely,
    /// The place may be written, as `x` may be by `f(&mut x)`.
    Possibly,
}

/// One mutation.
#[derive(Debug, PartialEq, Eq)]
pub struct Mutation {
    /// The place that is mutated.
    pub mutated: Place,
    /// The places that flow into it.
    pub inputs: Vec<Place>,
    /// How sure the mutation is.
    pub status: MutationStatus,
}

/// The mathematical value of a [`Mutation`].
pub struct MutationView {
    pub mutated: PlaceView,
    pub inputs: Seq<PlaceView>,
    pub status: MutationStatus,
}

impl View for Mutation {
    type V = MutationView;

    open spec fn view(&self) -> MutationView {
        MutationView {
            mutated: self.mutated@,
            inputs: views(self.inputs@),
            status: self.status,
        }
    }
}

/// The values of a batch of mutations.
pub open spec fn mutation_views(batch: Seq<Mutation>) -> Seq<MutationView> {
    batch.map_values(|m: Mutation| m@)
}

/// Field `i`, of type `ty`, of `place`.
pub open spec fn field_of(place: PlaceView, i: int, ty: Ty) -> PlaceView {
    place.extend(seq![PlaceElem::Field(i as usize, ty)])
}

/// The inputs that an operand gives: its place, if it reads one.
pub open spec fn operand_inputs(op: Operand) -> Seq<PlaceView> {
    match operand_place(op) {
        Some(p) => seq![p],
        None => Seq::empty(),
    }
}

/// One sure mutation for each field that has an operand: the field of `dst`
/// from the operand.
pub open spec fn aggregate_batch(dst: PlaceView, tys: Seq<Ty>, ops: Seq<Operand>) -> Seq<
    MutationView,
> {
    Seq::new(
        if tys.len() <= ops.len() {
            tys.len()
        } else {
            ops.len()
        },
        |i: int|
            MutationView {
                mutated: field_of(dst, i, tys[i]),
                inputs: operand_inputs(ops[i]),
                status: MutationStatus::Definitely,
            },
    )
}

/// One sure mutation for each field: the field of `dst` from the same field
/// of `src`.
pub open spec fn copy_batch(dst: PlaceView, src: PlaceView, tys: Seq<Ty>) -> Seq<MutationView> {
    Seq::new(
        tys.len(),
        |i: int|
            MutationView {
                mutated: field_of(dst, i, tys[i]),
                inputs: seq![field_of(src, i, tys[i])],
                status: MutationStatus::Definitely,
            },
    )
}

/// One sure mutation of `dst` from every place that `rvalue` reads.
pub open spec fn whole_batch(dst: PlaceView, rvalue: Rvalue) -> Seq<MutationView> {
    seq![
        MutationView {
            mutated: dst,
            inputs: rvalue_places(rvalue),
            status: MutationStatus::Definitely,
        },
    ]
}

/// The field types by which an assignment of `rvalue` is taken apart, and
/// the place that is copied field by field, if it is a copy: the fields of
/// the struct or tuple that is built, where it has fields and operands, or
/// the fields of the struct that is copied or moved, where it has fields.
pub open spec fn taken_apart(body: &Body, rvalue: Rvalue) -> Option<(Seq<Ty>, Option<PlaceView>)> {
    match rvalue {
        Rvalue::Aggregate { ty, operands } => match body.fields_of(ty) {
            Some(tys) => if tys.len() > 0 && operands@.len() > 0 {
                Some((tys, None))
            } else {
                None
            },
            None => None,
        },
        Rvalue::Use(op) => match operand_place(op) {
            Some(src) => match body.ty_of(src) {
                Some(ty) => match body.struct_fields_of(ty) {
                    Some(tys) => if tys.len() > 0 {
                        Some((tys, Some(src)))
                    } else {
                        None
                    },
                    None => None,
                },
                None => None,
            },
            None => None,
        },
        _ => None,
    }
}

/// The mutations of the assignment of `rvalue` to `dst`.
pub open spec fn assign_batch(body: &Body, dst: PlaceView, rvalue: Rvalue) -> Seq<MutationView> {
    match taken_apart(body, rvalue) {
        Some((tys, Some(src))) => copy_batch(dst, src, tys),
        Some((tys, None)) => match rvalue {
            Rvalue::Aggregate { ty, operands } => aggregate_batch(dst, tys, operands@),
            _ => whole_batch(dst, rvalue),
        },
        None => whole_batch(dst, rvalue),
    }
}

/// The places of `places` that are real inputs: not of the context type of
/// a suspend point.
pub open spec fn visible(body: &Body, places: Seq<PlaceView>) -> Seq<PlaceView>
    decreases places.len(),
{
    if places.len() == 0 {
        Seq::empty()
    } else {
        let init = visible(body, places.drop_last());
        if body.hidden(places.last()) {
            init
        } else {
            init.push(places.last())
        }
    }
}

/// The places that a call passes as arguments.
pub open spec fn arg_places(body: &Body, args: Seq<Operand>) -> Seq<PlaceView> {
    visible(body, operand_places(args))
}

/// Whether the call may write `x` through the argument `arg`: `x` is
/// concrete storage behind a pointer inside `arg`, and not `arg` itself.
pub open spec fn possibly(engine: &Aliases, arg: PlaceView, x: PlaceView) -> bool {
    x != arg && engine.is_reachable(arg, false, x)
}

/// Whether a record after the first mutates `x`.
pub open spec fn mutates(batch: Seq<MutationView>, x: PlaceView) -> bool {
    exists|i: int| 1 <= i < batch.len() && batch[i].mutated == x
}

/// Whether some argument may be written through to reach `x`.
pub open spec fn through_some(engine: &Aliases, inputs: Seq<PlaceView>, upto: int, x: PlaceView) -> bool {
    exists|k: int| 0 <= k < upto && k < inputs.len() && possibly(engine, inputs[k], x)
}

/// What the call writes for sure: its destination, from all arguments, or
/// from nothing where the destination carries no data.
pub open spec fn call_result(body: &Body, args: Seq<Operand>, destination: PlaceView) -> MutationView {
    MutationView {
        mutated: destination,
        inputs: match body.ty_of(destination) {
            Some(ty) => if body.unit(ty) {
                Seq::empty()
            } else {
                arg_places(body, args)
            },
            None => arg_places(body, args),
        },
        status: MutationStatus::Definitely,
    }
}

/// Whether `s` lists, in rising order, the places that the call may write
/// through `arg`.
pub open spec fn lists_targets(engine: &Aliases, arg: PlaceView, s: Seq<PlaceView>) -> bool {
    sorted(s) && forall|x: PlaceView| #[trigger] s.contains(x) <==> possibly(engine, arg, x)
}

/// The places that the call may write through `arg`, in rising order.
pub open spec fn possible_targets(engine: &Aliases, arg: PlaceView) -> Seq<PlaceView> {
    choose|s: Seq<PlaceView>| lists_targets(engine, arg, s)
}

/// The possible mutation of `x` by a call with these inputs.
pub open spec fn possibly_record(inputs: Seq<PlaceView>, x: PlaceView) -> MutationView {
    MutationView { mutated: x, inputs, status: MutationStatus::Possibly }
}

/// The possible mutation of each of `targets` by a call with these inputs.
pub open spec fn possible_batch(inputs: Seq<PlaceView>, targets: Seq<PlaceView>) -> Seq<
    MutationView,
> {
    Seq::new(targets.len(), |i: int| possibly_record(inputs, targets[i]))
}

/// What the call may write through the first `upto` of its arguments:
/// argument by argument, the places behind it in rising order.
pub open spec fn possible_records(engine: &Aliases, inputs: Seq<PlaceView>, upto: nat) -> Seq<
    MutationView,
>
    decreases upto,
{
    if upto == 0 || upto > inputs.len() {
        Seq::empty()
    } else {
        possible_records(engine, inputs, (upto - 1) as nat) + possible_batch(
            inputs,
            possible_targets(engine, inputs[upto - 1]),
        )
    }
}

/// The summary of a call: what it writes for sure, then what it may write
/// through each of its arguments.
pub open spec fn call_batch(engine: &Aliases, args: Seq<Operand>, destination: PlaceView) -> Seq<
    MutationView,
> {
    let inputs = arg_places(&engine.body, args);
    seq![call_result(&engine.body, args, destination)] + possible_records(
        engine,
        inputs,
        inputs.len(),
    )
}

/// Whether the places behind each of the first `upto` arguments are known
/// as a list.
pub open spec fn targets_known(engine: &Aliases, inputs: Seq<PlaceView>, upto: int) -> bool {
    forall|k: int|
        0 <= k < upto && k < inputs.len() ==> lists_targets(
            engine,
            #[trigger] inputs[k],
            possible_targets(engine, inputs[k]),
        )
}

proof fn lemma_records_describe(engine: &Aliases, inputs: Seq<PlaceView>, upto: nat)
    requires
        upto <= inputs.len(),
        targets_known(engine, inputs, upto as int),
    ensures
        forall|i: int|
            0 <= i < possible_records(engine, inputs, upto).len() ==> (#[trigger] possible_records(
                engine,
                inputs,
                upto,
            )[i]).status == MutationStatus::Possibly && possible_records(
                engine,
                inputs,
                upto,
            )[i].inputs == inputs && through_some(
                engine,
                inputs,
                upto as int,
                possible_records(engine, inputs, upto)[i].mutated,
            ),
        forall|x: PlaceView| #[trigger]
            through_some(engine, inputs, upto as int, x) ==> exists|i: int|
                0 <= i < possible_records(engine, inputs, upto).len() && possible_records(
                    engine,
                    inputs,
                    upto,
                )[i].mutated == x,
    decreases upto,
{
    if upto > 0 {
        let k = (upto - 1) as nat;
        lemma_records_describe(engine, inputs, k);
        let earlier = possible_records(engine, inputs, k);
        let targets = possible_targets(engine, inputs[k as int]);
        let here = possible_batch(inputs, targets);
        let all = possible_records(engine, inputs, upto);
        assert(all == earlier + here);
        assert(lists_targets(engine, inputs[k as int], targets));
        assert forall|i: int| 0 <= i < all.len() implies (#[trigger] all[i]).status
            == MutationStatus::Possibly && all[i].inputs == inputs && through_some(
            engine,
            inputs,
            upto as int,
            all[i].mutated,
        ) by {
            if i < earlier.len() {
                assert(all[i] == earlier[i]);
                let w = choose|w: int|
                    0 <= w < k && w < inputs.len() && possibly(engine, inputs[w], earlier[i].mutated);
                assert(0 <= w < upto && w < inputs.len() && possibly(
                    engine,
                    inputs[w],
                    all[i].mutated,
                ));
            } else {
                let j = i - earlier.len();
                assert(all[i] == here[j]);
                assert(targets.contains(targets[j]));
                assert(0 <= k < upto && k < inputs.len() && possibly(
                    engine,
                    inputs[k as int],
                    all[i].mutated,
                ));
            }
        }
        assert forall|x: PlaceView| #[trigger]
            through_some(engine, inputs, upto as int, x) implies exists|i: int|
            0 <= i < all.len() && all[i].mutated == x by {
            let w = choose|w: int| 0 <= w < upto && w < inputs.len() && possibly(engine, inputs[w], x);
            if w < k {
                assert(through_some(engine, inputs, k as int, x));
                let i = choose|i: int| 0 <= i < earlier.len() && earlier[i].mutated == x;
                assert(all[i].mutated == x);
            } else {
                assert(targets.contains(x));
                let j = choose|j: int| 0 <= j < targets.len() && targets[j] == x;
                assert(all[earlier.len() + j] == here[j]);
                assert(all[earlier.len() + j].mutated == x);
            }
        }
    }
}

/// Whether `batch` is the summary of a call: first what it writes for sure,
/// then one possible mutation, with all arguments as inputs, of each place
/// that it may write through an argument, and of nothing else.
pub open spec fn is_call_batch(
    engine: &Aliases,
    args: Seq<Operand>,
    destination: PlaceView,
    batch: Seq<MutationView>,
) -> bool {
    let inputs = arg_places(&engine.body, args);
    &&& batch.len() > 0
    &&& batch[0] == call_result(&engine.body, args, destination)
    &&& forall|i: int|
        1 <= i < batch.len() ==> (#[trigger] batch[i]).status == MutationStatus::Possibly
            && batch[i].inputs == inputs && through_some(
            engine,
            inputs,
            inputs.len() as int,
            batch[i].mutated,
        )
    &&& forall|x: PlaceView| #[trigger]
        through_some(engine, inputs, inputs.len() as int, x) ==> mutates(batch, x)
}

/// Whether the instruction at `loc` is an assignment or a call.
pub open spec fn writes_at(body: &Body, loc: Location) -> bool {
    &&& is_location(body, loc)
    &&& if loc.statement_index < body.blocks@[loc.block as int].statements.len() {
        body.blocks@[loc.block as int].statements@[loc.statement_index as int] is Assign
    } else {
        body.blocks@[loc.block as int].terminator is Call
    }
}

/// Whether `batch` describes the instruction at `loc`.
pub open spec fn batch_at(engine: &Aliases, loc: Location, batch: Seq<MutationView>) -> bool {
    &&& is_location(&engine.body, loc)
    &&& if loc.statement_index < engine.body.blocks@[loc.block as int].statements.len() {
        match engine.body.blocks@[loc.block as int].statements@[loc.statement_index as int] {
            Statement::Assign { place, rvalue } => batch == assign_batch(
                &engine.body,
                place@,
                rvalue,
            ),
            Statement::Other => false,
        }
    } else {
        match engine.body.blocks@[loc.block as int].terminator {
            Terminator::Call { args, destination } => batch == call_batch(
                engine,
                args@,
                destination@,
            ),
            Terminator::Other => false,
        }
    }
}

/// The places of `places` that are real inputs.
pub fn visible_places(body: &Body, places: &Vec<Place>) -> (r: Vec<Place>)
    ensures
        views(r@) == visible(body, views(places@)),
{
    let mut r: Vec<Place> = Vec::new();
    let ghost all = views(places@);
    let mut i: usize = 0;
    assert(all.subrange(0, 0) =~= Seq::<PlaceView>::empty());
    assert(views(r@) =~= Seq::<PlaceView>::empty());
    while i < places.len()
        invariant
            i <= places.len(),
            all == views(places@),
            views(r@) == visible(body, all.subrange(0, i as int)),
        decreases places.len() - i,
    {
        let ghost before = views(r@);
        let ghost next = all.subrange(0, i + 1);
        assert(next.drop_last() =~= all.subrange(0, i as int));
        assert(next.last() == places@[i as int]@);
        if !body.ignore_place(&places[i]) {
            r.push(places[i].clone());
            assert(views(r@) =~= before.push(places@[i as int]@));
        }
        i += 1;
    }
    assert(all.subrange(0, places.len() as int) =~= all);
    r
}

/// Walks over the instructions of a body and describes what each mutates.
pub struct ModularMutationVisitor<'a> {
    pub aliases: &'a Aliases,
}

impl<'a> ModularMutationVisitor<'a> {
    /// A visitor that asks `aliases`.
    pub fn new(aliases: &'a Aliases) -> (r: ModularMutationVisitor<'a>)
        ensures
            r.aliases == aliases,
    {
        ModularMutationVisitor { aliases }
    }

    fn aggregate(&self, dst: &Place, tys: &Vec<Ty>, ops: &Vec<Operand>) -> (r: Vec<Mutation>)
        ensures
            mutation_views(r@) == aggregate_batch(dst@, tys@, ops@),
    {
        let count = if tys.len() <= ops.len() {
            tys.len()
        } else {
            ops.len()
        };
        let mut r: Vec<Mutation> = Vec::new();
        let mut i: usize = 0;
        while i < count
            invariant
                i <= count,
                count <= tys.len(),
                count <= ops.len(),
                r@.len() == i,
                forall|j: int| 0 <= j < i ==> r@[j]@ == aggregate_batch(dst@, tys@, ops@)[j],
            decreases count - i,
        {
            let mut inputs: Vec<Place> = Vec::new();
            match ops[i].as_place() {
                Some(p) => {
                    inputs.push(p);
                    assert(views(inputs@) =~= seq![p@]);
                },
                None => {
                    assert(views(inputs@) =~= Seq::<PlaceView>::empty());
                },
            }
            let mutated = dst.project(PlaceElem::Field(i, tys[i]));
            r.push(Mutation { mutated, inputs, status: MutationStatus::Definitely });
            i += 1;
        }
        assert(mutation_views(r@) =~= aggregate_batch(dst@, tys@, ops@));
        r
    }

    fn copy_fields(&self, dst: &Place, src: &Place, tys: &Vec<Ty>) -> (r: Vec<Mutation>)
        ensures
            mutation_views(r@) == copy_batch(dst@, src@, tys@),
    {
        let mut r: Vec<Mutation> = Vec::new();
        let mut i: usize = 0;
        while i < tys.len()
            invariant
                i <= tys.len(),
                r@.len() == i,
                forall|j: int| 0 <= j < i ==> r@[j]@ == copy_batch(dst@, src@, tys@)[j],
            decreases tys.len() - i,
        {
            let field = PlaceElem::Field(i, tys[i]);
            let mut inputs: Vec<Place> = Vec::new();
            let input = src.project(field);
            inputs.push(input);
            assert(views(inputs@) =~= seq![input@]);
            let mutated = dst.project(field);
            r.push(Mutation { mutated, inputs, status: MutationStatus::Definitely });
            i += 1;
        }
        assert(mutation_views(r@) =~= copy_batch(dst@, src@, tys@));
        r
    }

    fn whole(&self, dst: &Place, rvalue: &Rvalue) -> (r: Vec<Mutation>)
        ensures
            mutation_views(r@) == whole_batch(dst@, *rvalue),
    {
        let mut r: Vec<Mutation> = Vec::new();
        let inputs = collect_rvalue_places(rvalue);
        r.push(Mutation { mutated: dst.clone(), inputs, status: MutationStatus::Definitely });
        assert(mutation_views(r@) =~= whole_batch(dst@, *rvalue));
        r
    }

    /// The mutations of the assignment of `rvalue` to `mutated`. A struct or
    /// tuple that is built field by field is taken apart: each field of
    /// `mutated` is mutated from its operand. So is a struct that is copied
    /// or moved as a whole: each field from the same field of the source.
    /// Any other assignment mutates `mutated` from every place that the
    /// right-hand side reads.
    pub fn visit_assign(&self, mutated: &Place, rvalue: &Rvalue) -> (r: Vec<Mutation>)
        ensures
            mutation_views(r@) == assign_batch(&self.aliases.body, mutated@, *rvalue),
            r@.len() > 0,
            forall|i: int| 0 <= i < r@.len() ==> (#[trigger] r@[i]).status == MutationStatus::Definitely,
    {
        let body = &self.aliases.body;
        let r = match rvalue {
            Rvalue::Aggregate { ty, operands } => {
                if *ty < body.types.len() && operands.len() > 0 {
                    match &body.types[*ty] {
                        TyKind::Struct { fields } => {
                            if fields.len() > 0 {
                                self.aggregate(mutated, fields, operands)
                            } else {
                                self.whole(mutated, rvalue)
                            }
                        },
                        TyKind::Tuple { fields } => {
                            if fields.len() > 0 {
                                self.aggregate(mutated, fields, operands)
                            } else {
                                self.whole(mutated, rvalue)
                            }
                        },
                        _ => self.whole(mutated, rvalue),
                    }
                } else {
                    self.whole(mutated, rvalue)
                }
            },
            Rvalue::Use(op) => {
                let src = match op {
                    Operand::Copy(p) => Some(p),
                    Operand::Move(p) => Some(p),
                    Operand::Constant => None,
                };
                match src {
                    Some(src) => match body.place_ty(src) {
                        Some(ty) => {
                            if ty < body.types.len() {
                                match &body.types[ty] {
                                    TyKind::Struct { fields } => {
                                        if fields.len() > 0 {
                                            self.copy_fields(mutated, src, fields)
                                        } else {
                                            self.whole(mutated, rvalue)
                                        }
                                    },
                                    _ => self.whole(mutated, rvalue),
                                }
                            } else {
                                self.whole(mutated, rvalue)
                            }
                        },
                        None => self.whole(mutated, rvalue),
                    },
                    None => self.whole(mutated, rvalue),
                }
            },
            _ => self.whole(mutated, rvalue),
        };
        proof {
            assert forall|i: int| 0 <= i < r@.len() implies (#[trigger] r@[i]).status
                == MutationStatus::Definitely by {
                assert(mutation_views(r@)[i].status == MutationStatus::Definitely);
            }
            assert(mutation_views(r@).len() > 0);
        }
        r
    }

    /// The places that a call may write through `arg`, in rising order.
    fn call_targets(&self, arg: &Place) -> (r: Vec<Place>)
        ensures
            lists_targets(self.aliases, arg@, views(r@)),
            views(r@) == possible_targets(self.aliases, arg@),
    {
        let engine = self.aliases;
        let reach = engine.reachable_values(arg, false);
        let ghost seen = views(reach@);
        let mut r: Vec<Place> = Vec::new();
        let mut j: usize = 0;
        assert(views(r@) =~= Seq::<PlaceView>::empty());
        while j < reach.len()
            invariant
                j <= reach.len(),
                seen == views(reach@),
                sorted(seen),
                sorted(views(r@)),
                forall|x: PlaceView| #[trigger]
                    views(r@).contains(x) <==> (x != arg@ && exists|t: int|
                        0 <= t < j && seen[t] == x),
            decreases reach.len() - j,
        {
            let ghost before = views(r@);
            if !reach[j].equals(arg) {
                r.push(reach[j].clone());
                proof {
                    assert(seen[j as int] == reach@[j as int]@);
                    assert(views(r@) =~= before.push(seen[j as int]));
                    assert forall|a: int, b: int| 0 <= a < b < views(r@).len() implies place_lt(
                        views(r@)[a],
                        views(r@)[b],
                    ) by {
                        if b == before.len() {
                            assert(before.contains(before[a]));
                            let t = choose|t: int| 0 <= t < j && seen[t] == before[a];
                            assert(place_lt(seen[t], seen[j as int]));
                        } else {
                            assert(place_lt(before[a], before[b]));
                        }
                    }
                    assert forall|x: PlaceView| #[trigger]
                        views(r@).contains(x) <==> (x != arg@ && exists|t: int|
                            0 <= t < j + 1 && seen[t] == x) by {
                        crate::constraints::lemma_push_has(before, seen[j as int], x);
                        if exists|t: int| 0 <= t < j && seen[t] == x {
                            let t = choose|t: int| 0 <= t < j && seen[t] == x;
                            assert(0 <= t < j + 1 && seen[t] == x);
                        }
                        if x == seen[j as int] {
                            assert(0 <= j < j + 1 && seen[j as int] == x);
                        }
                        if exists|t: int| 0 <= t < j + 1 && seen[t] == x {
                            let t = choose|t: int| 0 <= t < j + 1 && seen[t] == x;
                            if t < j {
                                assert(exists|t: int| 0 <= t < j && seen[t] == x);
                            }
                        }
                    }
                }
            } else {
                proof {
                    assert(seen[j as int] == reach@[j as int]@);
                    assert forall|x: PlaceView| #[trigger]
                        views(r@).contains(x) <==> (x != arg@ && exists|t: int|
                            0 <= t < j + 1 && seen[t] == x) by {
                        if exists|t: int| 0 <= t < j && seen[t] == x {
                            let t = choose|t: int| 0 <= t < j && seen[t] == x;
                            assert(0 <= t < j + 1 && seen[t] == x);
                        }
                        if exists|t: int| 0 <= t < j + 1 && seen[t] == x {
                            let t = choose|t: int| 0 <= t < j + 1 && seen[t] == x;
                            if t < j {
                                assert(exists|t: int| 0 <= t < j && seen[t] == x);
                            }
                        }
                    }
                }
            }
            j += 1;
        }
        proof {
            assert forall|x: PlaceView| #[trigger]
                views(r@).contains(x) <==> possibly(engine, arg@, x) by {
                if seen.contains(x) {
                    let t = choose|t: int| 0 <= t < seen.len() && seen[t] == x;
                    assert(0 <= t < reach.len() && seen[t] == x);
                }
                if exists|t: int| 0 <= t < reach.len() && seen[t] == x {
                    let t = choose|t: int| 0 <= t < reach.len() && seen[t] == x;
                    assert(seen.contains(x));
                }
            }
            assert(lists_targets(engine, arg@, views(r@)));
            let chosen = possible_targets(engine, arg@);
            assert(lists_targets(engine, arg@, chosen));
            assert forall|x: PlaceView| chosen.contains(x) <==> views(r@).contains(x) by {
                assert(chosen.contains(x) <==> possibly(engine, arg@, x));
            }
            lemma_sorted_unique(chosen, views(r@));
        }
        r
    }

    /// The summary of a call: the destination is mutated for sure, from all
    /// arguments, or from nothing where it carries no data; and every place
    /// that can be reached through a pointer inside an argument, but for the
    /// argument itself, is possibly mutated, from all arguments. The
    /// possible mutations come argument by argument, in rising order of the
    /// places.
    pub fn visit_call(&self, args: &Vec<Operand>, destination: &Place) -> (r: Vec<Mutation>)
        ensures
            mutation_views(r@) == call_batch(self.aliases, args@, destination@),
            is_call_batch(self.aliases, args@, destination@, mutation_views(r@)),
    {
        let engine = self.aliases;
        let body = &engine.body;
        let read = collect_operand_places(args);
        let inputs = visible_places(body, &read);
        let ghost ins = arg_places(body, args@);
        let unit = match body.place_ty(destination) {
            Some(ty) => body.is_unit(ty),
            None => false,
        };
        let first_inputs = if unit {
            let none: Vec<Place> = Vec::new();
            assert(views(none@) =~= Seq::<PlaceView>::empty());
            none
        } else {
            clone_places(&inputs)
        };
        let mut r: Vec<Mutation> = Vec::new();
        r.push(
            Mutation {
                mutated: destination.clone(),
                inputs: first_inputs,
                status: MutationStatus::Definitely,
            },
        );
        let ghost first = call_result(body, args@, destination@);
        assert(mutation_views(r@) =~= seq![first] + Seq::<MutationView>::empty());
        let mut k: usize = 0;
        while k < inputs.len()
            invariant
                k <= inputs.len(),
                ins == views(inputs@),
                ins == arg_places(body, args@),
                body == &engine.body,
                engine == self.aliases,
                mutation_views(r@) == seq![first] + possible_records(engine, ins, k as nat),
                targets_known(engine, ins, k as int),
            decreases inputs.len() - k,
        {
            let targets = self.call_targets(&inputs[k]);
            let ghost before = mutation_views(r@);
            let ghost listed = views(targets@);
            let ghost earlier = possible_records(engine, ins, k as nat);
            proof {
                assert(ins[k as int] == inputs@[k as int]@);
            }
            let mut j: usize = 0;
            assert(before + possible_batch(ins, listed.subrange(0, 0)) =~= before);
            while j < targets.len()
                invariant
                    j <= targets.len(),
                    ins == views(inputs@),
                    listed == views(targets@),
                    mutation_views(r@) == before + possible_batch(
                        ins,
                        listed.subrange(0, j as int),
                    ),
                decreases targets.len() - j,
            {
                let ghost sofar = mutation_views(r@);
                let m = Mutation {
                    mutated: targets[j].clone(),
                    inputs: clone_places(&inputs),
                    status: MutationStatus::Possibly,
                };
                r.push(m);
                proof {
                    assert(m@ == possibly_record(ins, listed[j as int]));
                    assert(mutation_views(r@) =~= sofar.push(m@));
                    assert(sofar.push(m@) =~= before + possible_batch(
                        ins,
                        listed.subrange(0, j + 1),
                    ));
                }
                j += 1;
            }
            proof {
                assert(listed.subrange(0, targets.len() as int) =~= listed);
                assert(possible_records(engine, ins, (k + 1) as nat) == earlier + possible_batch(
                    ins,
                    possible_targets(engine, ins[k as int]),
                ));
                assert(mutation_views(r@) =~= seq![first] + possible_records(
                    engine,
                    ins,
                    (k + 1) as nat,
                ));
            }
            k += 1;
        }
        proof {
            lemma_records_describe(engine, ins, ins.len());
            let records = possible_records(engine, ins, ins.len());
            let batch = mutation_views(r@);
            assert(batch[0] == first);
            assert forall|i: int| 1 <= i < batch.len() implies (#[trigger] batch[i]).status
                == MutationStatus::Possibly && batch[i].inputs == ins && through_some(
                engine,
                ins,
                ins.len() as int,
                batch[i].mutated,
            ) by {
                assert(batch[i] == records[i - 1]);
            }
            assert forall|x: PlaceView| #[trigger]
                through_some(engine, ins, ins.len() as int, x) implies mutates(batch, x) by {
                let i = choose|i: int| 0 <= i < records.len() && records[i].mutated == x;
                assert(batch[i + 1] == records[i]);
                assert(1 <= i + 1 < batch.len() && batch[i + 1].mutated == x);
            }
        }
        r
    }

    /// The mutations of a terminator: the summary of a call, nothing for any
    /// other terminator.
    pub fn visit_terminator(&self, terminator: &Terminator) -> (r: Vec<Mutation>)
        ensures
            match *terminator {
                Terminator::Call { args, destination } => mutation_views(r@) == call_batch(
                    self.aliases,
                    args@,
                    destination@,
                ) && is_call_batch(self.aliases, args@, destination@, mutation_views(r@)),
                Terminator::Other => r@.len() == 0,
            },
    {
        match terminator {
            Terminator::Call { args, destination } => self.visit_call(args, destination),
            Terminator::Other => Vec::new(),
        }
    }

    /// The mutations of the instruction at `location`, where it is an
    /// assignment or a call.
    pub fn visit_location(&self, location: Location) -> (r: Option<Vec<Mutation>>)
        ensures
            match r {
                Some(batch) => batch_at(self.aliases, location, mutation_views(batch@)),
                None => !writes_at(&self.aliases.body, location),
            },
    {
        let body = &self.aliases.body;
        if location.block >= body.blocks.len() {
            return None;
        }
        let block = &body.blocks[location.block];
        if location.statement_index < block.statements.len() {
            match &block.statements[location.statement_index] {
                Statement::Assign { place, rvalue } => Some(self.visit_assign(place, rvalue)),
                Statement::Other => None,
            }
        } else if location.statement_index == block.statements.len() {
            match &block.terminator {
                Terminator::Call { args, destination } => Some(self.visit_call(args, destination)),
                Terminator::Other => None,
            }
        } else {
            None
        }
    }

    /// The mutations of the whole body: for every assignment and every call,
    /// in the order of the body, its program point and its mutations.
    pub fn visit_body(&self) -> (r: Vec<(Location, Vec<Mutation>)>)
        ensures
            forall|i: int|
                0 <= i < r@.len() ==> batch_at(
                    self.aliases,
                    (#[trigger] r@[i]).0,
                    mutation_views(r@[i].1@),
                ),
            forall|i: int, j: int| 0 <= i < j < r@.len() ==> earlier(r@[i].0, r@[j].0),
            forall|loc: Location|
                writes_at(&self.aliases.body, loc) ==> exists|i: int|
                    0 <= i < r@.len() && (#[trigger] r@[i]).0 == loc,
    {
        let body = &self.aliases.body;
        let mut r: Vec<(Location, Vec<Mutation>)> = Vec::new();
        let mut bi: usize = 0;
        while bi < body.blocks.len()
            invariant
                bi <= body.blocks.len(),
                body == &self.aliases.body,
                forall|i: int|
                    0 <= i < r@.len() ==> batch_at(
                        self.aliases,
                        (#[trigger] r@[i]).0,
                        mutation_views(r@[i].1@),
                    ) && r@[i].0.block < bi,
                forall|i: int, j: int| 0 <= i < j < r@.len() ==> earlier(r@[i].0, r@[j].0),
                forall|loc: Location|
                    writes_at(body, loc) && loc.block < bi ==> exists|i: int|
                        0 <= i < r@.len() && (#[trigger] r@[i]).0 == loc,
            decreases body.blocks.len() - bi,
        {
            let count = body.blocks[bi].statements.len();
            let mut si: usize = 0;
            let mut done = false;
            while !done
                invariant
                    si <= count,
                    bi < body.blocks.len(),
                    body == &self.aliases.body,
                    count == body.blocks@[bi as int].statements.len(),
                    forall|i: int|
                        0 <= i < r@.len() ==> batch_at(
                            self.aliases,
                            (#[trigger] r@[i]).0,
                            mutation_views(r@[i].1@),
                        ) && (r@[i].0.block < bi || (r@[i].0.block == bi && r@[i].0.statement_index
                            < si + if done {
                            1int
                        } else {
                            0int
                        })),
                    forall|i: int, j: int| 0 <= i < j < r@.len() ==> earlier(r@[i].0, r@[j].0),
                    forall|loc: Location|
                        writes_at(body, loc) && (loc.block < bi || (loc.block == bi
                            && loc.statement_index < si + if done {
                            1int
                        } else {
                            0int
                        })) ==> exists|i: int| 0 <= i < r@.len() && (#[trigger] r@[i]).0 == loc,
                    done ==> si == count,
                decreases
                        count - si + if done {
                            0int
                        } else {
                            1int
                        },
            {
                let here = Location { block: bi, statement_index: si };
                let ghost before = r@;
                match self.visit_location(here) {
                    Some(batch) => {
                        r.push((here, batch));
                        proof {
                            assert forall|loc: Location|
                                writes_at(body, loc) && (loc.block < bi || (loc.block == bi
                                    && loc.statement_index < si + 1)) implies exists|i: int|
                                0 <= i < r@.len() && (#[trigger] r@[i]).0 == loc by {
                                if loc.block == bi && loc.statement_index == si {
                                    assert(r@[before.len() as int].0 == loc);
                                } else {
                                    let i = choose|i: int|
                                        0 <= i < before.len() && (#[trigger] before[i]).0 == loc;
                                    assert(r@[i].0 == loc);
                                }
                            }
                        }
                    },
                    None => {
                        proof {
                            assert forall|loc: Location|
                                writes_at(body, loc) && (loc.block < bi || (loc.block == bi
                                    && loc.statement_index < si + 1)) implies exists|i: int|
                                0 <= i < r@.len() && (#[trigger] r@[i]).0 == loc by {
                                if loc.block == bi && loc.statement_index == si {
                                    assert(loc == here);
                                }
                            }
                        }
                    },
                }
                if si == count {
                    done = true;
                } else {
                    si += 1;
                }
            }
            bi += 1;
        }
        r
    }
}

} // verus!
