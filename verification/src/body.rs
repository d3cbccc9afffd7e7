//! The body under analysis: its type table, its locals and its instructions,
//! and what the types say of a place.

use vstd::prelude::*;
use crate::place::{Local, Place, PlaceElem, PlaceView, Region, Ty, views};

verus! {

/// The shape of a type, as far as the analysis looks into it.
#[derive(Debug)]
pub enum TyKind {
    /// A type without parts that the analysis follows.
    Other,
    /// A reference with its region and the type it points to.
    Ref { region: Region, pointee: Ty },
    /// A pointer that the alias rules do not resolve, such as a raw pointer.
    Ptr { pointee: Ty },
    /// A struct with the types of its fields.
    Struct { fields: Vec<Ty> },
    /// A tuple with the types of its fields; the empty tuple carries no data.
    Tuple { fields: Vec<Ty> },
    /// An array or slice with the type of its elements.
    Array { elem: Ty },
}

/// A value read by an instruction.
#[derive(Debug)]
pub enum Operand {
    Copy(Place),
    Move(Place),
    Constant,
}

/// The right-hand side of an assignment.
#[derive(Debug)]
pub enum Rvalue {
    /// The value of one operand.
    Use(Operand),
    /// A borrow of `place` under `region`.
    Ref { region: Region, place: Place },
    /// A value of type `ty` built field by field from the operands.
    Aggregate { ty: Ty, operands: Vec<Operand> },
    /// Any other computation over the operands.
    Operation { operands: Vec<Operand> },
}

/// An instruction inside a block.
#[derive(Debug)]
pub enum Statement {
    Assign { place: Place, rvalue: Rvalue },
    Other,
}

/// The instruction that ends a block.
#[derive(Debug)]
pub enum Terminator {
    Call { args: Vec<Operand>, destination: Place },
    Other,
}

/// A straight run of statements and the terminator after them.
#[derive(Debug)]
pub struct BasicBlock {
    pub statements: Vec<Statement>,
    pub terminator: Terminator,
}

/// A program point: a block and a position in it. The position after the
/// last statement is the terminator.
#[derive(Clone, Copy, Debug, PartialEq, Eq, Hash, Structural)]
pub struct Location {
    pub block: usize,
    pub statement_index: usize,
}

/// One function body.
#[derive(Debug)]
pub struct Body {
    /// The type of each local. Local 0 is the return slot.
    pub local_decls: Vec<Ty>,
    /// Locals 1 to `arg_count` are the arguments.
    pub arg_count: usize,
    /// The type table: the shape of each type identifier.
    pub types: Vec<TyKind>,
    /// The control-flow graph.
    pub blocks: Vec<BasicBlock>,
    /// The type of the context value that a suspend point passes along, if
    /// the body has such points. Places of this type are no real inputs.
    pub context_ty: Option<Ty>,
}

/// The place that an operand reads, if it reads one.
pub open spec fn operand_place(op: Operand) -> Option<PlaceView> {
    match op {
        Operand::Copy(p) => Some(p@),
        Operand::Move(p) => Some(p@),
        Operand::Constant => None,
    }
}

/// The places that the operands read, in their order.
pub open spec fn operand_places(ops: Seq<Operand>) -> Seq<PlaceView>
    decreases ops.len(),
{
    if ops.len() == 0 {
        Seq::empty()
    } else {
        let init = operand_places(ops.drop_last());
        match operand_place(ops.last()) {
            Some(p) => init.push(p),
            None => init,
        }
    }
}

/// The places that evaluating `rvalue` reads.
pub open spec fn rvalue_places(rvalue: Rvalue) -> Seq<PlaceView> {
    match rvalue {
        Rvalue::Use(op) => operand_places(seq![op]),
        Rvalue::Ref { region, place } => seq![place@],
        Rvalue::Aggregate { ty, operands } => operand_places(operands@),
        Rvalue::Operation { operands } => operand_places(operands@),
    }
}

impl Operand {
    /// The place that the operand reads, if it reads one.
    pub fn as_place(&self) -> (r: Option<Place>)
        ensures
            match r {
                Some(p) => operand_place(*self) == Some(p@),
                None => operand_place(*self) is None,
            },
    {
        match self {
            Operand::Copy(p) => Some(p.clone()),
            Operand::Move(p) => Some(p.clone()),
            Operand::Constant => None,
        }
    }
}

/// The places that the operands read, in their order.
pub fn collect_operand_places(ops: &Vec<Operand>) -> (r: Vec<Place>)
    ensures
        views(r@) == operand_places(ops@),
{
    let mut r: Vec<Place> = Vec::new();
    let mut i: usize = 0;
    assert(ops@.subrange(0, 0) =~= Seq::<Operand>::empty());
    while i < ops.len()
        invariant
            i <= ops.len(),
            views(r@) == operand_places(ops@.subrange(0, i as int)),
        decreases ops.len() - i,
    {
        let ghost before = views(r@);
        let ghost next = ops@.subrange(0, i + 1);
        assert(next.drop_last() =~= ops@.subrange(0, i as int));
        assert(next.last() == ops@[i as int]);
        match ops[i].as_place() {
            Some(p) => {
                r.push(p);
                assert(views(r@) =~= before.push(p@));
            },
            None => {},
        }
        i += 1;
    }
    assert(ops@.subrange(0, ops.len() as int) =~= ops@);
    r
}

/// The places that evaluating `rvalue` reads.
pub fn collect_rvalue_places(rvalue: &Rvalue) -> (r: Vec<Place>)
    ensures
        views(r@) == rvalue_places(*rvalue),
{
    match rvalue {
        Rvalue::Use(op) => {
            let mut r: Vec<Place> = Vec::new();
            assert(seq![*op].drop_last() =~= Seq::<Operand>::empty());
            assert(operand_places(seq![*op].drop_last()) =~= Seq::<PlaceView>::empty());
            match op.as_place() {
                Some(p) => {
                    r.push(p);
                    assert(views(r@) =~= Seq::<PlaceView>::empty().push(p@));
                },
                None => {
                    assert(views(r@) =~= Seq::<PlaceView>::empty());
                },
            }
            r
        },
        Rvalue::Ref { region, place } => {
            let mut r: Vec<Place> = Vec::new();
            r.push(place.clone());
            assert(views(r@) =~= seq![place@]);
            r
        },
        Rvalue::Aggregate { ty, operands } => collect_operand_places(operands),
        Rvalue::Operation { operands } => collect_operand_places(operands),
    }
}

impl Body {
    /// The shape of `ty`; an identifier outside the table has no parts.
    pub open spec fn kind_of(&self, ty: Ty) -> TyKind {
        if ty < self.types.len() {
            self.types@[ty as int]
        } else {
            TyKind::Other
        }
    }

    /// The type that a pointer of type `ty` points to.
    pub open spec fn pointee_of(&self, ty: Ty) -> Option<Ty> {
        match self.kind_of(ty) {
            TyKind::Ref { region, pointee } => Some(pointee),
            TyKind::Ptr { pointee } => Some(pointee),
            _ => None,
        }
    }

    /// Region and pointee of a reference type.
    pub open spec fn ref_of(&self, ty: Ty) -> Option<(Region, Ty)> {
        match self.kind_of(ty) {
            TyKind::Ref { region, pointee } => Some((region, pointee)),
            _ => None,
        }
    }

    /// The field types of a struct.
    pub open spec fn struct_fields_of(&self, ty: Ty) -> Option<Seq<Ty>> {
        match self.kind_of(ty) {
            TyKind::Struct { fields } => Some(fields@),
            _ => None,
        }
    }

    /// The field types of a struct or a tuple.
    pub open spec fn fields_of(&self, ty: Ty) -> Option<Seq<Ty>> {
        match self.kind_of(ty) {
            TyKind::Struct { fields } => Some(fields@),
            TyKind::Tuple { fields } => Some(fields@),
            _ => None,
        }
    }

    /// Whether `ty` is the empty tuple.
    pub open spec fn unit(&self, ty: Ty) -> bool {
        match self.kind_of(ty) {
            TyKind::Tuple { fields } => fields@.len() == 0,
            _ => false,
        }
    }

    /// The type of what one projection step selects in a value of type `ty`.
    /// A field carries its own type; a dereference needs a pointer and an
    /// index an array.
    pub open spec fn step_ty(&self, ty: Ty, elem: PlaceElem) -> Option<Ty> {
        match elem {
            PlaceElem::Deref => self.pointee_of(ty),
            PlaceElem::Field(_, field_ty) => Some(field_ty),
            PlaceElem::Index(_) => match self.kind_of(ty) {
                TyKind::Array { elem } => Some(elem),
                _ => None,
            },
        }
    }

    /// The type reached from `start` along `projection`.
    pub open spec fn path_ty(&self, start: Option<Ty>, projection: Seq<PlaceElem>) -> Option<Ty>
        decreases projection.len(),
    {
        if projection.len() == 0 {
            start
        } else {
            match self.path_ty(start, projection.drop_last()) {
                Some(ty) => self.step_ty(ty, projection.last()),
                None => None,
            }
        }
    }

    /// The declared type of a local.
    pub open spec fn local_ty_of(&self, local: Local) -> Option<Ty> {
        if local < self.local_decls.len() {
            Some(self.local_decls@[local as int])
        } else {
            None
        }
    }

    /// The type of a place, or `None` where the path does not fit the types.
    pub open spec fn ty_of(&self, place: PlaceView) -> Option<Ty> {
        self.path_ty(self.local_ty_of(place.local), place.projection)
    }

    /// `ty` with up to `fuel` layers of references taken off.
    pub open spec fn peeled(&self, ty: Ty, fuel: nat) -> Ty
        decreases fuel,
    {
        if fuel == 0 {
            ty
        } else {
            match self.kind_of(ty) {
                TyKind::Ref { region, pointee } => self.peeled(pointee, (fuel - 1) as nat),
                _ => ty,
            }
        }
    }

    /// Whether `local` is an argument.
    pub open spec fn arg(&self, local: Local) -> bool {
        0 < local <= self.arg_count
    }

    /// Whether the place is concrete storage: its path has no dereference, or
    /// it starts at an argument.
    pub open spec fn direct(&self, place: PlaceView) -> bool {
        !place.is_indirect() || self.arg(place.local)
    }

    /// The places one structural step below `place`: each field of a struct
    /// or tuple, the element of an array.
    pub open spec fn child_places(&self, place: PlaceView) -> Seq<PlaceView> {
        match self.ty_of(place) {
            Some(ty) => match self.kind_of(ty) {
                TyKind::Struct { fields } => field_places(place, fields@),
                TyKind::Tuple { fields } => field_places(place, fields@),
                TyKind::Array { elem } => seq![place.extend(seq![PlaceElem::Index(0)])],
                _ => Seq::empty(),
            },
            None => Seq::empty(),
        }
    }

    /// Whether `place` is of the context type of a suspend point.
    pub open spec fn hidden(&self, place: PlaceView) -> bool {
        self.context_ty is Some && self.ty_of(place) == self.context_ty
    }

    /// The type that a pointer of type `ty` points to.
    pub fn pointee(&self, ty: Ty) -> (r: Option<Ty>)
        ensures
            r == self.pointee_of(ty),
    {
        if ty < self.types.len() {
            match &self.types[ty] {
                TyKind::Ref { region, pointee } => Some(*pointee),
                TyKind::Ptr { pointee } => Some(*pointee),
                _ => None,
            }
        } else {
            None
        }
    }

    /// Region and pointee of a reference type.
    pub fn ref_parts(&self, ty: Ty) -> (r: Option<(Region, Ty)>)
        ensures
            r == self.ref_of(ty),
    {
        if ty < self.types.len() {
            match &self.types[ty] {
                TyKind::Ref { region, pointee } => Some((*region, *pointee)),
                _ => None,
            }
        } else {
            None
        }
    }

    /// Whether `ty` is the empty tuple.
    pub fn is_unit(&self, ty: Ty) -> (r: bool)
        ensures
            r == self.unit(ty),
    {
        if ty < self.types.len() {
            match &self.types[ty] {
                TyKind::Tuple { fields } => fields.len() == 0,
                _ => false,
            }
        } else {
            false
        }
    }

    /// The type of what one projection step selects in a value of type `ty`.
    pub fn project_ty(&self, ty: Ty, elem: PlaceElem) -> (r: Option<Ty>)
        ensures
            r == self.step_ty(ty, elem),
    {
        match elem {
            PlaceElem::Deref => self.pointee(ty),
            PlaceElem::Field(_, field_ty) => Some(field_ty),
            PlaceElem::Index(_) => {
                if ty < self.types.len() {
                    match &self.types[ty] {
                        TyKind::Array { elem } => Some(*elem),
                        _ => None,
                    }
                } else {
                    None
                }
            },
        }
    }

    /// The type reached from `start` along the first `len` steps of `place`.
    pub fn prefix_ty(&self, place: &Place, len: usize) -> (r: Option<Ty>)
        requires
            len <= place.projection.len(),
        ensures
            r == self.ty_of(place@.prefix(len as int)),
    {
        let mut cur: Option<Ty> = if place.local < self.local_decls.len() {
            Some(self.local_decls[place.local])
        } else {
            None
        };
        let mut i: usize = 0;
        assert(place.projection@.subrange(0, 0) =~= Seq::<PlaceElem>::empty());
        while i < len
            invariant
                i <= len <= place.projection.len(),
                cur == self.path_ty(
                    self.local_ty_of(place.local),
                    place.projection@.subrange(0, i as int),
                ),
            decreases len - i,
        {
            let ghost next = place.projection@.subrange(0, i + 1);
            assert(next.drop_last() =~= place.projection@.subrange(0, i as int));
            assert(next.last() == place.projection@[i as int]);
            cur = match cur {
                Some(ty) => self.project_ty(ty, place.projection[i]),
                None => None,
            };
            i += 1;
        }
        cur
    }

    /// The type of a place, or `None` where the path does not fit the types.
    pub fn place_ty(&self, place: &Place) -> (r: Option<Ty>)
        ensures
            r == self.ty_of(place@),
    {
        assert(place.projection@.subrange(0, place.projection.len() as int)
            =~= place.projection@);
        self.prefix_ty(place, place.projection.len())
    }

    /// `ty` with its layers of references taken off, at most as many as the
    /// table has types.
    pub fn peel_refs(&self, ty: Ty) -> (r: Ty)
        ensures
            r == self.peeled(ty, self.types.len() as nat),
    {
        let mut cur: Ty = ty;
        let mut fuel: usize = self.types.len();
        while fuel > 0
            invariant
                self.peeled(cur, fuel as nat) == self.peeled(ty, self.types.len() as nat),
            decreases fuel,
        {
            match self.ref_parts(cur) {
                Some((_, pointee)) => {
                    cur = pointee;
                    fuel -= 1;
                },
                None => {
                    assert(self.peeled(cur, fuel as nat) == cur);
                    return cur;
                },
            }
        }
        cur
    }

    /// Whether `local` is an argument.
    pub fn is_arg(&self, local: Local) -> (r: bool)
        ensures
            r == self.arg(local),
    {
        0 < local && local <= self.arg_count
    }

    /// Whether the place is concrete storage.
    pub fn is_direct(&self, place: &Place) -> (r: bool)
        ensures
            r == self.direct(place@),
    {
        !place.is_indirect() || self.is_arg(place.local)
    }

    /// Whether `place` is of the context type of a suspend point.
    pub fn ignore_place(&self, place: &Place) -> (r: bool)
        ensures
            r == self.hidden(place@),
    {
        match self.context_ty {
            Some(context) => match self.place_ty(place) {
                Some(ty) => ty == context,
                None => false,
            },
            None => false,
        }
    }

    /// The places one structural step below `place`.
    pub fn child_places_of(&self, place: &Place) -> (r: Vec<Place>)
        ensures
            views(r@) == self.child_places(place@),
    {
        let mut r: Vec<Place> = Vec::new();
        match self.place_ty(place) {
            Some(ty) => {
                if ty < self.types.len() {
                    match &self.types[ty] {
                        TyKind::Struct { fields } => {
                            r = project_fields(place, fields);
                        },
                        TyKind::Tuple { fields } => {
                            r = project_fields(place, fields);
                        },
                        TyKind::Array { elem } => {
                            let child = place.project(PlaceElem::Index(0));
                            r.push(child);
                            assert(views(r@) =~= seq![place@.extend(seq![PlaceElem::Index(0)])]);
                        },
                        _ => {
                            assert(views(r@) =~= Seq::<PlaceView>::empty());
                        },
                    }
                } else {
                    assert(views(r@) =~= Seq::<PlaceView>::empty());
                }
            },
            None => {
                assert(views(r@) =~= Seq::<PlaceView>::empty());
            },
        }
        r
    }
}

/// `place` with each of the fields selected in turn.
pub open spec fn field_places(place: PlaceView, fields: Seq<Ty>) -> Seq<PlaceView> {
    Seq::new(
        fields.len(),
        |i: int| place.extend(seq![PlaceElem::Field(i as usize, fields[i])]),
    )
}

/// `place` with each of the fields selected in turn.
pub fn project_fields(place: &Place, fields: &Vec<Ty>) -> (r: Vec<Place>)
    ensures
        views(r@) == field_places(place@, fields@),
{
    let mut r: Vec<Place> = Vec::new();
    let mut i: usize = 0;
    while i < fields.len()
        invariant
            i <= fields.len(),
            r@.len() == i,
            forall|j: int| 0 <= j < i ==> r@[j]@ == field_places(place@, fields@)[j],
        decreases fields.len() - i,
    {
        let child = place.project(PlaceElem::Field(i, fields[i]));
        r.push(child);
        i += 1;
    }
    assert(views(r@) =~= field_places(place@, fields@));
    r
}

} // verus!
