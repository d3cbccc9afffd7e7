//! The pointers inside a place: the walk over the type of a place that finds
//! every pointer-valued place below it.

use vstd::prelude::*;
use crate::body::{Body, TyKind};
use crate::place::{Place, PlaceElem, PlaceView, Ty, views};

verus! {

impl Body {
    /// The pointer-valued places found in a value of type `ty` that sits at
    /// `place`, in the order of the walk. `stack` holds the types that the
    /// walk is inside of: a type is not entered twice on one path, so the
    /// walk ends on recursive types and never goes deeper than the table has
    /// types. A pointer is followed unless `shallow` is set.
    pub open spec fn pointers_in(
        &self,
        ty: Ty,
        place: PlaceView,
        stack: Seq<Ty>,
        shallow: bool,
    ) -> Seq<PlaceView>
        decreases self.types.len() - stack.len(), 0nat,
    {
        if stack.contains(ty) || stack.len() >= self.types.len() {
            Seq::empty()
        } else {
            match self.kind_of(ty) {
                TyKind::Struct { fields } => self.pointers_in_fields(
                    fields@,
                    fields@.len(),
                    place,
                    stack.push(ty),
                    shallow,
                ),
                TyKind::Tuple { fields } => self.pointers_in_fields(
                    fields@,
                    fields@.len(),
                    place,
                    stack.push(ty),
                    shallow,
                ),
                TyKind::Array { elem } => self.pointers_in(
                    elem,
                    place.extend(seq![PlaceElem::Index(0)]),
                    stack.push(ty),
                    shallow,
                ),
                TyKind::Ref { region, pointee } => seq![place] + self.pointers_behind(
                    pointee,
                    place,
                    stack.push(ty),
                    shallow,
                ),
                TyKind::Ptr { pointee } => seq![place] + self.pointers_behind(
                    pointee,
                    place,
                    stack.push(ty),
                    shallow,
                ),
                TyKind::Other => Seq::empty(),
            }
        }
    }

    /// The pointer-valued places behind the pointer at `place`, whose target
    /// has type `pointee`: none for a shallow walk.
    pub open spec fn pointers_behind(
        &self,
        pointee: Ty,
        place: PlaceView,
        stack: Seq<Ty>,
        shallow: bool,
    ) -> Seq<PlaceView>
        decreases self.types.len() - stack.len(), 1nat,
    {
        if shallow {
            Seq::empty()
        } else {
            self.pointers_in(pointee, place.deref(), stack, shallow)
        }
    }

    /// The pointer-valued places found in the first `upto` fields of a value
    /// at `place`.
    pub open spec fn pointers_in_fields(
        &self,
        fields: Seq<Ty>,
        upto: nat,
        place: PlaceView,
        stack: Seq<Ty>,
        shallow: bool,
    ) -> Seq<PlaceView>
        decreases self.types.len() - stack.len(), upto + 1,
    {
        if upto == 0 || upto > fields.len() {
            Seq::empty()
        } else {
            let i = (upto - 1) as nat;
            self.pointers_in_fields(fields, i, place, stack, shallow) + self.pointers_in(
                fields[i as int],
                place.extend(seq![PlaceElem::Field(i as usize, fields[i as int])]),
                stack,
                shallow,
            )
        }
    }

    /// Every pointer-valued place inside `place`: in its fields and elements
    /// and, unless `shallow` is set, behind its pointers.
    pub open spec fn pointer_places(&self, place: PlaceView, shallow: bool) -> Seq<PlaceView> {
        match self.ty_of(place) {
            Some(ty) => self.pointers_in(ty, place, Seq::empty(), shallow),
            None => Seq::empty(),
        }
    }

    fn collect_pointers(
        &self,
        ty: Ty,
        place: &Place,
        stack: &mut Vec<Ty>,
        shallow: bool,
        out: &mut Vec<Place>,
    )
        ensures
            final(stack)@ == old(stack)@,
            views(final(out)@) == views(old(out)@) + self.pointers_in(
                ty,
                place@,
                old(stack)@,
                shallow,
            ),
        decreases self.types.len() - old(stack).len(), 0nat,
    {
        let ghost stack0 = stack@;
        let ghost out0 = views(out@);
        if type_on_stack(stack, ty) || stack.len() >= self.types.len() {
            assert(views(out@) =~= out0 + Seq::<PlaceView>::empty());
            return ;
        }
        if ty >= self.types.len() {
            assert(views(out@) =~= out0 + Seq::<PlaceView>::empty());
            return ;
        }
        stack.push(ty);
        let ghost stack1 = stack@;
        match &self.types[ty] {
            TyKind::Struct { fields } => {
                self.collect_in_fields(fields, place, stack, shallow, out);
            },
            TyKind::Tuple { fields } => {
                self.collect_in_fields(fields, place, stack, shallow, out);
            },
            TyKind::Array { elem } => {
                let child = place.project(PlaceElem::Index(0));
                self.collect_pointers(*elem, &child, stack, shallow, out);
            },
            TyKind::Ref { region, pointee } => {
                self.collect_behind(*pointee, place, stack, shallow, out);
            },
            TyKind::Ptr { pointee } => {
                self.collect_behind(*pointee, place, stack, shallow, out);
            },
            TyKind::Other => {
                assert(views(out@) =~= out0 + Seq::<PlaceView>::empty());
            },
        }
        stack.pop();
        assert(stack@ =~= stack0);
    }

    fn collect_behind(
        &self,
        pointee: Ty,
        place: &Place,
        stack: &mut Vec<Ty>,
        shallow: bool,
        out: &mut Vec<Place>,
    )
        requires
            0 < old(stack).len() <= self.types.len(),
        ensures
            final(stack)@ == old(stack)@,
            views(final(out)@) == views(old(out)@) + (seq![place@] + self.pointers_behind(
                pointee,
                place@,
                old(stack)@,
                shallow,
            )),
        decreases self.types.len() - old(stack).len(), 1nat,
    {
        let ghost out0 = views(out@);
        out.push(place.clone());
        assert(views(out@) =~= out0 + seq![place@]);
        if !shallow {
            let target = place.deref_place();
            self.collect_pointers(pointee, &target, stack, shallow, out);
            assert(views(out@) =~= out0 + (seq![place@] + self.pointers_behind(
                pointee,
                place@,
                stack@,
                shallow,
            )));
        } else {
            assert(views(out@) =~= out0 + (seq![place@] + Seq::<PlaceView>::empty()));
        }
    }

    fn collect_in_fields(
        &self,
        fields: &Vec<Ty>,
        place: &Place,
        stack: &mut Vec<Ty>,
        shallow: bool,
        out: &mut Vec<Place>,
    )
        requires
            0 < old(stack).len() <= self.types.len(),
        ensures
            final(stack)@ == old(stack)@,
            views(final(out)@) == views(old(out)@) + self.pointers_in_fields(
                fields@,
                fields@.len(),
                place@,
                old(stack)@,
                shallow,
            ),
        decreases self.types.len() - old(stack).len(), 1nat,
    {
        let ghost stack0 = stack@;
        let ghost out0 = views(out@);
        let mut i: usize = 0;
        assert(views(out@) =~= out0 + Seq::<PlaceView>::empty());
        while i < fields.len()
            invariant
                i <= fields.len(),
                stack@ == stack0,
                stack0 == old(stack)@,
                0 < stack0.len() <= self.types.len(),
                views(out@) == out0 + self.pointers_in_fields(
                    fields@,
                    i as nat,
                    place@,
                    stack0,
                    shallow,
                ),
            decreases fields.len() - i,
        {
            let ghost before = self.pointers_in_fields(fields@, i as nat, place@, stack0, shallow);
            let child = place.project(PlaceElem::Field(i, fields[i]));
            self.collect_pointers(fields[i], &child, stack, shallow, out);
            i += 1;
            assert(views(out@) =~= out0 + (before + self.pointers_in(
                fields@[i - 1],
                child@,
                stack0,
                shallow,
            )));
        }
    }

    /// Every pointer-valued place inside `place`: in its fields and elements
    /// and, unless `shallow` is set, behind its pointers.
    pub fn interior_pointers(&self, place: &Place, shallow: bool) -> (r: Vec<Place>)
        ensures
            views(r@) == self.pointer_places(place@, shallow),
    {
        let mut out: Vec<Place> = Vec::new();
        match self.place_ty(place) {
            Some(ty) => {
                let mut stack: Vec<Ty> = Vec::new();
                assert(views(out@) =~= Seq::<PlaceView>::empty());
                self.collect_pointers(ty, place, &mut stack, shallow, &mut out);
                assert(views(out@) =~= self.pointers_in(ty, place@, Seq::empty(), shallow));
            },
            None => {
                assert(views(out@) =~= Seq::<PlaceView>::empty());
            },
        }
        out
    }
}

/// Whether the walk is inside `ty` already.
fn type_on_stack(stack: &Vec<Ty>, ty: Ty) -> (r: bool)
    ensures
        r == stack@.contains(ty),
{
    let mut i: usize = 0;
    while i < stack.len()
        invariant
            i <= stack.len(),
            forall|j: int| 0 <= j < i ==> stack@[j] != ty,
        decreases stack.len() - i,
    {
        if stack[i] == ty {
            return true;
        }
        i += 1;
    }
    false
}

} // verus!
