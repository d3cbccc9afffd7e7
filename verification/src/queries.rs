//! The questions that the alias engine answers about a place.

use vstd::prelude::*;
use crate::aliases::{Aliases, LocationDomain};
use crate::constraints::lemma_push_has;
use crate::order::{lemma_sorted_distinct, sort_places, sorted};
use crate::place::{
    insert_place, last_deref, lemma_last_deref, Place, PlaceElem, PlaceView,
    Region, Ty, views,
};
use crate::propagate::lent;

verus! {

/// Whether `x` is `place` cut off after `len` steps, and none of the steps
/// up to and with step `len` is a dereference.
pub open spec fn cut_before_deref(place: PlaceView, len: int, x: PlaceView) -> bool {
    &&& 0 <= len < place.projection.len()
    &&& x == place.prefix(len)
    &&& forall|j: int| 0 <= j <= len ==> place.projection[j] != PlaceElem::Deref
}

/// Whether `x` lies strictly above `place` on its path, before the first
/// dereference.
pub open spec fn above_before_deref(place: PlaceView, x: PlaceView) -> bool {
    exists|len: int| cut_before_deref(place, len, x)
}

/// The steps of `place` after its last dereference.
pub open spec fn after_last_deref(place: PlaceView) -> Seq<PlaceElem> {
    place.projection.subrange(last_deref(place.projection) + 1, place.projection.len() as int)
}

/// The pointer that the last dereference of `place` follows.
pub open spec fn last_pointer(place: PlaceView) -> PlaceView {
    place.prefix(last_deref(place.projection))
}

/// What `insert_place` does to membership.
proof fn lemma_inserted(before: Seq<PlaceView>, after: Seq<PlaceView>, p: PlaceView, added: bool)
    requires
        added == !before.contains(p),
        after == if added {
            before.push(p)
        } else {
            before
        },
    ensures
        forall|x: PlaceView| #[trigger] after.contains(x) <==> (before.contains(x) || x == p),
{
    assert forall|x: PlaceView| #[trigger] after.contains(x) <==> (before.contains(x) || x
        == p) by {
        if added {
            lemma_push_has(before, p, x);
        }
    }
}

impl Aliases {
    /// Region and target type of the pointer that the last dereference of
    /// `place` follows, where aliases are looked up: not for a place that is
    /// concrete storage, nor behind a pointer that is no reference.
    pub open spec fn resolved(&self, place: PlaceView) -> Option<(Region, Ty)> {
        if self.body.direct(place) {
            None
        } else {
            match self.body.ty_of(last_pointer(place)) {
                Some(ty) => self.body.ref_of(ty),
                None => None,
            }
        }
    }

    /// The alias of `place` that the loan gives: the loan with the steps
    /// that `place` takes behind its pointer, where the loan is of the type
    /// that the pointer points to; else the loan itself.
    pub open spec fn alias_from(&self, place: PlaceView, ty: Ty, loan: PlaceView) -> PlaceView {
        if self.body.ty_of(loan) == Some(ty) {
            loan.extend(after_last_deref(place))
        } else {
            loan
        }
    }

    /// Whether `x` may denote the storage that `place` denotes.
    pub open spec fn is_alias(&self, place: PlaceView, x: PlaceView) -> bool {
        x == place || match self.resolved(place) {
            Some((region, ty)) => exists|loan: PlaceView|
                lent(self.loans@, region as int, loan) && x == self.alias_from(place, ty, loan),
            None => false,
        }
    }

    /// Whether the storage of `x` overlaps that of `alias`: it is `alias`,
    /// one structural step below it, or above it before any dereference.
    pub open spec fn overlaps(&self, alias: PlaceView, x: PlaceView) -> bool {
        x == alias || self.body.child_places(alias).contains(x) || above_before_deref(alias, x)
    }

    /// Whether the storage of `x` may overlap that of `place`.
    pub open spec fn is_conflict(&self, place: PlaceView, x: PlaceView) -> bool {
        exists|alias: PlaceView| self.is_alias(place, alias) && self.overlaps(alias, x)
    }

    /// Whether `x` is concrete storage that is `place` or can be reached
    /// from it through a pointer inside it.
    pub open spec fn is_reachable(&self, place: PlaceView, shallow: bool, x: PlaceView) -> bool {
        self.body.direct(x) && (x == place || exists|k: int|
            0 <= k < self.body.pointer_places(place, shallow).len() && self.is_alias(
                (#[trigger] self.body.pointer_places(place, shallow)[k]).deref(),
                x,
            ))
    }

    /// The key under which `place` is looked up.
    pub fn normalize(&self, place: &Place) -> (r: Place)
        ensures
            r@ == place@.normalized(),
    {
        place.normalize()
    }

    /// The places that may denote the storage that `place` denotes, in
    /// rising order. `place` itself is one of them.
    pub fn aliases(&self, place: &Place) -> (r: Vec<Place>)
        ensures
            sorted(views(r@)),
            views(r@).no_duplicates(),
            views(r@).contains(place@),
            forall|x: PlaceView| #[trigger] views(r@).contains(x) <==> self.is_alias(place@, x),
    {
        let found = self.find_aliases(place);
        let r = sort_places(&found);
        proof {
            lemma_sorted_distinct(views(r@));
        }
        r
    }

    /// The aliases of `place` as they are found: `place` first, then what
    /// the loans of its pointer give.
    fn find_aliases(&self, place: &Place) -> (r: Vec<Place>)
        ensures
            views(r@).no_duplicates(),
            r@.len() > 0,
            r@[0]@ == place@,
            views(r@).contains(place@),
            forall|x: PlaceView| #[trigger] views(r@).contains(x) <==> self.is_alias(place@, x),
    {
        let mut r: Vec<Place> = Vec::new();
        r.push(place.clone());
        proof {
            assert(views(r@) =~= seq![place@]);
            assert forall|x: PlaceView| #[trigger] views(r@).contains(x) <==> x == place@ by {
                if x == place@ {
                    assert(views(r@)[0] == x);
                }
            }
            lemma_last_deref(place.projection@);
        }
        if self.body.is_direct(place) {
            return r;
        }
        let at = match place.last_deref() {
            Some(i) => i,
            None => {
                return r;
            },
        };
        let pointer_ty = match self.body.prefix_ty(place, at) {
            Some(ty) => ty,
            None => {
                return r;
            },
        };
        let (region, target_ty) = match self.body.ref_parts(pointer_ty) {
            Some(parts) => parts,
            None => {
                return r;
            },
        };
        if region >= self.loans.len() {
            proof {
                assert forall|loan: PlaceView| !lent(self.loans@, region as int, loan) by {}
            }
            return r;
        }
        assert(at < place.projection.len());
        let after = place.suffix(at + 1);
        let set = &self.loans[region];
        let ghost from = views(set@);
        let mut k: usize = 0;
        while k < set.len()
            invariant
                k <= set.len(),
                from == views(set@),
                region < self.loans@.len(),
                set@ == self.loans@[region as int]@,
                after@ == after_last_deref(place@),
                self.resolved(place@) == Some((region, target_ty)),
                views(r@).no_duplicates(),
                r@.len() > 0,
                r@[0]@ == place@,
                forall|x: PlaceView| #[trigger]
                    views(r@).contains(x) <==> (x == place@ || exists|j: int|
                        0 <= j < k && x == self.alias_from(place@, target_ty, from[j])),
            decreases set.len() - k,
        {
            let loan = &set[k];
            let alias = match self.body.place_ty(loan) {
                Some(ty) => {
                    if ty == target_ty {
                        loan.project_deeper(&after)
                    } else {
                        loan.clone()
                    }
                },
                None => loan.clone(),
            };
            let ghost before = views(r@);
            proof {
                assert(from[k as int] == loan@);
                assert(alias@ == self.alias_from(place@, target_ty, from[k as int]));
            }
            let added = insert_place(&mut r, alias);
            proof {
                lemma_inserted(before, views(r@), alias@, added);
                assert forall|x: PlaceView| #[trigger]
                    views(r@).contains(x) <==> (x == place@ || exists|j: int|
                        0 <= j < k + 1 && x == self.alias_from(place@, target_ty, from[j])) by {
                    if exists|j: int|
                        0 <= j < k && x == self.alias_from(place@, target_ty, from[j]) {
                        let j = choose|j: int|
                            0 <= j < k && x == self.alias_from(place@, target_ty, from[j]);
                        assert(0 <= j < k + 1 && x == self.alias_from(
                            place@,
                            target_ty,
                            from[j],
                        ));
                    }
                    if exists|j: int|
                        0 <= j < k + 1 && x == self.alias_from(place@, target_ty, from[j]) {
                        let j = choose|j: int|
                            0 <= j < k + 1 && x == self.alias_from(place@, target_ty, from[j]);
                        if j < k {
                            assert(before.contains(x));
                        }
                    }
                }
                assert(views(r@)[0] == before[0]);
            }
            k += 1;
        }
        proof {
            assert forall|x: PlaceView| #[trigger] views(r@).contains(x) <==> self.is_alias(
                place@,
                x,
            ) by {
                if exists|j: int|
                    0 <= j < set.len() && x == self.alias_from(place@, target_ty, from[j]) {
                    let j = choose|j: int|
                        0 <= j < set.len() && x == self.alias_from(place@, target_ty, from[j]);
                    assert(lent(self.loans@, region as int, from[j]));
                }
                if exists|loan: PlaceView|
                    lent(self.loans@, region as int, loan) && x == self.alias_from(
                        place@,
                        target_ty,
                        loan,
                    ) {
                    let loan = choose|loan: PlaceView|
                        lent(self.loans@, region as int, loan) && x == self.alias_from(
                            place@,
                            target_ty,
                            loan,
                        );
                    let j = choose|j: int| 0 <= j < from.len() && from[j] == loan;
                    assert(0 <= j < set.len() && x == self.alias_from(place@, target_ty, from[j]));
                }
            }
        }
        r
    }

    /// The places one structural step below `place`: the fields of a struct
    /// or tuple, the element of an array.
    pub fn children(&self, place: &Place) -> (r: Vec<Place>)
        ensures
            views(r@) == self.body.child_places(place@),
    {
        self.body.child_places_of(place)
    }

    /// Adds to `out` the places whose storage overlaps that of `alias`.
    fn add_overlaps(&self, alias: &Place, out: &mut Vec<Place>)
        requires
            views(old(out)@).no_duplicates(),
        ensures
            views(final(out)@).no_duplicates(),
            forall|x: PlaceView| #[trigger]
                views(final(out)@).contains(x) <==> (views(old(out)@).contains(x) || self.overlaps(
                    alias@,
                    x,
                )),
    {
        let ghost start = views(out@);
        let ghost before = views(out@);
        let added = insert_place(out, alias.clone());
        proof {
            lemma_inserted(before, views(out@), alias@, added);
        }
        let below = self.children(alias);
        let mut i: usize = 0;
        while i < below.len()
            invariant
                i <= below.len(),
                views(below@) == self.body.child_places(alias@),
                views(out@).no_duplicates(),
                forall|x: PlaceView| #[trigger]
                    views(out@).contains(x) <==> (start.contains(x) || x == alias@ || exists|j: int|
                        0 <= j < i && views(below@)[j] == x),
            decreases below.len() - i,
        {
            let ghost before = views(out@);
            let child = below[i].clone();
            let added = insert_place(out, child);
            proof {
                lemma_inserted(before, views(out@), below@[i as int]@, added);
                assert forall|x: PlaceView| #[trigger]
                    views(out@).contains(x) <==> (start.contains(x) || x == alias@ || exists|j: int|
                        0 <= j < i + 1 && views(below@)[j] == x) by {
                    if exists|j: int| 0 <= j < i && views(below@)[j] == x {
                        let j = choose|j: int| 0 <= j < i && views(below@)[j] == x;
                        assert(0 <= j < i + 1 && views(below@)[j] == x);
                    }
                    if x == below@[i as int]@ {
                        assert(views(below@)[i as int] == x);
                    }
                    if exists|j: int| 0 <= j < i + 1 && views(below@)[j] == x {
                        let j = choose|j: int| 0 <= j < i + 1 && views(below@)[j] == x;
                        if j < i {
                            assert(before.contains(x));
                        }
                    }
                }
            }
            i += 1;
        }
        let mut len: usize = 0;
        while len < alias.projection.len() && alias.projection[len] != PlaceElem::Deref
            invariant
                len <= alias.projection.len(),
                forall|j: int| 0 <= j < len ==> alias.projection@[j] != PlaceElem::Deref,
                views(out@).no_duplicates(),
                forall|x: PlaceView| #[trigger]
                    views(out@).contains(x) <==> (start.contains(x) || x == alias@
                        || self.body.child_places(alias@).contains(x) || exists|k: int|
                        0 <= k < len && cut_before_deref(alias@, k, x)),
            decreases alias.projection.len() - len,
        {
            let ghost before = views(out@);
            let above = alias.prefix(len);
            proof {
                assert(cut_before_deref(alias@, len as int, above@));
            }
            let added = insert_place(out, above);
            proof {
                lemma_inserted(before, views(out@), alias@.prefix(len as int), added);
                assert forall|x: PlaceView| #[trigger]
                    views(out@).contains(x) <==> (start.contains(x) || x == alias@
                        || self.body.child_places(alias@).contains(x) || exists|k: int|
                        0 <= k < len + 1 && cut_before_deref(alias@, k, x)) by {
                    if exists|k: int| 0 <= k < len && cut_before_deref(alias@, k, x) {
                        let k = choose|k: int| 0 <= k < len && cut_before_deref(alias@, k, x);
                        assert(0 <= k < len + 1 && cut_before_deref(alias@, k, x));
                    }
                    if exists|k: int| 0 <= k < len + 1 && cut_before_deref(alias@, k, x) {
                        let k = choose|k: int| 0 <= k < len + 1 && cut_before_deref(alias@, k, x);
                        if k < len {
                            assert(before.contains(x));
                        }
                    }
                }
            }
            len += 1;
        }
        proof {
            assert forall|x: PlaceView| #[trigger]
                views(out@).contains(x) <==> (start.contains(x) || self.overlaps(alias@, x)) by {
                if above_before_deref(alias@, x) {
                    let k = choose|k: int| cut_before_deref(alias@, k, x);
                    if k >= len {
                        assert(len < alias.projection.len());
                        assert(alias.projection@[len as int] == PlaceElem::Deref);
                        assert(false);
                    }
                    assert(0 <= k < len && cut_before_deref(alias@, k, x));
                }
            }
        }
    }

    /// The places whose storage overlaps that of one of `found`, in rising
    /// order.
    pub fn overlapping(&self, found: &Vec<Place>) -> (r: Vec<Place>)
        ensures
            sorted(views(r@)),
            views(r@).no_duplicates(),
            forall|x: PlaceView| #[trigger]
                views(r@).contains(x) <==> exists|j: int|
                    0 <= j < found@.len() && self.overlaps(views(found@)[j], x),
    {
        let all = self.find_overlapping(found);
        let r = sort_places(&all);
        proof {
            lemma_sorted_distinct(views(r@));
        }
        r
    }

    fn find_overlapping(&self, found: &Vec<Place>) -> (r: Vec<Place>)
        ensures
            views(r@).no_duplicates(),
            forall|x: PlaceView| #[trigger]
                views(r@).contains(x) <==> exists|j: int|
                    0 <= j < found@.len() && self.overlaps(views(found@)[j], x),
    {
        let mut r: Vec<Place> = Vec::new();
        let mut i: usize = 0;
        assert(views(r@) =~= Seq::<PlaceView>::empty());
        while i < found.len()
            invariant
                i <= found.len(),
                views(r@).no_duplicates(),
                forall|x: PlaceView| #[trigger]
                    views(r@).contains(x) <==> exists|j: int|
                        0 <= j < i && self.overlaps(views(found@)[j], x),
            decreases found.len() - i,
        {
            let ghost before = views(r@);
            self.add_overlaps(&found[i], &mut r);
            proof {
                assert(views(found@)[i as int] == found@[i as int]@);
                assert forall|x: PlaceView| #[trigger]
                    views(r@).contains(x) <==> exists|j: int|
                        0 <= j < i + 1 && self.overlaps(views(found@)[j], x) by {
                    if exists|j: int| 0 <= j < i && self.overlaps(views(found@)[j], x) {
                        let j = choose|j: int| 0 <= j < i && self.overlaps(views(found@)[j], x);
                        assert(0 <= j < i + 1 && self.overlaps(views(found@)[j], x));
                    }
                    if self.overlaps(found@[i as int]@, x) {
                        assert(0 <= i < i + 1 && self.overlaps(views(found@)[i as int], x));
                    }
                    if exists|j: int| 0 <= j < i + 1 && self.overlaps(views(found@)[j], x) {
                        let j = choose|j: int| 0 <= j < i + 1 && self.overlaps(views(found@)[j], x);
                        if j < i {
                            assert(before.contains(x));
                        }
                    }
                }
            }
            i += 1;
        }
        r
    }

    /// The places whose storage may overlap that of `place`, in rising
    /// order: each alias of `place`, what lies one structural step below an
    /// alias, and what lies above it before any dereference.
    pub fn conflicts(&self, place: &Place) -> (r: Vec<Place>)
        ensures
            sorted(views(r@)),
            views(r@).no_duplicates(),
            forall|x: PlaceView| #[trigger] views(r@).contains(x) <==> self.is_conflict(place@, x),
    {
        let found = self.aliases(place);
        let r = self.overlapping(&found);
        proof {
            assert forall|x: PlaceView| #[trigger] views(r@).contains(x) <==> self.is_conflict(
                place@,
                x,
            ) by {
                if exists|j: int| 0 <= j < found.len() && self.overlaps(views(found@)[j], x) {
                    let j = choose|j: int|
                        0 <= j < found.len() && self.overlaps(views(found@)[j], x);
                    assert(views(found@).contains(views(found@)[j]));
                    assert(self.is_alias(place@, views(found@)[j]));
                }
                if self.is_conflict(place@, x) {
                    let alias = choose|alias: PlaceView|
                        self.is_alias(place@, alias) && self.overlaps(alias, x);
                    assert(views(found@).contains(alias));
                    let j = choose|j: int| 0 <= j < views(found@).len() && views(found@)[j] == alias;
                    assert(0 <= j < found.len() && self.overlaps(views(found@)[j], x));
                }
            }
        }
        r
    }

    /// Adds to `out` the places of `from` that are concrete storage.
    pub fn add_direct(&self, from: &Vec<Place>, out: &mut Vec<Place>)
        requires
            views(old(out)@).no_duplicates(),
        ensures
            views(final(out)@).no_duplicates(),
            forall|x: PlaceView| #[trigger]
                views(final(out)@).contains(x) <==> (views(old(out)@).contains(x) || (
                self.body.direct(x) && views(from@).contains(x))),
    {
        let ghost start = views(out@);
        let mut i: usize = 0;
        while i < from.len()
            invariant
                i <= from.len(),
                views(out@).no_duplicates(),
                forall|x: PlaceView| #[trigger]
                    views(out@).contains(x) <==> (start.contains(x) || (self.body.direct(x)
                        && exists|j: int| 0 <= j < i && views(from@)[j] == x)),
            decreases from.len() - i,
        {
            let ghost before = views(out@);
            if self.body.is_direct(&from[i]) {
                let added = insert_place(out, from[i].clone());
                proof {
                    lemma_inserted(before, views(out@), from@[i as int]@, added);
                }
            }
            proof {
                assert(views(from@)[i as int] == from@[i as int]@);
                assert forall|x: PlaceView| #[trigger]
                    views(out@).contains(x) <==> (start.contains(x) || (self.body.direct(x)
                        && exists|j: int| 0 <= j < i + 1 && views(from@)[j] == x)) by {
                    if exists|j: int| 0 <= j < i && views(from@)[j] == x {
                        let j = choose|j: int| 0 <= j < i && views(from@)[j] == x;
                        assert(0 <= j < i + 1 && views(from@)[j] == x);
                    }
                    if x == from@[i as int]@ {
                        assert(0 <= i < i + 1 && views(from@)[i as int] == x);
                    }
                    if exists|j: int| 0 <= j < i + 1 && views(from@)[j] == x {
                        let j = choose|j: int| 0 <= j < i + 1 && views(from@)[j] == x;
                        if j < i {
                            assert(exists|j: int| 0 <= j < i && views(from@)[j] == x);
                        }
                    }
                }
            }
            i += 1;
        }
        proof {
            assert forall|x: PlaceView| #[trigger]
                views(out@).contains(x) <==> (start.contains(x) || (self.body.direct(x) && views(
                    from@,
                ).contains(x))) by {
                if views(from@).contains(x) {
                    let j = choose|j: int| 0 <= j < views(from@).len() && views(from@)[j] == x;
                    assert(0 <= j < from.len() && views(from@)[j] == x);
                }
            }
        }
    }

    /// The concrete storage that can be reached from `place`, in rising
    /// order: the aliases of what each pointer inside `place` points to, and
    /// `place` itself, as far as they are concrete storage. Pointers behind
    /// pointers count unless `shallow` is set.
    pub fn reachable_values(&self, place: &Place, shallow: bool) -> (r: Vec<Place>)
        ensures
            sorted(views(r@)),
            views(r@).no_duplicates(),
            forall|x: PlaceView| #[trigger]
                views(r@).contains(x) <==> self.is_reachable(place@, shallow, x),
    {
        let found = self.find_reachable(place, shallow);
        let r = sort_places(&found);
        proof {
            lemma_sorted_distinct(views(r@));
        }
        r
    }

    fn find_reachable(&self, place: &Place, shallow: bool) -> (r: Vec<Place>)
        ensures
            views(r@).no_duplicates(),
            forall|x: PlaceView| #[trigger]
                views(r@).contains(x) <==> self.is_reachable(place@, shallow, x),
    {
        let pointers = self.body.interior_pointers(place, shallow);
        let ghost all = self.body.pointer_places(place@, shallow);
        let mut r: Vec<Place> = Vec::new();
        let mut i: usize = 0;
        assert(views(r@) =~= Seq::<PlaceView>::empty());
        while i < pointers.len()
            invariant
                i <= pointers.len(),
                all == views(pointers@),
                all == self.body.pointer_places(place@, shallow),
                views(r@).no_duplicates(),
                forall|x: PlaceView| #[trigger]
                    views(r@).contains(x) <==> (self.body.direct(x) && exists|k: int|
                        0 <= k < i && self.is_alias((#[trigger] all[k]).deref(), x)),
            decreases pointers.len() - i,
        {
            let ghost before = views(r@);
            let target = pointers[i].deref_place();
            let found = self.aliases(&target);
            self.add_direct(&found, &mut r);
            proof {
                assert(all[i as int] == pointers@[i as int]@);
                assert(target@ == all[i as int].deref());
                assert forall|x: PlaceView| #[trigger]
                    views(r@).contains(x) <==> (self.body.direct(x) && exists|k: int|
                        0 <= k < i + 1 && self.is_alias((#[trigger] all[k]).deref(), x)) by {
                    if exists|k: int| 0 <= k < i && self.is_alias((#[trigger] all[k]).deref(), x) {
                        let k = choose|k: int|
                            0 <= k < i && self.is_alias((#[trigger] all[k]).deref(), x);
                        assert(0 <= k < i + 1 && self.is_alias(all[k].deref(), x));
                    }
                    if views(found@).contains(x) {
                        assert(0 <= i < i + 1 && self.is_alias(all[i as int].deref(), x));
                    }
                    if exists|k: int|
                        0 <= k < i + 1 && self.is_alias((#[trigger] all[k]).deref(), x) {
                        let k = choose|k: int|
                            0 <= k < i + 1 && self.is_alias((#[trigger] all[k]).deref(), x);
                        if k < i {
                            assert(exists|k: int|
                                0 <= k < i && self.is_alias((#[trigger] all[k]).deref(), x));
                        } else {
                            assert(views(found@).contains(x));
                        }
                    }
                }
            }
            i += 1;
        }
        if self.body.is_direct(place) {
            let ghost before = views(r@);
            let added = insert_place(&mut r, place.clone());
            proof {
                lemma_inserted(before, views(r@), place@, added);
            }
        }
        r
    }

    /// The program points and arguments of the body.
    pub fn location_domain(&self) -> (r: &LocationDomain)
        ensures
            *r == self.location_domain,
    {
        &self.location_domain
    }
}

} // verus!
