//! Places: a base local plus a path of projections, and sets of places kept
//! in vectors without repetition.

use vstd::prelude::*;

verus! {

/// Index of a storage slot of the body: the return slot, an argument, a
/// variable or a temporary.
pub type Local = usize;

/// Identifier that the borrow checker gives to a lifetime.
pub type Region = usize;

/// Identifier of a type in the body's type table.
pub type Ty = usize;

/// One step of a projection path.
#[derive(Clone, Copy, Debug, PartialEq, Eq, Hash, Structural)]
pub enum PlaceElem {
    /// Follow the pointer stored in the place.
    Deref,
    /// Select the field with this index, which has this type.
    Field(usize, Ty),
    /// Select an element; the local holds the index.
    Index(Local),
}

/// The mathematical value of a [`Place`].
pub struct PlaceView {
    pub local: Local,
    pub projection: Seq<PlaceElem>,
}

/// A memory location: a local and the projections applied to it.
#[derive(Debug, PartialEq, Eq, Hash)]
pub struct Place {
    pub local: Local,
    pub projection: Vec<PlaceElem>,
}

impl View for Place {
    type V = PlaceView;

    open spec fn view(&self) -> PlaceView {
        PlaceView { local: self.local, projection: self.projection@ }
    }
}

/// The element that stands for every index: all elements of an array are one
/// location to the analysis.
pub open spec fn normalize_elem(elem: PlaceElem) -> PlaceElem {
    match elem {
        PlaceElem::Index(_) => PlaceElem::Index(0),
        _ => elem,
    }
}

/// Position of the last dereference in `projection`, or -1 without one.
pub open spec fn last_deref(projection: Seq<PlaceElem>) -> int
    decreases projection.len(),
{
    if projection.len() == 0 {
        -1
    } else if projection.last() == PlaceElem::Deref {
        projection.len() - 1
    } else {
        last_deref(projection.drop_last())
    }
}

impl PlaceView {
    /// The place of a bare local.
    pub open spec fn of_local(local: Local) -> PlaceView {
        PlaceView { local, projection: Seq::empty() }
    }

    /// This place with `suffix` applied after its own projections.
    pub open spec fn extend(self, suffix: Seq<PlaceElem>) -> PlaceView {
        PlaceView { local: self.local, projection: self.projection + suffix }
    }

    /// The place that this pointer-valued place points to.
    pub open spec fn deref(self) -> PlaceView {
        self.extend(seq![PlaceElem::Deref])
    }

    /// The first `len` projections of this place.
    pub open spec fn prefix(self, len: int) -> PlaceView {
        PlaceView { local: self.local, projection: self.projection.subrange(0, len) }
    }

    /// Whether `self` is `other` or lies above it on its path.
    pub open spec fn is_prefix_of(self, other: PlaceView) -> bool {
        self.local == other.local && self.projection.is_prefix_of(other.projection)
    }

    /// Whether the path goes through a pointer.
    pub open spec fn is_indirect(self) -> bool {
        self.projection.contains(PlaceElem::Deref)
    }

    /// The key under which the place is looked up: every index replaced by
    /// the one canonical index.
    pub open spec fn normalized(self) -> PlaceView {
        PlaceView {
            local: self.local,
            projection: self.projection.map_values(|e: PlaceElem| normalize_elem(e)),
        }
    }
}

/// What `last_deref` finds: the position holds a dereference and none follows.
pub proof fn lemma_last_deref(projection: Seq<PlaceElem>)
    ensures
        -1 <= last_deref(projection) < projection.len(),
        last_deref(projection) >= 0 ==> projection[last_deref(projection)] == PlaceElem::Deref,
        forall|j: int|
            last_deref(projection) < j < projection.len() ==> projection[j] != PlaceElem::Deref,
        last_deref(projection) >= 0 <==> projection.contains(PlaceElem::Deref),
    decreases projection.len(),
{
    if projection.len() == 0 {
    } else if projection.last() == PlaceElem::Deref {
        assert(projection[projection.len() - 1] == PlaceElem::Deref);
    } else {
        let init = projection.drop_last();
        lemma_last_deref(init);
        assert forall|j: int| last_deref(projection) < j < projection.len() implies projection[j]
            != PlaceElem::Deref by {
            if j < init.len() {
                assert(init[j] == projection[j]);
            }
        }
        if last_deref(init) >= 0 {
            assert(projection[last_deref(init)] == init[last_deref(init)]);
        }
        if projection.contains(PlaceElem::Deref) {
            let k = choose|k: int| 0 <= k < projection.len() && projection[k] == PlaceElem::Deref;
            assert(k < init.len());
            assert(init[k] == PlaceElem::Deref);
        }
    }
}

impl Clone for Place {
    fn clone(&self) -> (r: Self)
        ensures
            r@ == self@,
    {
        let mut projection: Vec<PlaceElem> = Vec::new();
        let mut i: usize = 0;
        while i < self.projection.len()
            invariant
                i <= self.projection.len(),
                projection@ == self.projection@.subrange(0, i as int),
            decreases self.projection.len() - i,
        {
            projection.push(self.projection[i]);
            i += 1;
            assert(projection@ =~= self.projection@.subrange(0, i as int));
        }
        assert(projection@ =~= self.projection@);
        Place { local: self.local, projection }
    }
}

impl Place {
    /// The place of a bare local.
    pub fn from_local(local: Local) -> (r: Place)
        ensures
            r@ == PlaceView::of_local(local),
    {
        Place { local, projection: Vec::new() }
    }

    /// The place with this base and this path.
    pub fn make(local: Local, projection: Vec<PlaceElem>) -> (r: Place)
        ensures
            r@ == (PlaceView { local, projection: projection@ }),
    {
        Place { local, projection }
    }

    /// Whether two places have the same base and the same path.
    pub fn equals(&self, other: &Place) -> (r: bool)
        ensures
            r == (self@ == other@),
    {
        if self.local != other.local || self.projection.len() != other.projection.len() {
            return false;
        }
        let mut i: usize = 0;
        while i < self.projection.len()
            invariant
                i <= self.projection.len(),
                self.projection.len() == other.projection.len(),
                forall|j: int| 0 <= j < i ==> self.projection@[j] == other.projection@[j],
            decreases self.projection.len() - i,
        {
            if self.projection[i] != other.projection[i] {
                return false;
            }
            i += 1;
        }
        assert(self.projection@ =~= other.projection@);
        true
    }

    /// This place with `elems` applied after its own projections.
    pub fn project_deeper(&self, elems: &Vec<PlaceElem>) -> (r: Place)
        ensures
            r@ == self@.extend(elems@),
    {
        let mut r = self.clone();
        let ghost base = r.projection@;
        let mut i: usize = 0;
        while i < elems.len()
            invariant
                i <= elems.len(),
                r.local == self.local,
                base == self.projection@,
                r.projection@ == base + elems@.subrange(0, i as int),
            decreases elems.len() - i,
        {
            r.projection.push(elems[i]);
            i += 1;
            assert(r.projection@ =~= base + elems@.subrange(0, i as int));
        }
        assert(elems@.subrange(0, elems.len() as int) =~= elems@);
        r
    }

    /// This place with one more projection.
    pub fn project(&self, elem: PlaceElem) -> (r: Place)
        ensures
            r@ == self@.extend(seq![elem]),
    {
        let mut r = self.clone();
        r.projection.push(elem);
        assert(r.projection@ =~= self.projection@ + seq![elem]);
        r
    }

    /// The place that this pointer-valued place points to.
    pub fn deref_place(&self) -> (r: Place)
        ensures
            r@ == self@.deref(),
    {
        self.project(PlaceElem::Deref)
    }

    /// The first `len` projections of this place.
    pub fn prefix(&self, len: usize) -> (r: Place)
        requires
            len <= self.projection.len(),
        ensures
            r@ == self@.prefix(len as int),
    {
        let mut projection: Vec<PlaceElem> = Vec::new();
        let mut i: usize = 0;
        while i < len
            invariant
                i <= len <= self.projection.len(),
                projection@ == self.projection@.subrange(0, i as int),
            decreases len - i,
        {
            projection.push(self.projection[i]);
            i += 1;
            assert(projection@ =~= self.projection@.subrange(0, i as int));
        }
        Place { local: self.local, projection }
    }

    /// The projections from position `from` on.
    pub fn suffix(&self, from: usize) -> (r: Vec<PlaceElem>)
        requires
            from <= self.projection.len(),
        ensures
            r@ == self.projection@.subrange(from as int, self.projection.len() as int),
    {
        let mut r: Vec<PlaceElem> = Vec::new();
        let mut i: usize = from;
        while i < self.projection.len()
            invariant
                from <= i <= self.projection.len(),
                r@ == self.projection@.subrange(from as int, i as int),
            decreases self.projection.len() - i,
        {
            r.push(self.projection[i]);
            i += 1;
            assert(r@ =~= self.projection@.subrange(from as int, i as int));
        }
        r
    }

    /// Position of the last dereference on the path, if there is one.
    pub fn last_deref(&self) -> (r: Option<usize>)
        ensures
            match r {
                Some(i) => i as int == last_deref(self.projection@),
                None => last_deref(self.projection@) == -1,
            },
    {
        let mut i: usize = self.projection.len();
        proof {
            assert(self.projection@.subrange(0, i as int) =~= self.projection@);
        }
        while i > 0
            invariant
                i <= self.projection.len(),
                last_deref(self.projection@) == last_deref(self.projection@.subrange(0, i as int)),
            decreases i,
        {
            let ghost cur = self.projection@.subrange(0, i as int);
            assert(cur.last() == self.projection@[i - 1]);
            if self.projection[i - 1] == PlaceElem::Deref {
                return Some(i - 1);
            }
            assert(cur.drop_last() =~= self.projection@.subrange(0, i - 1));
            i -= 1;
        }
        None
    }

    /// Whether the path goes through a pointer.
    pub fn is_indirect(&self) -> (r: bool)
        ensures
            r == self@.is_indirect(),
    {
        proof {
            lemma_last_deref(self.projection@);
        }
        self.last_deref().is_some()
    }

    /// The key under which the place is looked up: every index replaced by
    /// the one canonical index.
    pub fn normalize(&self) -> (r: Place)
        ensures
            r@ == self@.normalized(),
    {
        let mut projection: Vec<PlaceElem> = Vec::new();
        let mut i: usize = 0;
        while i < self.projection.len()
            invariant
                i <= self.projection.len(),
                projection@.len() == i,
                forall|j: int| 0 <= j < i ==> projection@[j] == normalize_elem(self.projection@[j]),
            decreases self.projection.len() - i,
        {
            let elem = match self.projection[i] {
                PlaceElem::Index(_) => PlaceElem::Index(0),
                e => e,
            };
            projection.push(elem);
            i += 1;
        }
        assert(projection@ =~= self@.normalized().projection);
        Place { local: self.local, projection }
    }
}

/// The values of the places of a sequence, in its order.
pub open spec fn views(places: Seq<Place>) -> Seq<PlaceView> {
    places.map_values(|p: Place| p@)
}

/// Whether `place` occurs in `places`.
pub fn contains_place(places: &Vec<Place>, place: &Place) -> (r: bool)
    ensures
        r == views(places@).contains(place@),
{
    let mut i: usize = 0;
    while i < places.len()
        invariant
            i <= places.len(),
            forall|j: int| 0 <= j < i ==> views(places@)[j] != place@,
        decreases places.len() - i,
    {
        if places[i].equals(place) {
            assert(views(places@)[i as int] == place@);
            return true;
        }
        i += 1;
    }
    false
}

/// A copy of the places.
pub fn clone_places(places: &Vec<Place>) -> (r: Vec<Place>)
    ensures
        views(r@) == views(places@),
{
    let mut r: Vec<Place> = Vec::new();
    let mut i: usize = 0;
    while i < places.len()
        invariant
            i <= places.len(),
            r@.len() == i,
            forall|j: int| 0 <= j < i ==> r@[j]@ == places@[j]@,
        decreases places.len() - i,
    {
        r.push(places[i].clone());
        i += 1;
    }
    assert(views(r@) =~= views(places@));
    r
}

/// Adds `place` to `places` unless it is there already, and says whether it
/// was added.
pub fn insert_place(places: &mut Vec<Place>, place: Place) -> (added: bool)
    ensures
        added == !views(old(places)@).contains(place@),
        added ==> final(places)@ == old(places)@.push(place),
        !added ==> final(places)@ == old(places)@,
        views(final(places)@) == if added {
            views(old(places)@).push(place@)
        } else {
            views(old(places)@)
        },
        views(old(places)@).no_duplicates() ==> views(final(places)@).no_duplicates(),
{
    if contains_place(places, &place) {
        false
    } else {
        let ghost before = places@;
        places.push(place);
        assert(views(places@) =~= views(before).push(place@));
        true
    }
}

} // verus!
