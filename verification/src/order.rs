//! An order on places, and sets of places in that order: a set that is kept
//! in rising order has one representation only.

use vstd::prelude::*;
use crate::place::{Place, PlaceElem, PlaceView, views};

verus! {

/// The kind of a step as a number: a dereference comes first, then a field,
/// then an index.
pub open spec fn elem_kind(e: PlaceElem) -> int {
    match e {
        PlaceElem::Deref => 0,
        PlaceElem::Field(_, _) => 1,
        PlaceElem::Index(_) => 2,
    }
}

/// The first number of a step: the index of a field, the local of an index.
pub open spec fn elem_major(e: PlaceElem) -> int {
    match e {
        PlaceElem::Deref => 0,
        PlaceElem::Field(i, _) => i as int,
        PlaceElem::Index(l) => l as int,
    }
}

/// The second number of a step: the type of a field.
pub open spec fn elem_minor(e: PlaceElem) -> int {
    match e {
        PlaceElem::Field(_, ty) => ty as int,
        _ => 0,
    }
}

/// Whether step `a` comes before step `b`: by kind, then by the numbers.
pub open spec fn elem_lt(a: PlaceElem, b: PlaceElem) -> bool {
    ||| elem_kind(a) < elem_kind(b)
    ||| (elem_kind(a) == elem_kind(b) && elem_major(a) < elem_major(b))
    ||| (elem_kind(a) == elem_kind(b) && elem_major(a) == elem_major(b) && elem_minor(a)
        < elem_minor(b))
}

/// Whether path `a` comes before path `b`, step by step; a path comes before
/// every path that goes on from it.
pub open spec fn path_lt(a: Seq<PlaceElem>, b: Seq<PlaceElem>) -> bool
    decreases a.len(),
{
    if b.len() == 0 {
        false
    } else if a.len() == 0 {
        true
    } else if elem_lt(a[0], b[0]) {
        true
    } else if a[0] == b[0] {
        path_lt(a.drop_first(), b.drop_first())
    } else {
        false
    }
}

/// Whether place `a` comes before place `b`: by local, then by path.
pub open spec fn place_lt(a: PlaceView, b: PlaceView) -> bool {
    a.local < b.local || (a.local == b.local && path_lt(a.projection, b.projection))
}

/// Whether the places rise strictly.
pub open spec fn sorted(s: Seq<PlaceView>) -> bool {
    forall|i: int, j: int| 0 <= i < j < s.len() ==> place_lt(s[i], s[j])
}

proof fn lemma_elem_order(a: PlaceElem, b: PlaceElem, c: PlaceElem)
    ensures
        !elem_lt(a, a),
        elem_lt(a, b) && elem_lt(b, c) ==> elem_lt(a, c),
        a != b ==> elem_lt(a, b) || elem_lt(b, a),
{
}

proof fn lemma_path_irreflexive(a: Seq<PlaceElem>)
    ensures
        !path_lt(a, a),
    decreases a.len(),
{
    if a.len() > 0 {
        lemma_elem_order(a[0], a[0], a[0]);
        lemma_path_irreflexive(a.drop_first());
    }
}

proof fn lemma_path_transitive(a: Seq<PlaceElem>, b: Seq<PlaceElem>, c: Seq<PlaceElem>)
    requires
        path_lt(a, b),
        path_lt(b, c),
    ensures
        path_lt(a, c),
    decreases a.len(),
{
    if a.len() > 0 {
        lemma_elem_order(a[0], b[0], c[0]);
        if a[0] == b[0] && b[0] == c[0] {
            lemma_path_transitive(a.drop_first(), b.drop_first(), c.drop_first());
        }
    }
}

proof fn lemma_path_total(a: Seq<PlaceElem>, b: Seq<PlaceElem>)
    requires
        a != b,
    ensures
        path_lt(a, b) || path_lt(b, a),
    decreases a.len(),
{
    if a.len() > 0 && b.len() > 0 {
        lemma_elem_order(a[0], b[0], a[0]);
        if a[0] == b[0] {
            if a.drop_first() == b.drop_first() {
                assert(a =~= seq![a[0]] + a.drop_first());
                assert(b =~= seq![b[0]] + b.drop_first());
            }
            lemma_path_total(a.drop_first(), b.drop_first());
        }
    } else if a.len() == 0 && b.len() == 0 {
        assert(a =~= b);
    }
}

/// The order is strict.
pub proof fn lemma_place_irreflexive(a: PlaceView)
    ensures
        !place_lt(a, a),
{
    lemma_path_irreflexive(a.projection);
}

/// The order is transitive.
pub proof fn lemma_place_transitive(a: PlaceView, b: PlaceView, c: PlaceView)
    requires
        place_lt(a, b),
        place_lt(b, c),
    ensures
        place_lt(a, c),
{
    if a.local == b.local && b.local == c.local {
        lemma_path_transitive(a.projection, b.projection, c.projection);
    }
}

/// The order is total.
pub proof fn lemma_place_total(a: PlaceView, b: PlaceView)
    requires
        a != b,
    ensures
        place_lt(a, b) || place_lt(b, a),
{
    if a.local == b.local {
        if a.projection == b.projection {
            assert(a == b);
        }
        lemma_path_total(a.projection, b.projection);
    }
}

/// Places that rise strictly are distinct.
pub proof fn lemma_sorted_distinct(s: Seq<PlaceView>)
    requires
        sorted(s),
    ensures
        s.no_duplicates(),
{
    assert forall|i: int, j: int| 0 <= i < s.len() && 0 <= j < s.len() && i != j implies s[i]
        != s[j] by {
        lemma_place_irreflexive(s[i]);
        if i < j {
            assert(place_lt(s[i], s[j]));
        } else {
            assert(place_lt(s[j], s[i]));
        }
    }
}

/// A set has one rising sequence only: two rising sequences with the same
/// places are the same sequence.
pub proof fn lemma_sorted_unique(s: Seq<PlaceView>, t: Seq<PlaceView>)
    requires
        sorted(s),
        sorted(t),
        forall|x: PlaceView| s.contains(x) <==> t.contains(x),
    ensures
        s == t,
    decreases s.len(),
{
    if s.len() == 0 {
        if t.len() > 0 {
            assert(t.contains(t[0]));
        }
        assert(s =~= t);
    } else {
        assert(s.contains(s[0]));
        assert(t.contains(s[0]));
        assert(t.contains(t[0]));
        let j = choose|j: int| 0 <= j < t.len() && t[j] == s[0];
        let i = choose|i: int| 0 <= i < s.len() && s[i] == t[0];
        if s[0] != t[0] {
            assert(place_lt(s[0], s[i]));
            assert(place_lt(t[0], t[j]));
            lemma_place_transitive(s[0], t[0], s[0]);
            lemma_place_irreflexive(s[0]);
        }
        let s1 = s.drop_first();
        let t1 = t.drop_first();
        lemma_sorted_distinct(s);
        lemma_sorted_distinct(t);
        assert forall|a: int, b: int| 0 <= a < b < s1.len() implies place_lt(s1[a], s1[b]) by {
            assert(place_lt(s[a + 1], s[b + 1]));
        }
        assert forall|a: int, b: int| 0 <= a < b < t1.len() implies place_lt(t1[a], t1[b]) by {
            assert(place_lt(t[a + 1], t[b + 1]));
        }
        assert forall|x: PlaceView| s1.contains(x) <==> t1.contains(x) by {
            if s1.contains(x) {
                let k = choose|k: int| 0 <= k < s1.len() && s1[k] == x;
                assert(s[k + 1] == x);
                assert(s.contains(x));
                let m = choose|m: int| 0 <= m < t.len() && t[m] == x;
                assert(m != 0);
                assert(t1[m - 1] == x);
            }
            if t1.contains(x) {
                let k = choose|k: int| 0 <= k < t1.len() && t1[k] == x;
                assert(t[k + 1] == x);
                assert(t.contains(x));
                let m = choose|m: int| 0 <= m < s.len() && s[m] == x;
                assert(m != 0);
                assert(s1[m - 1] == x);
            }
        }
        lemma_sorted_unique(s1, t1);
        assert(s =~= seq![s[0]] + s1);
        assert(t =~= seq![t[0]] + t1);
    }
}

/// Whether step `a` comes before step `b`.
pub fn elem_less(a: PlaceElem, b: PlaceElem) -> (r: bool)
    ensures
        r == elem_lt(a, b),
{
    match (a, b) {
        (PlaceElem::Deref, PlaceElem::Deref) => false,
        (PlaceElem::Deref, _) => true,
        (PlaceElem::Field(_, _), PlaceElem::Deref) => false,
        (PlaceElem::Field(i, s), PlaceElem::Field(j, t)) => i < j || (i == j && s < t),
        (PlaceElem::Field(_, _), PlaceElem::Index(_)) => true,
        (PlaceElem::Index(k), PlaceElem::Index(l)) => k < l,
        (PlaceElem::Index(_), _) => false,
    }
}

/// Whether place `a` comes before place `b`.
pub fn place_less(a: &Place, b: &Place) -> (r: bool)
    ensures
        r == place_lt(a@, b@),
{
    if a.local != b.local {
        return a.local < b.local;
    }
    let ghost pa = a.projection@;
    let ghost pb = b.projection@;
    let mut i: usize = 0;
    assert(pa.subrange(0, pa.len() as int) =~= pa);
    assert(pb.subrange(0, pb.len() as int) =~= pb);
    while i < a.projection.len() && i < b.projection.len()
        invariant
            i <= a.projection.len(),
            i <= b.projection.len(),
            a.local == b.local,
            pa == a.projection@,
            pb == b.projection@,
            path_lt(pa, pb) == path_lt(
                pa.subrange(i as int, pa.len() as int),
                pb.subrange(i as int, pb.len() as int),
            ),
        decreases a.projection.len() - i,
    {
        let ghost ra = pa.subrange(i as int, pa.len() as int);
        let ghost rb = pb.subrange(i as int, pb.len() as int);
        assert(ra[0] == pa[i as int] && rb[0] == pb[i as int]);
        assert(ra.drop_first() =~= pa.subrange(i + 1, pa.len() as int));
        assert(rb.drop_first() =~= pb.subrange(i + 1, pb.len() as int));
        if elem_less(a.projection[i], b.projection[i]) {
            assert(path_lt(ra, rb));
            return true;
        }
        if a.projection[i] != b.projection[i] {
            assert(!path_lt(ra, rb));
            return false;
        }
        assert(path_lt(ra, rb) == path_lt(ra.drop_first(), rb.drop_first()));
        i += 1;
    }
    i < b.projection.len()
}

/// Puts `place` into the rising sequence `out`, unless it is there.
pub fn insert_sorted(out: &mut Vec<Place>, place: Place)
    requires
        sorted(views(old(out)@)),
    ensures
        sorted(views(final(out)@)),
        forall|x: PlaceView| #[trigger]
            views(final(out)@).contains(x) <==> (views(old(out)@).contains(x) || x == place@),
{
    let ghost before = views(out@);
    let mut k: usize = 0;
    while k < out.len() && place_less(&out[k], &place)
        invariant
            k <= out.len(),
            views(out@) == before,
            forall|j: int| 0 <= j < k ==> place_lt(#[trigger] before[j], place@),
        decreases out.len() - k,
    {
        assert(before[k as int] == out@[k as int]@);
        k += 1;
    }
    if k < out.len() && out[k].equals(&place) {
        proof {
            assert(before[k as int] == place@);
            assert(before.contains(place@));
        }
        return ;
    }
    let ghost p = place@;
    out.insert(k, place);
    proof {
        let after = views(out@);
        assert(after =~= before.insert(k as int, p));
        assert forall|x: PlaceView| #[trigger] after.contains(x) <==> (before.contains(x) || x
            == p) by {
            if before.contains(x) {
                let m = choose|m: int| 0 <= m < before.len() && before[m] == x;
                if m < k {
                    assert(after[m] == x);
                } else {
                    assert(after[m + 1] == x);
                }
            }
            if x == p {
                assert(after[k as int] == x);
            }
            if after.contains(x) {
                let m = choose|m: int| 0 <= m < after.len() && after[m] == x;
                if m < k {
                    assert(before[m] == x);
                } else if m > k {
                    assert(before[m - 1] == x);
                }
            }
        }
        if k < before.len() {
            assert(before[k as int] == old(out)@[k as int]@);
            lemma_place_total(before[k as int], p);
        }
        assert forall|i: int, j: int| 0 <= i < j < after.len() implies place_lt(
            after[i],
            after[j],
        ) by {
            if j < k {
                assert(place_lt(before[i], before[j]));
            } else if j == k {
                assert(place_lt(before[i], p));
            } else if i < k {
                assert(after[j] == before[j - 1]);
                if j - 1 > i {
                    assert(place_lt(before[i], before[j - 1]));
                } else {
                    assert(place_lt(before[i], p));
                    assert(false);
                }
            } else if i == k {
                assert(after[j] == before[j - 1]);
                if j - 1 > k {
                    assert(place_lt(before[k as int], before[j - 1]));
                    lemma_place_transitive(p, before[k as int], before[j - 1]);
                }
            } else {
                assert(after[i] == before[i - 1] && after[j] == before[j - 1]);
                assert(place_lt(before[i - 1], before[j - 1]));
            }
        }
    }
}

/// The places of `set` in rising order, each once.
pub fn sort_places(set: &Vec<Place>) -> (r: Vec<Place>)
    ensures
        sorted(views(r@)),
        forall|x: PlaceView| #[trigger] views(r@).contains(x) <==> views(set@).contains(x),
{
    let mut r: Vec<Place> = Vec::new();
    let mut i: usize = 0;
    assert(views(r@) =~= Seq::<PlaceView>::empty());
    while i < set.len()
        invariant
            i <= set.len(),
            sorted(views(r@)),
            forall|x: PlaceView| #[trigger]
                views(r@).contains(x) <==> exists|j: int| 0 <= j < i && views(set@)[j] == x,
        decreases set.len() - i,
    {
        let ghost before = views(r@);
        insert_sorted(&mut r, set[i].clone());
        proof {
            assert(views(set@)[i as int] == set@[i as int]@);
            assert forall|x: PlaceView| #[trigger]
                views(r@).contains(x) <==> exists|j: int| 0 <= j < i + 1 && views(set@)[j] == x by {
                if exists|j: int| 0 <= j < i && views(set@)[j] == x {
                    let j = choose|j: int| 0 <= j < i && views(set@)[j] == x;
                    assert(0 <= j < i + 1 && views(set@)[j] == x);
                }
                if x == set@[i as int]@ {
                    assert(0 <= i < i + 1 && views(set@)[i as int] == x);
                }
                if exists|j: int| 0 <= j < i + 1 && views(set@)[j] == x {
                    let j = choose|j: int| 0 <= j < i + 1 && views(set@)[j] == x;
                    if j < i {
                        assert(before.contains(x));
                    }
                }
            }
        }
        i += 1;
    }
    proof {
        assert forall|x: PlaceView| #[trigger] views(r@).contains(x) <==> views(set@).contains(
            x,
        ) by {
            if views(set@).contains(x) {
                let j = choose|j: int| 0 <= j < views(set@).len() && views(set@)[j] == x;
                assert(0 <= j < set.len() && views(set@)[j] == x);
            }
        }
    }
    r
}

} // verus!
