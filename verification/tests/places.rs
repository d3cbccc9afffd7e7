use flowistry::body::{Body, Operand, Rvalue, TyKind};
use flowistry::body::{collect_operand_places, collect_rvalue_places};
use flowistry::constraints::{collect_arg_pointers, generate_conservative_constraints, RegionPointer};
use flowistry::order::{elem_less, insert_sorted, place_less, sort_places};
use flowistry::place::{contains_place, insert_place, Place, PlaceElem};

const INT: usize = 0;
const LIST: usize = 1;
const LIST_REF: usize = 2;
const PAIR: usize = 3;
const ARRAY: usize = 4;
const RAW: usize = 5;
const UNIT: usize = 6;
const PAIR_REF: usize = 7;

fn types() -> Vec<TyKind> {
    vec![
        TyKind::Other,
        TyKind::Struct { fields: vec![INT, LIST_REF] },
        TyKind::Ref { region: 1, pointee: LIST },
        TyKind::Tuple { fields: vec![LIST_REF, INT] },
        TyKind::Array { elem: PAIR },
        TyKind::Ptr { pointee: INT },
        TyKind::Tuple { fields: vec![] },
        TyKind::Ref { region: 2, pointee: PAIR },
    ]
}

fn body() -> Body {
    Body {
        local_decls: vec![UNIT, LIST, LIST_REF, PAIR, ARRAY, RAW, PAIR_REF],
        arg_count: 2,
        types: types(),
        blocks: vec![],
        context_ty: Some(RAW),
    }
}

fn place(l: usize, projection: Vec<PlaceElem>) -> Place {
    Place::make(l, projection)
}

#[test]
fn places_are_equal_by_base_and_path() {
    let a = place(1, vec![PlaceElem::Field(0, INT), PlaceElem::Deref]);
    let b = place(1, vec![PlaceElem::Field(0, INT), PlaceElem::Deref]);
    assert!(a.equals(&b));
    assert!(a.equals(&a.clone()));
    assert!(!a.equals(&place(2, vec![PlaceElem::Field(0, INT), PlaceElem::Deref])));
    assert!(!a.equals(&place(1, vec![PlaceElem::Field(0, INT)])));
    assert!(!a.equals(&place(1, vec![PlaceElem::Field(1, INT), PlaceElem::Deref])));
    assert!(!a.equals(&place(1, vec![PlaceElem::Field(0, LIST), PlaceElem::Deref])));
}

#[test]
fn projections_are_appended_and_cut() {
    let base = place(3, vec![PlaceElem::Field(0, LIST_REF)]);
    let deeper = base.project_deeper(&vec![PlaceElem::Deref, PlaceElem::Field(1, LIST_REF)]);
    assert_eq!(
        deeper,
        place(3, vec![PlaceElem::Field(0, LIST_REF), PlaceElem::Deref, PlaceElem::Field(1, LIST_REF)])
    );
    assert_eq!(base.deref_place(), place(3, vec![PlaceElem::Field(0, LIST_REF), PlaceElem::Deref]));
    assert_eq!(deeper.prefix(1), base);
    assert_eq!(deeper.prefix(0), Place::from_local(3));
    assert_eq!(deeper.suffix(2), vec![PlaceElem::Field(1, LIST_REF)]);
    assert_eq!(deeper.suffix(3), vec![]);
    assert_eq!(deeper.last_deref(), Some(1));
    assert_eq!(base.last_deref(), None);
    assert!(deeper.is_indirect());
    assert!(!base.is_indirect());
    let twice = deeper.deref_place();
    assert_eq!(twice.last_deref(), Some(3));
}

#[test]
fn a_set_of_places_holds_each_place_once() {
    let mut set: Vec<Place> = Vec::new();
    assert!(insert_place(&mut set, Place::from_local(1)));
    assert!(insert_place(&mut set, Place::from_local(2)));
    assert!(!insert_place(&mut set, Place::from_local(1)));
    assert_eq!(set, vec![Place::from_local(1), Place::from_local(2)]);
    assert!(contains_place(&set, &Place::from_local(2)));
    assert!(!contains_place(&set, &Place::from_local(3)));
}

#[test]
fn the_type_of_a_place_follows_its_path() {
    let body = body();
    assert_eq!(body.place_ty(&Place::from_local(1)), Some(LIST));
    assert_eq!(body.place_ty(&place(1, vec![PlaceElem::Field(1, LIST_REF)])), Some(LIST_REF));
    assert_eq!(body.place_ty(&place(2, vec![PlaceElem::Deref])), Some(LIST));
    assert_eq!(body.place_ty(&place(4, vec![PlaceElem::Index(9)])), Some(PAIR));
    assert_eq!(body.place_ty(&place(5, vec![PlaceElem::Deref])), Some(INT));
    assert_eq!(body.place_ty(&place(1, vec![PlaceElem::Deref])), None);
    assert_eq!(body.place_ty(&place(1, vec![PlaceElem::Index(0)])), None);
    assert_eq!(body.place_ty(&Place::from_local(7)), None);
    assert_eq!(body.place_ty(&place(1, vec![PlaceElem::Deref, PlaceElem::Field(0, INT)])), None);
    assert_eq!(body.prefix_ty(&place(2, vec![PlaceElem::Deref, PlaceElem::Field(0, INT)]), 1), Some(LIST));
    assert_eq!(body.project_ty(ARRAY, PlaceElem::Index(0)), Some(PAIR));
    assert_eq!(body.project_ty(99, PlaceElem::Deref), None);
    assert_eq!(body.pointee(LIST_REF), Some(LIST));
    assert_eq!(body.pointee(RAW), Some(INT));
    assert_eq!(body.ref_parts(RAW), None);
    assert_eq!(body.ref_parts(PAIR_REF), Some((2, PAIR)));
    assert!(body.is_unit(UNIT));
    assert!(!body.is_unit(PAIR));
}

#[test]
fn references_are_peeled_off() {
    let mut body = body();
    assert_eq!(body.peel_refs(LIST_REF), LIST);
    assert_eq!(body.peel_refs(RAW), RAW);
    assert_eq!(body.peel_refs(INT), INT);
    body.types.push(TyKind::Ref { region: 0, pointee: PAIR_REF });
    assert_eq!(body.peel_refs(8), PAIR);
    body.types.push(TyKind::Ref { region: 0, pointee: 9 });
    assert_eq!(body.peel_refs(9), 9);
}

#[test]
fn arguments_are_direct_behind_their_pointers() {
    let body = body();
    assert!(!body.is_arg(0));
    assert!(body.is_arg(1));
    assert!(body.is_arg(2));
    assert!(!body.is_arg(3));
    assert!(body.is_direct(&place(2, vec![PlaceElem::Deref])));
    assert!(body.is_direct(&Place::from_local(6)));
    assert!(!body.is_direct(&place(6, vec![PlaceElem::Deref])));
    assert!(body.ignore_place(&Place::from_local(5)));
    assert!(!body.ignore_place(&Place::from_local(1)));
    assert!(!body.ignore_place(&Place::from_local(70)));
}

#[test]
fn the_walk_ends_on_a_recursive_type() {
    let body = body();
    let list = Place::from_local(1);
    let next = place(1, vec![PlaceElem::Field(1, LIST_REF)]);
    assert_eq!(body.interior_pointers(&list, false), vec![next.clone()]);
    assert_eq!(body.interior_pointers(&list, true), vec![next.clone()]);
    assert_eq!(body.interior_pointers(&Place::from_local(2), true), vec![Place::from_local(2)]);
    assert_eq!(body.interior_pointers(&Place::from_local(2), false), vec![Place::from_local(2)]);
}

#[test]
fn the_walk_goes_through_arrays_tuples_and_pointers() {
    let body = body();
    assert_eq!(
        body.interior_pointers(&Place::from_local(4), true),
        vec![place(4, vec![PlaceElem::Index(0), PlaceElem::Field(0, LIST_REF)])]
    );
    assert_eq!(
        body.interior_pointers(&Place::from_local(6), false),
        vec![Place::from_local(6), place(6, vec![PlaceElem::Deref, PlaceElem::Field(0, LIST_REF)])]
    );
    assert_eq!(body.interior_pointers(&Place::from_local(5), false), vec![Place::from_local(5)]);
    assert_eq!(body.interior_pointers(&Place::from_local(0), false), vec![]);
    assert_eq!(body.interior_pointers(&Place::from_local(30), false), vec![]);
}

#[test]
fn operands_give_their_places() {
    let ops = vec![Operand::Copy(Place::from_local(1)), Operand::Constant, Operand::Move(Place::from_local(2))];
    assert_eq!(collect_operand_places(&ops), vec![Place::from_local(1), Place::from_local(2)]);
    assert_eq!(Operand::Constant.as_place(), None);
    assert_eq!(collect_rvalue_places(&Rvalue::Use(Operand::Constant)), vec![]);
    assert_eq!(
        collect_rvalue_places(&Rvalue::Ref { region: 1, place: Place::from_local(4) }),
        vec![Place::from_local(4)]
    );
    assert_eq!(
        collect_rvalue_places(&Rvalue::Operation { operands: ops }),
        vec![Place::from_local(1), Place::from_local(2)]
    );
}

#[test]
fn the_pointers_of_the_arguments() {
    let body = body();
    let found = collect_arg_pointers(&body);
    let seen: Vec<(usize, Place)> = found.into_iter().map(|p| (p.region, p.place)).collect();
    assert_eq!(
        seen,
        vec![(1, place(1, vec![PlaceElem::Field(1, LIST_REF)])), (1, Place::from_local(2))]
    );
}

#[test]
fn pointers_to_one_type_are_joined_both_ways() {
    let body = body();
    let pointers = vec![
        RegionPointer { region: 1, place: Place::from_local(2) },
        RegionPointer { region: 2, place: Place::from_local(6) },
        RegionPointer { region: 3, place: place(3, vec![PlaceElem::Field(0, LIST_REF)]) },
        RegionPointer { region: 1, place: place(1, vec![PlaceElem::Field(1, LIST_REF)]) },
        RegionPointer { region: 4, place: Place::from_local(1) },
    ];
    let pairs = generate_conservative_constraints(&body, &pointers);
    assert_eq!(pairs, vec![(1, 3), (3, 1), (3, 1), (1, 3)]);
    assert_eq!(generate_conservative_constraints(&body, &vec![]), vec![]);
}

#[test]
fn places_are_ordered_by_local_and_path() {
    assert!(elem_less(PlaceElem::Deref, PlaceElem::Field(0, 0)));
    assert!(elem_less(PlaceElem::Field(9, 9), PlaceElem::Index(0)));
    assert!(elem_less(PlaceElem::Field(1, 9), PlaceElem::Field(2, 0)));
    assert!(elem_less(PlaceElem::Field(1, 3), PlaceElem::Field(1, 4)));
    assert!(elem_less(PlaceElem::Index(1), PlaceElem::Index(2)));
    assert!(!elem_less(PlaceElem::Deref, PlaceElem::Deref));
    assert!(!elem_less(PlaceElem::Index(2), PlaceElem::Field(3, 3)));
    let a = place(1, vec![PlaceElem::Deref]);
    let b = place(1, vec![PlaceElem::Deref, PlaceElem::Field(0, INT)]);
    let c = place(1, vec![PlaceElem::Field(0, INT)]);
    let d = place(2, vec![]);
    assert!(place_less(&a, &b) && place_less(&b, &c) && place_less(&c, &d) && place_less(&a, &d));
    assert!(!place_less(&b, &a) && !place_less(&a, &a) && !place_less(&d, &c));
    let sorted = sort_places(&vec![d.clone(), b.clone(), a.clone(), b.clone(), c.clone()]);
    assert_eq!(sorted, vec![a.clone(), b.clone(), c.clone(), d.clone()]);
    let mut set = vec![a.clone(), c.clone()];
    insert_sorted(&mut set, b.clone());
    insert_sorted(&mut set, c.clone());
    insert_sorted(&mut set, Place::from_local(0));
    assert_eq!(set, vec![Place::from_local(0), a, b, c]);
}
