use flowistry::aliases::{Aliases, BorrowFacts};
use flowistry::body::{BasicBlock, Body, Rvalue, Statement, Terminator, TyKind};
use flowistry::extensions::EvalMode;
use flowistry::memo::QueryCache;
use flowistry::place::{Place, PlaceElem};

const UNIT: usize = 0;
const INT: usize = 1;
const ARRAY: usize = 2;
const ARRAY_REF: usize = 3;

/// `let a = [0; 4]; let r = &a;`
fn engine() -> Aliases {
    let types = vec![
        TyKind::Tuple { fields: vec![] },
        TyKind::Other,
        TyKind::Array { elem: INT },
        TyKind::Ref { region: 1, pointee: ARRAY },
    ];
    let statements = vec![Statement::Assign {
        place: Place::from_local(2),
        rvalue: Rvalue::Ref { region: 2, place: Place::from_local(1) },
    }];
    let body = Body {
        local_decls: vec![UNIT, ARRAY, ARRAY_REF],
        arg_count: 0,
        types,
        blocks: vec![BasicBlock { statements, terminator: Terminator::Other }],
        context_ty: None,
    };
    Aliases::build(body, BorrowFacts { num_regions: 3, subset_base: vec![(2, 1)] }, EvalMode::default()).unwrap()
}

fn element(index: usize) -> Place {
    Place::make(2, vec![PlaceElem::Deref, PlaceElem::Index(index)])
}

#[test]
fn a_new_cache_remembers_nothing() {
    let cache = QueryCache::new();
    assert!(cache.aliases.is_empty());
    assert!(cache.conflicts.is_empty());
    assert!(cache.reachable.is_empty());
}

#[test]
fn the_first_answer_is_that_of_the_engine() {
    let engine = engine();
    let mut cache = QueryCache::new();
    let asked = element(3);
    let fresh = engine.aliases(&asked);
    assert_eq!(fresh, vec![Place::make(1, vec![PlaceElem::Index(3)]), asked.clone()]);
    assert_eq!(cache.aliases(&engine, &asked), fresh);
    assert_eq!(cache.aliases.len(), 1);
    assert_eq!(cache.aliases[0].key, element(0));
    assert_eq!(cache.aliases[0].value, fresh);
    assert_eq!(cache.aliases(&engine, &asked), fresh);
    assert_eq!(cache.aliases.len(), 1);
}

#[test]
fn aliases_are_remembered_under_the_normalized_place() {
    let engine = engine();
    let mut cache = QueryCache::new();
    let first = cache.aliases(&engine, &element(3));
    let second = cache.aliases(&engine, &element(5));
    assert_eq!(second, first);
    assert_eq!(cache.aliases.len(), 1);
    assert_eq!(engine.aliases(&element(5)), vec![Place::make(1, vec![PlaceElem::Index(5)]), element(5)]);
    let pointer = cache.aliases(&engine, &Place::from_local(2));
    assert_eq!(pointer, vec![Place::from_local(2)]);
    assert_eq!(cache.aliases.len(), 2);
}

#[test]
fn conflicts_are_remembered_under_the_place() {
    let engine = engine();
    let mut cache = QueryCache::new();
    let asked = Place::make(2, vec![PlaceElem::Deref]);
    let fresh = engine.conflicts(&asked);
    assert_eq!(
        fresh,
        vec![
            Place::from_local(1),
            Place::make(1, vec![PlaceElem::Index(0)]),
            asked.clone(),
            Place::make(2, vec![PlaceElem::Deref, PlaceElem::Index(0)]),
        ]
    );
    assert_eq!(cache.conflicts(&engine, &asked), fresh);
    assert_eq!(cache.conflicts.len(), 1);
    assert_eq!(cache.aliases.len(), 1);
    assert_eq!(cache.conflicts(&engine, &asked), fresh);
    assert_eq!(cache.conflicts.len(), 1);
    assert_eq!(cache.aliases.len(), 1);
    cache.conflicts(&engine, &element(1));
    cache.conflicts(&engine, &element(2));
    assert_eq!(cache.conflicts.len(), 3);
    assert_eq!(cache.aliases.len(), 2);
    let of_first = vec![Place::from_local(1), Place::make(1, vec![PlaceElem::Index(1)]), element(1)];
    assert_eq!(cache.conflicts[1].value, of_first);
    assert_eq!(cache.conflicts[2].key, element(2));
    assert_eq!(cache.conflicts[2].value, of_first);
}

#[test]
fn reachable_values_are_remembered_under_place_and_depth() {
    let engine = engine();
    let mut cache = QueryCache::new();
    let pointer = Place::from_local(2);
    let fresh = engine.reachable_values(&pointer, false);
    assert_eq!(fresh, vec![Place::from_local(1), pointer.clone()]);
    assert_eq!(cache.reachable_values(&engine, &pointer, false), fresh);
    assert_eq!(cache.reachable.len(), 1);
    assert_eq!(cache.aliases.len(), 1);
    assert_eq!(cache.aliases[0].key, Place::make(2, vec![PlaceElem::Deref]));
    assert_eq!(cache.reachable_values(&engine, &pointer, false), fresh);
    assert_eq!(cache.reachable.len(), 1);
    assert_eq!(cache.reachable_values(&engine, &pointer, true), fresh);
    assert_eq!(cache.reachable.len(), 2);
    assert!(cache.reachable[1].shallow);
    assert_eq!(cache.reachable_values(&engine, &Place::from_local(0), false), vec![Place::from_local(0)]);
    assert!(cache.conflicts.is_empty());
}
