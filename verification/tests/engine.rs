use flowistry::aliases::{Aliases, BorrowFacts, BuildError, LocationDomain};
use flowistry::body::{BasicBlock, Body, Location, Operand, Rvalue, Statement, Terminator, TyKind};
use flowistry::extensions::{EvalMode, PointerMode};
use flowistry::loans::{compute_definite, gather_borrows};
use flowistry::place::{Place, PlaceElem};
use flowistry::propagate::propagate;

const UNIT: usize = 0;
const INT: usize = 1;

fn local(l: usize) -> Place {
    Place::from_local(l)
}

fn place(l: usize, projection: Vec<PlaceElem>) -> Place {
    Place::make(l, projection)
}

fn conservative() -> EvalMode {
    let mut mode = EvalMode::default();
    mode.pointer_mode = PointerMode::Conservative;
    mode
}

fn assign(place: Place, rvalue: Rvalue) -> Statement {
    Statement::Assign { place, rvalue }
}

fn borrow(region: usize, place: Place) -> Rvalue {
    Rvalue::Ref { region, place }
}

fn one_block(statements: Vec<Statement>) -> Vec<BasicBlock> {
    vec![BasicBlock { statements, terminator: Terminator::Other }]
}

/// `let mut x = 1; let y = &mut x; *y;`
fn borrow_of_a_local() -> (Body, BorrowFacts) {
    let types = vec![
        TyKind::Tuple { fields: vec![] },
        TyKind::Other,
        TyKind::Ref { region: 1, pointee: INT },
    ];
    let statements = vec![
        assign(local(1), Rvalue::Use(Operand::Constant)),
        assign(local(2), borrow(2, local(1))),
        assign(local(3), Rvalue::Use(Operand::Copy(place(2, vec![PlaceElem::Deref])))),
    ];
    let body = Body {
        local_decls: vec![UNIT, INT, 2, INT],
        arg_count: 0,
        types,
        blocks: one_block(statements),
        context_ty: None,
    };
    (body, BorrowFacts { num_regions: 3, subset_base: vec![(2, 1)] })
}

/// `a = &mut (0, 0); b = &mut a.0; c = &mut *b; *c = 1;`
fn chain_of_reborrows() -> (Body, BorrowFacts) {
    let pair = 2;
    let types = vec![
        TyKind::Tuple { fields: vec![] },
        TyKind::Other,
        TyKind::Tuple { fields: vec![INT, INT] },
        TyKind::Ref { region: 1, pointee: pair },
        TyKind::Ref { region: 2, pointee: INT },
        TyKind::Ref { region: 3, pointee: INT },
    ];
    let a_0 = place(2, vec![PlaceElem::Deref, PlaceElem::Field(0, INT)]);
    let statements = vec![
        assign(local(1), Rvalue::Aggregate { ty: pair, operands: vec![Operand::Constant, Operand::Constant] }),
        assign(local(2), borrow(4, local(1))),
        assign(local(3), borrow(5, a_0)),
        assign(local(4), borrow(6, place(3, vec![PlaceElem::Deref]))),
        assign(place(4, vec![PlaceElem::Deref]), Rvalue::Use(Operand::Constant)),
    ];
    let body = Body {
        local_decls: vec![UNIT, pair, 3, 4, 5],
        arg_count: 0,
        types,
        blocks: one_block(statements),
        context_ty: None,
    };
    let facts = BorrowFacts { num_regions: 7, subset_base: vec![(4, 1), (1, 5), (5, 2), (2, 6), (6, 3)] };
    (body, facts)
}

/// `fn f(p: &T, q: &T) { let r = &*p; }`
fn two_arguments_of_one_type() -> (Body, BorrowFacts) {
    let types = vec![
        TyKind::Tuple { fields: vec![] },
        TyKind::Other,
        TyKind::Ref { region: 1, pointee: INT },
        TyKind::Ref { region: 2, pointee: INT },
        TyKind::Ref { region: 3, pointee: INT },
    ];
    let statements = vec![assign(local(3), borrow(4, place(1, vec![PlaceElem::Deref])))];
    let body = Body {
        local_decls: vec![UNIT, 2, 3, 4],
        arg_count: 2,
        types,
        blocks: one_block(statements),
        context_ty: None,
    };
    (body, BorrowFacts { num_regions: 5, subset_base: vec![(1, 4), (4, 3)] })
}

fn build(parts: (Body, BorrowFacts), mode: EvalMode) -> Aliases {
    Aliases::build(parts.0, parts.1, mode).unwrap()
}

#[test]
fn test_sccs() {
    let aliases = build(borrow_of_a_local(), EvalMode::default());
    let x = local(1);
    let y = local(2);
    let y_deref = y.deref_place();
    assert!(aliases.aliases(&y_deref).contains(&x));
}

#[test]
fn a_place_is_one_of_its_own_aliases() {
    let aliases = build(chain_of_reborrows(), EvalMode::default());
    for p in [
        local(1),
        place(4, vec![PlaceElem::Deref]),
        place(2, vec![PlaceElem::Deref, PlaceElem::Field(1, INT)]),
        place(9, vec![PlaceElem::Index(3), PlaceElem::Deref]),
    ] {
        assert!(aliases.aliases(&p).contains(&p));
    }
}

#[test]
fn a_place_without_dereference_aliases_only_itself() {
    let aliases = build(chain_of_reborrows(), EvalMode::default());
    assert_eq!(aliases.aliases(&local(2)), vec![local(2)]);
    let field = place(1, vec![PlaceElem::Field(0, INT)]);
    assert_eq!(aliases.aliases(&field), vec![field.clone()]);
}

#[test]
fn the_target_of_an_argument_aliases_only_itself() {
    let aliases = build(two_arguments_of_one_type(), EvalMode::default());
    let target = place(1, vec![PlaceElem::Deref]);
    assert_eq!(aliases.aliases(&target), vec![target.clone()]);
}

#[test]
fn a_pointer_that_is_no_reference_is_not_resolved() {
    let types = vec![TyKind::Tuple { fields: vec![] }, TyKind::Other, TyKind::Ptr { pointee: INT }];
    let body = Body {
        local_decls: vec![UNIT, 2],
        arg_count: 0,
        types,
        blocks: one_block(vec![]),
        context_ty: None,
    };
    let aliases = Aliases::build(body, BorrowFacts { num_regions: 1, subset_base: vec![] }, EvalMode::default())
        .unwrap();
    let target = place(1, vec![PlaceElem::Deref]);
    assert_eq!(aliases.aliases(&target), vec![target.clone()]);
    let ill_typed = place(5, vec![PlaceElem::Deref]);
    assert_eq!(aliases.aliases(&ill_typed), vec![ill_typed.clone()]);
}

#[test]
fn reborrows_keep_the_field_apart() {
    let aliases = build(chain_of_reborrows(), EvalMode::default());
    let c_deref = place(4, vec![PlaceElem::Deref]);
    let found = aliases.aliases(&c_deref);
    let a_0 = place(1, vec![PlaceElem::Field(0, INT)]);
    assert!(found.contains(&a_0));
    assert!(!found.contains(&local(1)));
    assert!(!found.contains(&place(1, vec![PlaceElem::Field(1, INT)])));
    assert_eq!(
        found,
        vec![
            a_0.clone(),
            place(2, vec![PlaceElem::Deref, PlaceElem::Field(0, INT)]),
            place(3, vec![PlaceElem::Deref]),
            c_deref.clone(),
        ]
    );
}

#[test]
fn the_loans_of_the_chain() {
    let aliases = build(chain_of_reborrows(), EvalMode::default());
    let a_0 = place(1, vec![PlaceElem::Field(0, INT)]);
    let through_a = place(2, vec![PlaceElem::Deref, PlaceElem::Field(0, INT)]);
    assert_eq!(aliases.loans[0], vec![]);
    assert_eq!(aliases.loans[4], vec![local(1)]);
    assert_eq!(aliases.loans[1], vec![local(1)]);
    assert_eq!(aliases.loans[5], vec![a_0.clone(), through_a.clone()]);
    assert_eq!(aliases.loans[2], vec![a_0.clone(), through_a.clone()]);
    assert_eq!(aliases.loans[6], vec![a_0.clone(), through_a.clone(), place(3, vec![PlaceElem::Deref])]);
    assert_eq!(aliases.loans[3], aliases.loans[6]);
}

#[test]
fn the_record_of_a_region_comes_from_its_borrow() {
    let (body, _) = chain_of_reborrows();
    let through_field = compute_definite(&body, &place(2, vec![PlaceElem::Deref, PlaceElem::Field(0, INT)])).unwrap();
    assert_eq!(through_field.ty, 2);
    assert_eq!(through_field.projection, vec![PlaceElem::Field(0, INT)]);
    let whole = compute_definite(&body, &place(1, vec![PlaceElem::Field(1, INT)])).unwrap();
    assert_eq!(whole.ty, 2);
    assert_eq!(whole.projection, vec![PlaceElem::Field(1, INT)]);
    assert!(compute_definite(&body, &local(17)).is_none());
    let borrows = gather_borrows(&body);
    assert_eq!(borrows.len(), 3);
    assert_eq!(borrows[1].region, 5);
    assert_eq!(borrows[2].place, place(3, vec![PlaceElem::Deref]));
}

#[test]
fn containment_follows_the_subset_relation() {
    let aliases = build(chain_of_reborrows(), EvalMode::default());
    let n = aliases.loans.len();
    for a in 0..n {
        for b in 0..n {
            if aliases.graph.reach[a][b] {
                for p in &aliases.loans[a] {
                    let kept = aliases.loans[b].iter().any(|q| {
                        q.local == p.local
                            && q.projection.len() >= p.projection.len()
                            && q.projection[..p.projection.len()] == p.projection[..]
                    });
                    assert!(kept, "{:?} of region {} is lost in region {}", p, a, b);
                }
            }
        }
    }
}

#[test]
fn a_second_run_of_the_fixpoint_changes_nothing() {
    let mut aliases = build(chain_of_reborrows(), EvalMode::default());
    let before: Vec<Vec<Place>> = aliases.loans.iter().map(|set| set.iter().cloned().collect()).collect();
    let mut sets = std::mem::take(&mut aliases.loans);
    propagate(&aliases.body, &aliases.graph, &aliases.definite, &mut sets);
    assert_eq!(sets, before);
}

#[test]
fn two_builds_agree() {
    for mode in [EvalMode::default(), conservative()] {
        let first = build(two_arguments_of_one_type(), mode);
        let second = build(two_arguments_of_one_type(), mode);
        assert_eq!(first.loans, second.loans);
        assert_eq!(first.graph.edges, second.graph.edges);
        let r_deref = place(3, vec![PlaceElem::Deref]);
        assert_eq!(first.aliases(&r_deref), second.aliases(&r_deref));
        assert_eq!(first.conflicts(&r_deref), second.conflicts(&r_deref));
        assert_eq!(first.reachable_values(&local(3), false), second.reachable_values(&local(3), false));
    }
}

#[test]
fn the_conservative_mode_joins_pointers_to_one_type() {
    let precise = build(two_arguments_of_one_type(), EvalMode::default());
    let wide = build(two_arguments_of_one_type(), conservative());
    let r_deref = place(3, vec![PlaceElem::Deref]);
    let p_deref = place(1, vec![PlaceElem::Deref]);
    let q_deref = place(2, vec![PlaceElem::Deref]);
    assert_eq!(precise.aliases(&r_deref), vec![p_deref.clone(), r_deref.clone()]);
    assert_eq!(wide.aliases(&r_deref), vec![p_deref.clone(), q_deref.clone(), r_deref.clone()]);
    let found = wide.aliases(&r_deref);
    assert_eq!(found.len(), 3);
    assert!(found.contains(&r_deref) && found.contains(&p_deref) && found.contains(&q_deref));
    for alias in precise.aliases(&r_deref) {
        assert!(found.contains(&alias));
    }
    assert!(!precise.graph.edges[1][2] && !precise.graph.edges[2][1]);
    assert!(wide.graph.edges[1][2] && wide.graph.edges[2][1]);
    assert!(!wide.graph.edges[1][3] && !wide.graph.edges[3][2]);
}

#[test]
fn a_region_outside_the_facts_is_refused() {
    let (body, _) = borrow_of_a_local();
    let too_few = BorrowFacts { num_regions: 2, subset_base: vec![] };
    assert_eq!(Aliases::build(body, too_few, EvalMode::default()).err(), Some(BuildError::InconsistentFacts));
    let (body, _) = borrow_of_a_local();
    let bad_pair = BorrowFacts { num_regions: 3, subset_base: vec![(2, 3)] };
    assert_eq!(Aliases::build(body, bad_pair, EvalMode::default()).err(), Some(BuildError::InconsistentFacts));
    let (mut body, facts) = borrow_of_a_local();
    body.types[2] = TyKind::Ref { region: 3, pointee: INT };
    assert_eq!(Aliases::build(body, facts, EvalMode::default()).err(), Some(BuildError::InconsistentFacts));
    let (body, facts) = borrow_of_a_local();
    assert!(Aliases::build(body, facts, EvalMode::default()).is_ok());
}

#[test]
fn an_argument_points_to_its_target() {
    let aliases = build(two_arguments_of_one_type(), EvalMode::default());
    assert_eq!(aliases.loans[1], vec![place(1, vec![PlaceElem::Deref])]);
    assert_eq!(aliases.loans[2], vec![place(2, vec![PlaceElem::Deref])]);
    assert_eq!(aliases.loans[4], vec![place(1, vec![PlaceElem::Deref])]);
    assert_eq!(aliases.loans[3], vec![place(1, vec![PlaceElem::Deref])]);
}

#[test]
fn children_are_one_step_below() {
    let aliases = build(chain_of_reborrows(), EvalMode::default());
    assert_eq!(
        aliases.children(&local(1)),
        vec![place(1, vec![PlaceElem::Field(0, INT)]), place(1, vec![PlaceElem::Field(1, INT)])]
    );
    assert_eq!(aliases.children(&local(2)), vec![]);
    assert_eq!(aliases.children(&local(40)), vec![]);
}

#[test]
fn conflicts_take_in_what_lies_above_and_below() {
    let aliases = build(chain_of_reborrows(), EvalMode::default());
    let a_0 = place(1, vec![PlaceElem::Field(0, INT)]);
    assert_eq!(aliases.conflicts(&a_0), vec![local(1), a_0.clone()]);
    assert_eq!(aliases.conflicts(&local(1)), vec![local(1), a_0.clone(), place(1, vec![PlaceElem::Field(1, INT)])]);
    let c_deref = place(4, vec![PlaceElem::Deref]);
    let found = aliases.conflicts(&c_deref);
    assert_eq!(
        found,
        vec![
            local(1),
            a_0.clone(),
            place(2, vec![PlaceElem::Deref, PlaceElem::Field(0, INT)]),
            place(3, vec![PlaceElem::Deref]),
            c_deref.clone(),
        ]
    );
}

#[test]
fn reachable_values_follow_the_pointers() {
    let aliases = build(chain_of_reborrows(), EvalMode::default());
    let a_0 = place(1, vec![PlaceElem::Field(0, INT)]);
    assert_eq!(aliases.reachable_values(&local(4), false), vec![a_0.clone(), local(4)]);
    assert_eq!(aliases.reachable_values(&local(4), true), vec![a_0.clone(), local(4)]);
    assert_eq!(aliases.reachable_values(&local(2), false), vec![local(1), local(2)]);
    assert_eq!(aliases.reachable_values(&local(1), false), vec![local(1)]);
    let indirect = place(4, vec![PlaceElem::Deref]);
    assert_eq!(aliases.reachable_values(&indirect, false), vec![]);
}

#[test]
fn normalize_forgets_the_index() {
    let aliases = build(borrow_of_a_local(), EvalMode::default());
    let indexed = place(1, vec![PlaceElem::Index(7), PlaceElem::Field(2, INT), PlaceElem::Deref]);
    assert_eq!(
        aliases.normalize(&indexed),
        place(1, vec![PlaceElem::Index(0), PlaceElem::Field(2, INT), PlaceElem::Deref])
    );
    assert_eq!(aliases.normalize(&local(3)), local(3));
}

#[test]
fn the_location_domain_lists_every_point() {
    let body = Body {
        local_decls: vec![UNIT, INT, INT],
        arg_count: 2,
        types: vec![TyKind::Tuple { fields: vec![] }, TyKind::Other],
        blocks: vec![
            BasicBlock {
                statements: vec![Statement::Other, Statement::Other],
                terminator: Terminator::Other,
            },
            BasicBlock { statements: vec![], terminator: Terminator::Other },
        ],
        context_ty: None,
    };
    let domain = LocationDomain::new(&body);
    let at = |block, statement_index| Location { block, statement_index };
    assert_eq!(domain.locations, vec![at(0, 0), at(0, 1), at(0, 2), at(1, 0)]);
    assert_eq!(domain.arg_places, vec![local(1), local(2)]);
    let aliases = Aliases::build(body, BorrowFacts { num_regions: 1, subset_base: vec![] }, EvalMode::default())
        .unwrap();
    assert_eq!(aliases.location_domain().locations.len(), 4);
}

/// `fn f(p: &T, q: &T) { let z: T; .. = &z; .. = &(*p).0; let v: &T; }` with
/// the region of `p` a subset of the region of `q`.
fn an_edge_between_two_arguments() -> (Body, BorrowFacts) {
    let record = 2;
    let types = vec![
        TyKind::Tuple { fields: vec![] },
        TyKind::Other,
        TyKind::Struct { fields: vec![INT] },
        TyKind::Ref { region: 1, pointee: record },
        TyKind::Ref { region: 2, pointee: record },
    ];
    let statements = vec![
        assign(local(4), borrow(5, local(3))),
        assign(local(4), borrow(2, place(1, vec![PlaceElem::Deref, PlaceElem::Field(0, INT)]))),
    ];
    let body = Body {
        local_decls: vec![UNIT, 3, 4, record, INT, 4],
        arg_count: 2,
        types,
        blocks: one_block(statements),
        context_ty: None,
    };
    (body, BorrowFacts { num_regions: 6, subset_base: vec![(5, 1), (1, 2)] })
}

#[test]
fn a_loan_is_extended_only_where_the_edge_lies_on_no_cycle() {
    let precise = build(an_edge_between_two_arguments(), EvalMode::default());
    let wide = build(an_edge_between_two_arguments(), conservative());
    let field_of_z = place(3, vec![PlaceElem::Field(0, INT)]);
    let through_p = place(1, vec![PlaceElem::Deref, PlaceElem::Field(0, INT)]);
    let q_deref = place(2, vec![PlaceElem::Deref]);
    assert_eq!(precise.loans[1], vec![place(1, vec![PlaceElem::Deref]), local(3)]);
    assert_eq!(precise.loans[2], vec![through_p.clone(), q_deref.clone(), field_of_z.clone()]);
    assert!(!precise.graph.reach[2][1]);
    assert!(wide.graph.reach[2][1]);
    assert!(wide.loans[2].contains(&local(3)));
    assert!(!wide.loans[2].contains(&field_of_z));
    let v_deref = place(5, vec![PlaceElem::Deref]);
    assert_eq!(
        precise.aliases(&v_deref),
        vec![through_p.clone(), q_deref.clone(), field_of_z.clone(), v_deref.clone()]
    );
    assert!(!wide.aliases(&v_deref).contains(&field_of_z));
    assert!(wide.aliases(&v_deref).contains(&local(3)));
}

#[test]
fn loans_and_answers_come_in_rising_order() {
    let aliases = build(chain_of_reborrows(), EvalMode::default());
    let rising = |set: &Vec<Place>| set.windows(2).all(|pair| flowistry::order::place_less(&pair[0], &pair[1]));
    for set in &aliases.loans {
        assert!(rising(set));
    }
    let c_deref = place(4, vec![PlaceElem::Deref]);
    assert!(rising(&aliases.aliases(&c_deref)));
    assert!(rising(&aliases.conflicts(&c_deref)));
    assert!(rising(&aliases.reachable_values(&local(4), false)));
}
