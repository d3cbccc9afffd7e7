use flowistry::aliases::{Aliases, BorrowFacts};
use flowistry::body::{BasicBlock, Body, Location, Operand, Rvalue, Statement, Terminator, TyKind};
use flowistry::extensions::EvalMode;
use flowistry::mutation::{ModularMutationVisitor, Mutation, MutationStatus};
use flowistry::place::{Place, PlaceElem};

const UNIT: usize = 0;
const INT: usize = 1;
const POINT: usize = 2;
const PAIR: usize = 3;
const POINT_REF: usize = 4;
const EMPTY: usize = 5;
const CONTEXT: usize = 6;

fn local(l: usize) -> Place {
    Place::from_local(l)
}

fn field(l: usize, i: usize, ty: usize) -> Place {
    Place::make(l, vec![PlaceElem::Field(i, ty)])
}

fn definitely(mutated: Place, inputs: Vec<Place>) -> Mutation {
    Mutation { mutated, inputs, status: MutationStatus::Definitely }
}

fn possibly(mutated: Place, inputs: Vec<Place>) -> Mutation {
    Mutation { mutated, inputs, status: MutationStatus::Possibly }
}

/// `x = Point { x: 1, y: 2 }; y = x; r = &mut y; f(r, ctx);`
fn engine() -> Aliases {
    let types = vec![
        TyKind::Tuple { fields: vec![] },
        TyKind::Other,
        TyKind::Struct { fields: vec![INT, INT] },
        TyKind::Tuple { fields: vec![INT, POINT] },
        TyKind::Ref { region: 1, pointee: POINT },
        TyKind::Struct { fields: vec![] },
        TyKind::Other,
    ];
    let statements = vec![
        Statement::Assign {
            place: local(1),
            rvalue: Rvalue::Aggregate { ty: POINT, operands: vec![Operand::Constant, Operand::Constant] },
        },
        Statement::Other,
        Statement::Assign { place: local(2), rvalue: Rvalue::Use(Operand::Move(local(1))) },
        Statement::Assign { place: local(3), rvalue: Rvalue::Ref { region: 2, place: local(2) } },
    ];
    let call = Terminator::Call {
        args: vec![Operand::Move(local(3)), Operand::Move(local(6))],
        destination: local(4),
    };
    let body = Body {
        local_decls: vec![UNIT, POINT, POINT, POINT_REF, INT, EMPTY, CONTEXT, UNIT],
        arg_count: 0,
        types,
        blocks: vec![
            BasicBlock { statements, terminator: call },
            BasicBlock { statements: vec![], terminator: Terminator::Other },
        ],
        context_ty: Some(CONTEXT),
    };
    Aliases::build(body, BorrowFacts { num_regions: 3, subset_base: vec![(2, 1)] }, EvalMode::default()).unwrap()
}

#[test]
fn a_struct_that_is_built_is_taken_apart() {
    let aliases = engine();
    let visitor = ModularMutationVisitor::new(&aliases);
    let rvalue = Rvalue::Aggregate { ty: POINT, operands: vec![Operand::Constant, Operand::Constant] };
    let batch = visitor.visit_assign(&local(1), &rvalue);
    assert_eq!(batch, vec![definitely(field(1, 0, INT), vec![]), definitely(field(1, 1, INT), vec![])]);
}

#[test]
fn a_tuple_that_is_built_takes_its_operands_as_inputs() {
    let aliases = engine();
    let visitor = ModularMutationVisitor::new(&aliases);
    let rvalue = Rvalue::Aggregate { ty: PAIR, operands: vec![Operand::Copy(local(4)), Operand::Move(local(2))] };
    let batch = visitor.visit_assign(&local(9), &rvalue);
    assert_eq!(
        batch,
        vec![definitely(field(9, 0, INT), vec![local(4)]), definitely(field(9, 1, POINT), vec![local(2)])]
    );
}

#[test]
fn a_struct_that_is_copied_is_taken_apart() {
    let aliases = engine();
    let visitor = ModularMutationVisitor::new(&aliases);
    let batch = visitor.visit_assign(&local(2), &Rvalue::Use(Operand::Copy(local(1))));
    assert_eq!(
        batch,
        vec![
            definitely(field(2, 0, INT), vec![field(1, 0, INT)]),
            definitely(field(2, 1, INT), vec![field(1, 1, INT)]),
        ]
    );
}

#[test]
fn any_other_assignment_mutates_the_whole_place() {
    let aliases = engine();
    let visitor = ModularMutationVisitor::new(&aliases);
    assert_eq!(
        visitor.visit_assign(&local(4), &Rvalue::Use(Operand::Copy(field(1, 0, INT)))),
        vec![definitely(local(4), vec![field(1, 0, INT)])]
    );
    assert_eq!(
        visitor.visit_assign(&local(4), &Rvalue::Use(Operand::Constant)),
        vec![definitely(local(4), vec![])]
    );
    assert_eq!(
        visitor.visit_assign(&local(3), &Rvalue::Ref { region: 2, place: local(2) }),
        vec![definitely(local(3), vec![local(2)])]
    );
    let sum = Rvalue::Operation { operands: vec![Operand::Copy(local(4)), Operand::Constant, Operand::Copy(local(4))] };
    assert_eq!(visitor.visit_assign(&local(4), &sum), vec![definitely(local(4), vec![local(4), local(4)])]);
    assert_eq!(
        visitor.visit_assign(&local(5), &Rvalue::Use(Operand::Move(local(5)))),
        vec![definitely(local(5), vec![local(5)])]
    );
    assert_eq!(
        visitor.visit_assign(&local(5), &Rvalue::Aggregate { ty: EMPTY, operands: vec![] }),
        vec![definitely(local(5), vec![])]
    );
    assert_eq!(
        visitor.visit_assign(&local(9), &Rvalue::Aggregate { ty: INT, operands: vec![Operand::Copy(local(4))] }),
        vec![definitely(local(9), vec![local(4)])]
    );
}

#[test]
fn a_call_may_write_behind_its_arguments() {
    let aliases = engine();
    let visitor = ModularMutationVisitor::new(&aliases);
    let args = vec![Operand::Move(local(3))];
    let batch = visitor.visit_call(&args, &local(4));
    assert_eq!(batch, vec![definitely(local(4), vec![local(3)]), possibly(local(2), vec![local(3)])]);
    assert!(batch.iter().all(|m| m.status == MutationStatus::Definitely || m.mutated != local(3)));
}

#[test]
fn a_call_that_returns_nothing_has_no_inputs_to_its_result() {
    let aliases = engine();
    let visitor = ModularMutationVisitor::new(&aliases);
    let args = vec![Operand::Move(local(3)), Operand::Constant, Operand::Copy(local(4))];
    let batch = visitor.visit_call(&args, &local(7));
    assert_eq!(
        batch,
        vec![definitely(local(7), vec![]), possibly(local(2), vec![local(3), local(4)])]
    );
}

#[test]
fn the_context_of_a_suspend_point_is_no_input() {
    let aliases = engine();
    let visitor = ModularMutationVisitor::new(&aliases);
    let args = vec![Operand::Move(local(6)), Operand::Copy(local(4))];
    assert_eq!(visitor.visit_call(&args, &local(4)), vec![definitely(local(4), vec![local(4)])]);
}

#[test]
fn other_instructions_mutate_nothing() {
    let aliases = engine();
    let visitor = ModularMutationVisitor::new(&aliases);
    assert_eq!(visitor.visit_terminator(&Terminator::Other), vec![]);
    assert_eq!(visitor.visit_location(Location { block: 0, statement_index: 1 }), None);
    assert_eq!(visitor.visit_location(Location { block: 1, statement_index: 0 }), None);
    assert_eq!(visitor.visit_location(Location { block: 1, statement_index: 1 }), None);
    assert_eq!(visitor.visit_location(Location { block: 2, statement_index: 0 }), None);
    assert_eq!(
        visitor.visit_location(Location { block: 0, statement_index: 3 }),
        Some(vec![definitely(local(3), vec![local(2)])])
    );
}

#[test]
fn the_body_is_walked_once_in_order() {
    let aliases = engine();
    let visitor = ModularMutationVisitor::new(&aliases);
    let at = |statement_index| Location { block: 0, statement_index };
    let all = visitor.visit_body();
    assert_eq!(
        all,
        vec![
            (at(0), vec![definitely(field(1, 0, INT), vec![]), definitely(field(1, 1, INT), vec![])]),
            (
                at(2),
                vec![
                    definitely(field(2, 0, INT), vec![field(1, 0, INT)]),
                    definitely(field(2, 1, INT), vec![field(1, 1, INT)]),
                ]
            ),
            (at(3), vec![definitely(local(3), vec![local(2)])]),
            (at(4), vec![definitely(local(4), vec![local(3)]), possibly(local(2), vec![local(3)])]),
        ]
    );
}
