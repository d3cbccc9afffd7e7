use flowistry::body::{BasicBlock, Body, Operand, Rvalue, Statement, Terminator, TyKind};
use flowistry::domain::{
    append_places, collect_arg_targets, collect_statement_places, collect_terminator_places, find_places,
};
use flowistry::place::{Place, PlaceElem};

const UNIT: usize = 0;
const INT: usize = 1;
const POINT: usize = 2;
const POINT_REF: usize = 3;
const PAIR: usize = 4;

fn local(l: usize) -> Place {
    Place::from_local(l)
}

fn body() -> Body {
    let types = vec![
        TyKind::Tuple { fields: vec![] },
        TyKind::Other,
        TyKind::Struct { fields: vec![INT, INT] },
        TyKind::Ref { region: 1, pointee: POINT },
        TyKind::Tuple { fields: vec![INT, POINT_REF] },
    ];
    let statements = vec![
        Statement::Assign {
            place: local(1),
            rvalue: Rvalue::Aggregate { ty: POINT, operands: vec![Operand::Constant, Operand::Copy(local(4))] },
        },
        Statement::Other,
        Statement::Assign { place: local(2), rvalue: Rvalue::Ref { region: 2, place: local(1) } },
    ];
    let call = Terminator::Call { args: vec![Operand::Move(local(3)), Operand::Constant], destination: local(0) };
    Body {
        local_decls: vec![UNIT, POINT, POINT_REF, PAIR, INT],
        arg_count: 0,
        types,
        blocks: vec![BasicBlock { statements, terminator: call }],
        context_ty: None,
    }
}

#[test]
fn a_statement_names_what_it_assigns_reads_and_brings_forth() {
    let body = body();
    let built = &body.blocks[0].statements[0];
    assert_eq!(
        collect_statement_places(&body, built),
        vec![
            local(1),
            local(4),
            Place::make(1, vec![PlaceElem::Field(0, INT)]),
            Place::make(1, vec![PlaceElem::Field(1, INT)]),
        ]
    );
    let borrowed = &body.blocks[0].statements[2];
    assert_eq!(
        collect_statement_places(&body, borrowed),
        vec![local(2), local(1), Place::make(2, vec![PlaceElem::Deref])]
    );
    assert_eq!(collect_statement_places(&body, &Statement::Other), vec![]);
    let tuple = Statement::Assign {
        place: local(3),
        rvalue: Rvalue::Aggregate { ty: PAIR, operands: vec![Operand::Constant, Operand::Move(local(2))] },
    };
    assert_eq!(collect_statement_places(&body, &tuple), vec![local(3), local(2)]);
}

#[test]
fn a_call_names_its_arguments_and_what_they_point_to() {
    let body = body();
    let behind = Place::make(3, vec![PlaceElem::Field(1, POINT_REF), PlaceElem::Deref]);
    assert_eq!(
        collect_terminator_places(&body, &body.blocks[0].terminator),
        vec![local(3), local(0), behind.clone()]
    );
    assert_eq!(collect_terminator_places(&body, &Terminator::Other), vec![]);
    assert_eq!(
        collect_arg_targets(&body, &vec![local(2), local(4), local(3)]),
        vec![Place::make(2, vec![PlaceElem::Deref]), behind.clone()]
    );
}

#[test]
fn the_places_of_a_body_start_with_its_locals() {
    let body = body();
    let found = find_places(&body);
    assert_eq!(found.len(), 5 + 4 + 3 + 3);
    assert_eq!(found[..5], vec![local(0), local(1), local(2), local(3), local(4)]);
    assert_eq!(found[5], local(1));
    assert_eq!(found[14], Place::make(3, vec![PlaceElem::Field(1, POINT_REF), PlaceElem::Deref]));
}

#[test]
fn places_are_appended_in_order() {
    let mut out = vec![local(1)];
    append_places(&mut out, vec![local(2), local(1)]);
    assert_eq!(out, vec![local(1), local(2), local(1)]);
    append_places(&mut out, vec![]);
    assert_eq!(out.len(), 3);
}
