use tuonelang::mir::{Arg, BasicBlock, BinOp, BlockId, Callee, Const, IntKind, LocalId, Operand, Place, Rvalue, Statement, Terminator};
use tuonelang::opt::copy_prop::copy_prop;

fn konst(value: i128) -> Operand {
    Operand::Const(Const::Int(value, IntKind::I64))
}

fn assign(dest: u32, rvalue: Rvalue) -> Statement {
    Statement::Assign { place: Place::local(LocalId(dest)), rvalue }
}

#[test]
fn forwards_a_constant_into_a_later_read() {
    let mut blocks = vec![BasicBlock {
        statements: vec![assign(1, Rvalue::Use(konst(5)))],
        terminator: Terminator::Return(Operand::Copy(Place::local(LocalId(1)))),
    }];
    let changed = copy_prop(&mut blocks);
    assert!(changed);
    match &blocks[0].terminator {
        Terminator::Return(Operand::Const(Const::Int(5, _))) => {}
        other => panic!("expected return const 5, got {other:?}"),
    }
}

#[test]
fn forwards_a_copy_into_a_binary_operand() {
    let mut blocks = vec![BasicBlock {
        statements: vec![
            assign(1, Rvalue::Use(Operand::Copy(Place::local(LocalId(0))))),
            assign(2, Rvalue::Binary { op: BinOp::Add, lhs: Operand::Copy(Place::local(LocalId(1))), rhs: konst(1) }),
        ],
        terminator: Terminator::Return(Operand::Copy(Place::local(LocalId(2)))),
    }];
    let changed = copy_prop(&mut blocks);
    assert!(changed);
    match &blocks[0].statements[1] {
        Statement::Assign { rvalue: Rvalue::Binary { lhs, .. }, .. } => match lhs {
            Operand::Copy(place) => assert_eq!(place.local.0, 0, "forwarded to the param"),
            other => panic!("expected copy _0, got {other:?}"),
        },
        other => panic!("expected a binary assign, got {other:?}"),
    }
}

#[test]
fn a_reassigned_source_invalidates_the_fact() {
    let mut blocks = vec![BasicBlock {
        statements: vec![assign(1, Rvalue::Use(konst(5))), assign(1, Rvalue::Use(konst(9)))],
        terminator: Terminator::Return(Operand::Copy(Place::local(LocalId(1)))),
    }];
    copy_prop(&mut blocks);
    match &blocks[0].terminator {
        Terminator::Return(Operand::Const(Const::Int(9, _))) => {}
        other => panic!("expected return const 9, got {other:?}"),
    }
}

#[test]
fn a_borrow_of_the_source_invalidates_forwarding() {
    let mut blocks = vec![BasicBlock {
        statements: vec![
            assign(1, Rvalue::Use(Operand::Copy(Place::local(LocalId(0))))),
            Statement::Call {
                dest: Place::local(LocalId(2)),
                callee: Callee::Direct(1),
                args: vec![Arg::BorrowMut(Place::local(LocalId(1)))],
            },
        ],
        terminator: Terminator::Return(Operand::Copy(Place::local(LocalId(1)))),
    }];
    copy_prop(&mut blocks);
    match &blocks[0].terminator {
        Terminator::Return(Operand::Copy(place)) => {
            assert_eq!(place.local.0, 1, "must still read _1, not the stale _0");
        }
        other => panic!("expected return copy _1, got {other:?}"),
    }
}

#[test]
fn facts_do_not_cross_block_boundaries() {
    let mut blocks = vec![
        BasicBlock { statements: vec![assign(1, Rvalue::Use(konst(5)))], terminator: Terminator::Goto(BlockId(1)) },
        BasicBlock { statements: vec![], terminator: Terminator::Return(Operand::Copy(Place::local(LocalId(1)))) },
    ];
    copy_prop(&mut blocks);
    match &blocks[1].terminator {
        Terminator::Return(Operand::Copy(place)) => assert_eq!(place.local.0, 1),
        other => panic!("expected return copy _1 (not forwarded), got {other:?}"),
    }
}

#[test]
fn a_chain_of_copies_forwards_to_the_first_source() {
    // _1 = const 3; _2 = copy _1 (becomes const 3); return copy _2 => const 3.
    let mut blocks = vec![BasicBlock {
        statements: vec![
            assign(1, Rvalue::Use(konst(3))),
            assign(2, Rvalue::Use(Operand::Copy(Place::local(LocalId(1))))),
        ],
        terminator: Terminator::Return(Operand::Copy(Place::local(LocalId(2)))),
    }];
    assert!(copy_prop(&mut blocks));
    assert!(matches!(&blocks[0].terminator, Terminator::Return(Operand::Const(Const::Int(3, _)))));
    // Nothing is left to forward on a second run.
    assert!(!copy_prop(&mut blocks));
}
