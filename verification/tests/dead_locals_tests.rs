use tuonelang::mir::{
    BasicBlock, BinOp, Const, IntKind, LocalId, Operand, Place, Projection, Rvalue, Statement, Terminator,
};
use tuonelang::types::Ty;
use tuonelang::opt::dead_locals::{dead_locals, read_locals, remove_dead_stores, remove_unreferenced_locals};

fn place(local: u32) -> Place {
    Place { local: LocalId(local), projection: vec![] }
}

fn num(v: i128) -> Operand {
    Operand::Const(Const::Int(v, IntKind::I64))
}

fn assign(dest: u32, rvalue: Rvalue) -> Statement {
    Statement::Assign { place: place(dest), rvalue }
}

fn i64ty() -> Ty {
    Ty::Int(IntKind::I64)
}

#[test]
fn removes_a_dead_pure_store_and_its_local() {
    let mut locals = vec![i64ty(), i64ty()];
    let mut blocks = vec![BasicBlock {
        statements: vec![assign(1, Rvalue::Use(num(1)))],
        terminator: Terminator::Return(num(0)),
    }];
    let changed = dead_locals(1, &mut locals, &mut blocks);
    assert!(changed);
    assert!(blocks[0].statements.is_empty(), "dead store removed");
    assert_eq!(locals.len(), 1, "dead local _1 removed");
}

#[test]
fn keeps_a_dead_but_trapping_store() {
    let mut locals = vec![i64ty(), i64ty()];
    let mut blocks = vec![BasicBlock {
        statements: vec![assign(1, Rvalue::Binary { op: BinOp::Add, lhs: num(1), rhs: num(2) })],
        terminator: Terminator::Return(num(0)),
    }];
    let changed = dead_locals(1, &mut locals, &mut blocks);
    assert!(!changed, "a trapping store must be preserved");
    assert_eq!(blocks[0].statements.len(), 1);
    assert_eq!(locals.len(), 2);
}

#[test]
fn keeps_a_read_local() {
    let mut locals = vec![i64ty(), i64ty()];
    let mut blocks = vec![BasicBlock {
        statements: vec![assign(1, Rvalue::Use(num(5)))],
        terminator: Terminator::Return(Operand::Copy(place(1))),
    }];
    let changed = dead_locals(1, &mut locals, &mut blocks);
    assert!(!changed);
    assert_eq!(locals.len(), 2);
    assert!(!remove_dead_stores(&mut blocks));
}

#[test]
fn renumbers_reads_after_removing_an_earlier_local() {
    let mut locals = vec![i64ty(), i64ty(), i64ty()];
    let mut blocks = vec![BasicBlock {
        statements: vec![assign(1, Rvalue::Use(num(1))), assign(2, Rvalue::Use(num(7)))],
        terminator: Terminator::Return(Operand::Copy(place(2))),
    }];
    let changed = dead_locals(1, &mut locals, &mut blocks);
    assert!(changed);
    assert_eq!(locals.len(), 2, "one dead local removed");
    match &blocks[0].terminator {
        Terminator::Return(Operand::Copy(place)) => assert_eq!(place.local.0, 1),
        other => panic!("expected return copy _1, got {other:?}"),
    }
}

#[test]
fn never_removes_a_parameter_even_if_unused() {
    let mut locals = vec![i64ty()];
    let mut blocks = vec![BasicBlock { statements: vec![], terminator: Terminator::Return(num(0)) }];
    let changed = dead_locals(1, &mut locals, &mut blocks);
    assert!(!changed);
    assert_eq!(locals.len(), 1, "the parameter slot is retained");
}

#[test]
fn an_unused_local_is_removed_and_later_ones_renumbered() {
    let mut locals = vec!["p", "unused", "x"];
    let mut blocks = vec![BasicBlock {
        statements: vec![assign(2, Rvalue::Use(num(7)))],
        terminator: Terminator::Return(Operand::Copy(place(2))),
    }];
    assert!(remove_unreferenced_locals(1, &mut locals, &mut blocks));
    assert_eq!(locals, vec!["p", "x"]);
    assert!(matches!(&blocks[0].statements[0], Statement::Assign { place: Place { local: LocalId(1), .. }, .. }));
}

#[test]
fn index_locals_count_as_reads_and_are_renumbered() {
    // _3[_2] is read; _1 is unused.
    let mut locals = vec!["p", "unused", "i", "arr", "out"];
    let indexed = Place { local: LocalId(3), projection: vec![Projection::Index(LocalId(2))] };
    let mut blocks = vec![BasicBlock {
        statements: vec![assign(4, Rvalue::Use(Operand::Copy(indexed)))],
        terminator: Terminator::Return(Operand::Copy(place(4))),
    }];
    let reads = read_locals(&blocks);
    assert!(reads.contains(&2) && reads.contains(&3) && reads.contains(&4));
    assert!(!reads.contains(&1));
    assert!(remove_unreferenced_locals(1, &mut locals, &mut blocks));
    assert_eq!(locals, vec!["p", "i", "arr", "out"]);
    match &blocks[0].statements[0] {
        Statement::Assign { place, rvalue: Rvalue::Use(Operand::Copy(src)) } => {
            assert_eq!(place.local, LocalId(3));
            assert_eq!(src.local, LocalId(2));
            assert_eq!(src.projection, vec![Projection::Index(LocalId(1))]);
        }
        _ => panic!("unexpected statement"),
    }
}
