use tuonelang::mir::{
    BasicBlock, BinOp, BlockId, CastKind, Const, FloatKind, IntKind, LocalId, Operand, Place, Rvalue, Statement,
    Terminator, TyRef, UnOp,
};
use tuonelang::opt::const_fold::{const_fold, fold_rvalue, needs_host_fold};

fn ci(value: i128) -> Operand {
    Operand::Const(Const::Int(value, IntKind::I64))
}

fn float(value: f64) -> Operand {
    Operand::Const(Const::Float(value.to_bits(), FloatKind::F64))
}

fn place(local: u32) -> Place {
    Place { local: LocalId(local), projection: vec![] }
}

fn assign(dest: u32, rvalue: Rvalue) -> Statement {
    Statement::Assign { place: place(dest), rvalue }
}

#[test]
fn integer_rvalues_fold_without_the_host() {
    let add = Rvalue::Binary { op: BinOp::Add, lhs: ci(2), rhs: ci(3) };
    assert!(!needs_host_fold(&add));
    assert!(matches!(fold_rvalue(&add, None), Some(Const::Int(5, IntKind::I64))));
    let div0 = Rvalue::Binary { op: BinOp::Div, lhs: ci(1), rhs: ci(0) };
    assert!(fold_rvalue(&div0, None).is_none());
    let neg = Rvalue::Unary { op: UnOp::Neg, operand: ci(7) };
    assert!(matches!(fold_rvalue(&neg, None), Some(Const::Int(-7, IntKind::I64))));
    let cast = Rvalue::Cast { kind: CastKind::IntToInt, operand: ci(300), to: TyRef::Int(IntKind::U8) };
    assert!(!needs_host_fold(&cast));
    assert!(matches!(fold_rvalue(&cast, None), Some(Const::Int(44, IntKind::U8))));
    let read = Rvalue::Binary { op: BinOp::Add, lhs: Operand::Copy(place(0)), rhs: ci(1) };
    assert!(fold_rvalue(&read, None).is_none());
    let mixed = Rvalue::Binary {
        op: BinOp::Add,
        lhs: ci(1),
        rhs: Operand::Const(Const::Int(1, IntKind::I32)),
    };
    assert!(fold_rvalue(&mixed, None).is_none());
}

#[test]
fn float_rvalues_take_the_host_result() {
    let add = Rvalue::Binary { op: BinOp::Add, lhs: float(1.5), rhs: float(2.0) };
    assert!(needs_host_fold(&add));
    let three_and_a_half = Const::Float(3.5f64.to_bits(), FloatKind::F64);
    let bits = 3.5f64.to_bits();
    assert!(matches!(fold_rvalue(&add, Some(&three_and_a_half)), Some(Const::Float(b, FloatKind::F64)) if b == bits));
    assert!(fold_rvalue(&add, None).is_none());
    // The host result is read for float computations only.
    let int_add = Rvalue::Binary { op: BinOp::Add, lhs: ci(2), rhs: ci(3) };
    assert!(matches!(fold_rvalue(&int_add, Some(&three_and_a_half)), Some(Const::Int(5, IntKind::I64))));
    let to_float = Rvalue::Cast { kind: CastKind::IntToFloat, operand: ci(2), to: TyRef::Float(FloatKind::F64) };
    assert!(needs_host_fold(&to_float));
}

#[test]
fn the_pass_folds_assignments_and_reports_a_change() {
    let mut blocks = vec![
        BasicBlock {
            statements: vec![
                assign(1, Rvalue::Binary { op: BinOp::Mul, lhs: ci(6), rhs: ci(7) }),
                assign(2, Rvalue::Use(Operand::Copy(place(1)))),
                assign(3, Rvalue::Binary { op: BinOp::Sub, lhs: float(1.0), rhs: float(0.25) }),
            ],
            terminator: Terminator::Goto(BlockId(1)),
        },
        BasicBlock { statements: vec![], terminator: Terminator::Return(Operand::Copy(place(1))) },
    ];
    let host = vec![vec![None, None, Some(Const::Float(0.75f64.to_bits(), FloatKind::F64))]];
    assert!(const_fold(&mut blocks, &host));
    let three_quarters = 0.75f64.to_bits();
    assert!(matches!(
        &blocks[0].statements[0],
        Statement::Assign { place: Place { local: LocalId(1), .. }, rvalue: Rvalue::Use(Operand::Const(Const::Int(42, IntKind::I64))) }
    ));
    assert!(matches!(
        &blocks[0].statements[1],
        Statement::Assign { place: Place { local: LocalId(2), .. }, rvalue: Rvalue::Use(Operand::Copy(Place { local: LocalId(1), .. })) }
    ));
    assert!(matches!(
        &blocks[0].statements[2],
        Statement::Assign { place: Place { local: LocalId(3), .. }, rvalue: Rvalue::Use(Operand::Const(Const::Float(b, FloatKind::F64))) } if *b == three_quarters
    ));
    assert!(matches!(&blocks[1].terminator, Terminator::Return(Operand::Copy(Place { local: LocalId(1), .. }))));
    // A second run finds nothing left to fold.
    assert!(!const_fold(&mut blocks, &vec![]));
}

#[test]
fn a_trapping_operation_is_left_in_place() {
    let overflow = Rvalue::Binary { op: BinOp::Add, lhs: Operand::Const(Const::Int(i64::MAX as i128, IntKind::I64)), rhs: ci(1) };
    let mut blocks = vec![BasicBlock {
        statements: vec![assign(1, overflow)],
        terminator: Terminator::Return(Operand::Copy(place(1))),
    }];
    assert!(!const_fold(&mut blocks, &vec![]));
    assert!(matches!(
        &blocks[0].statements[0],
        Statement::Assign { rvalue: Rvalue::Binary { op: BinOp::Add, lhs: Operand::Const(Const::Int(v, IntKind::I64)), rhs: Operand::Const(Const::Int(1, IntKind::I64)) }, .. } if *v == i64::MAX as i128
    ));
}
