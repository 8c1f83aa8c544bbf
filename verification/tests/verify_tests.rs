use tuonelang::mir::{
    Arg, Callee, EffectOp, StrOp,
    BasicBlock, BinOp, BlockId, Const, Function, IntKind, LocalDecl, LocalId, Operand, PassMode, Place, Program,
    Projection, Rvalue, Statement, Terminator,
};
use tuonelang::mir_verify::{verify, MirFault, WalkFault};
use tuonelang::types::{Ty, TypeTable};

fn local(ty: Ty) -> LocalDecl {
    LocalDecl { ty, name: None }
}

fn i64ty() -> Ty {
    Ty::Int(IntKind::I64)
}

fn func(params: Vec<PassMode>, locals: Vec<LocalDecl>, blocks: Vec<BasicBlock<Statement>>, ret: Ty) -> Program {
    Program {
        functions: vec![Function { symbol: 0, name: "f".to_owned(), params, locals, blocks, ret }],
        skipped: Vec::new(),
    }
}

fn konst(value: i128) -> Operand {
    Operand::Const(Const::Int(value, IntKind::I64))
}

fn empty_table() -> TypeTable {
    TypeTable { interned: vec![], structs: vec![], enums: vec![], functions: vec![], type_params: vec![] }
}

fn codes(program: &Program) -> Vec<u16> {
    verify(program, &empty_table())
        .iter()
        .map(|(_, f)| match f {
            MirFault::Structure(s) => s.code(),
            MirFault::Walk(WalkFault::Type(t)) => t.code(),
            MirFault::Walk(WalkFault::Use(u)) => u.code(),
            MirFault::Flow(x) => x.code(),
        })
        .collect()
}

#[test]
fn a_well_formed_function_verifies_clean() {
    let program = func(
        vec![],
        vec![local(i64ty()), local(i64ty())],
        vec![BasicBlock {
            statements: vec![Statement::Assign { place: Place::local(LocalId(1)), rvalue: Rvalue::Use(konst(1)) }],
            terminator: Terminator::Return(Operand::Copy(Place::local(LocalId(1)))),
        }],
        i64ty(),
    );
    assert!(codes(&program).is_empty());
}

#[test]
fn moving_a_copy_value_is_reported() {
    let program = func(
        vec![],
        vec![local(i64ty()), local(i64ty())],
        vec![BasicBlock {
            statements: vec![Statement::Assign { place: Place::local(LocalId(1)), rvalue: Rvalue::Use(konst(1)) }],
            terminator: Terminator::Return(Operand::Move(Place::local(LocalId(1)))),
        }],
        i64ty(),
    );
    assert_eq!(codes(&program), vec![9]);
}

#[test]
fn dangling_block_target_is_reported() {
    let program = func(
        vec![],
        vec![local(i64ty())],
        vec![BasicBlock { statements: vec![], terminator: Terminator::Goto(BlockId(9)) }],
        Ty::Unit,
    );
    assert_eq!(codes(&program), vec![1]);
}

#[test]
fn out_of_range_local_is_reported() {
    let program = func(
        vec![],
        vec![local(i64ty())],
        vec![BasicBlock {
            statements: vec![],
            terminator: Terminator::Return(Operand::Move(Place::local(LocalId(7)))),
        }],
        i64ty(),
    );
    assert_eq!(codes(&program), vec![2]);
}

#[test]
fn illegal_projection_is_reported() {
    let place = Place { local: LocalId(0), projection: vec![Projection::Field(0)] };
    let program = func(
        vec![],
        vec![local(i64ty())],
        vec![BasicBlock { statements: vec![Statement::Drop { place }], terminator: Terminator::Return(konst(0)) }],
        i64ty(),
    );
    assert_eq!(codes(&program), vec![3]);
}

#[test]
fn use_of_uninitialized_local_is_reported() {
    let program = func(
        vec![],
        vec![local(i64ty()), local(i64ty())],
        vec![BasicBlock {
            statements: vec![],
            terminator: Terminator::Return(Operand::Copy(Place::local(LocalId(1)))),
        }],
        i64ty(),
    );
    assert_eq!(codes(&program), vec![4]);
}

#[test]
fn use_after_move_is_reported() {
    let program = func(
        vec![PassMode::Value],
        vec![local(Ty::String), local(Ty::String), local(Ty::String)],
        vec![BasicBlock {
            statements: vec![
                Statement::Assign {
                    place: Place::local(LocalId(1)),
                    rvalue: Rvalue::Use(Operand::Move(Place::local(LocalId(0)))),
                },
                Statement::Assign {
                    place: Place::local(LocalId(2)),
                    rvalue: Rvalue::Use(Operand::Move(Place::local(LocalId(1)))),
                },
            ],
            terminator: Terminator::Return(Operand::Move(Place::local(LocalId(1)))),
        }],
        Ty::String,
    );
    assert_eq!(codes(&program), vec![5]);
}

#[test]
fn binary_type_mismatch_is_reported() {
    let program = func(
        vec![],
        vec![local(i64ty()), local(i64ty())],
        vec![BasicBlock {
            statements: vec![Statement::Assign {
                place: Place::local(LocalId(1)),
                rvalue: Rvalue::Binary { op: BinOp::Add, lhs: konst(1), rhs: Operand::Const(Const::Bool(true)) },
            }],
            terminator: Terminator::Return(Operand::Copy(Place::local(LocalId(1)))),
        }],
        i64ty(),
    );
    assert_eq!(codes(&program), vec![6]);
}

#[test]
fn branch_on_non_bool_is_reported() {
    let program = func(
        vec![],
        vec![local(i64ty())],
        vec![
            BasicBlock {
                statements: vec![],
                terminator: Terminator::Branch { cond: konst(1), then_block: BlockId(1), else_block: BlockId(1) },
            },
            BasicBlock { statements: vec![], terminator: Terminator::Return(konst(0)) },
        ],
        i64ty(),
    );
    assert_eq!(codes(&program), vec![6]);
}

#[test]
fn a_struct_holding_a_string_is_not_copy() {
    let table = TypeTable {
        interned: vec![],
        structs: vec![(5, vec![Ty::Param(100)]), (6, vec![i64ty(), Ty::Char])],
        enums: vec![(7, vec![vec![], vec![Ty::Struct(6, vec![])]])],
        functions: vec![],
        type_params: vec![(5, vec![100])],
    };
    assert!(!table.is_copy(&Ty::Struct(5, vec![Ty::String])));
    assert!(table.is_copy(&Ty::Struct(5, vec![i64ty()])));
    assert!(table.is_copy(&Ty::Struct(6, vec![])));
    assert!(table.is_copy(&Ty::Enum(7, vec![])));
    assert!(!table.is_copy(&Ty::Struct(8, vec![])), "an undeclared struct is not Copy");
    assert!(!table.is_copy(&Ty::Tuple(vec![i64ty(), Ty::String])));
    assert!(table.is_copy(&Ty::FixedArray(Box::new(Ty::Bool), 4)));
    assert!(!table.is_copy(&Ty::Array(Box::new(i64ty()))));
    assert!(!table.is_copy(&Ty::Option(Box::new(Ty::Array(Box::new(i64ty()))))));
    assert!(table.is_copy(&Ty::Str));
}

#[test]
fn heap_values_are_not_copy_but_their_peers_are() {
    let types = empty_table();
    assert!(!types.is_copy(&Ty::String), "owned String is not Copy");
    assert!(!types.is_copy(&Ty::Array(Box::new(i64ty()))), "growable Array[Int] is not Copy");
    assert!(!types.is_copy(&Ty::Tuple(vec![i64ty(), Ty::String])), "a tuple containing a String is not Copy");
    assert!(!types.is_copy(&Ty::Option(Box::new(Ty::Array(Box::new(i64ty()))))), "Option[Array[Int]] is not Copy");
    assert!(types.is_copy(&Ty::Str), "borrowed Str is Copy");
    assert!(types.is_copy(&Ty::Int(IntKind::I64)));
    assert!(types.is_copy(&Ty::FixedArray(Box::new(i64ty()), 8)), "[Int; 8] owns no heap and is Copy");
}

#[test]
fn discriminant_of_non_enum_is_reported() {
    let program = func(
        vec![],
        vec![local(i64ty()), local(Ty::Int(IntKind::Usize))],
        vec![BasicBlock {
            statements: vec![Statement::Assign {
                place: Place::local(LocalId(1)),
                rvalue: Rvalue::Discriminant(Place::local(LocalId(0))),
            }],
            terminator: Terminator::Return(konst(0)),
        }],
        i64ty(),
    );
    assert_eq!(codes(&program), vec![6], "discriminant of a non-enum place");
}

#[test]
fn duplicated_switch_arm_value_is_reported() {
    let program = func(
        vec![PassMode::Value],
        vec![local(i64ty())],
        vec![
            BasicBlock {
                statements: vec![],
                terminator: Terminator::Switch {
                    discr: Operand::Copy(Place::local(LocalId(0))),
                    arms: vec![(0, BlockId(1)), (0, BlockId(1))],
                    otherwise: BlockId(1),
                },
            },
            BasicBlock { statements: vec![], terminator: Terminator::Return(konst(0)) },
        ],
        i64ty(),
    );
    assert_eq!(codes(&program), vec![8]);
}

#[test]
fn malformed_signature_is_reported() {
    let program = func(
        vec![PassMode::Value, PassMode::Value],
        vec![],
        vec![BasicBlock { statements: vec![], terminator: Terminator::Return(Operand::Const(Const::Unit)) }],
        Ty::Unit,
    );
    let found = codes(&program);
    assert!(found.contains(&7), "signature error expected, got {found:?}");
}

#[test]
fn borrowing_and_moving_the_same_local_in_one_call_is_reported() {
    let program = func(
        vec![PassMode::Value],
        vec![local(Ty::String), local(Ty::Unit)],
        vec![BasicBlock {
            statements: vec![Statement::Call {
                dest: Place::local(LocalId(1)),
                callee: Callee::Direct(1),
                args: vec![Arg::Borrow(Place::local(LocalId(0))), Arg::Value(Operand::Move(Place::local(LocalId(0))))],
            }],
            terminator: Terminator::Return(Operand::Const(Const::Unit)),
        }],
        Ty::Unit,
    );
    assert_eq!(codes(&program), vec![9]);
}

#[test]
fn an_indirect_call_through_a_non_function_value_is_reported() {
    let program = func(
        vec![PassMode::Value],
        vec![local(i64ty()), local(Ty::Unit)],
        vec![BasicBlock {
            statements: vec![Statement::Call {
                dest: Place::local(LocalId(1)),
                callee: Callee::Indirect(Operand::Copy(Place::local(LocalId(0)))),
                args: Vec::new(),
            }],
            terminator: Terminator::Return(Operand::Const(Const::Unit)),
        }],
        Ty::Unit,
    );
    assert_eq!(codes(&program), vec![14]);
}

#[test]
fn an_index_local_out_of_range_is_reported() {
    let place = Place { local: LocalId(0), projection: vec![Projection::Index(LocalId(9))] };
    let program = func(
        vec![PassMode::Value],
        vec![local(Ty::Array(Box::new(i64ty()))), local(i64ty())],
        vec![BasicBlock {
            statements: vec![Statement::Assign { place: Place::local(LocalId(1)), rvalue: Rvalue::Use(Operand::Copy(place)) }],
            terminator: Terminator::Return(Operand::Copy(Place::local(LocalId(1)))),
        }],
        i64ty(),
    );
    assert_eq!(codes(&program), vec![2]);
}

#[test]
fn an_unreachable_block_is_not_a_false_undefined_use() {
    let program = func(
        vec![],
        vec![local(i64ty()), local(i64ty())],
        vec![
            BasicBlock { statements: vec![], terminator: Terminator::Return(konst(0)) },
            BasicBlock { statements: vec![], terminator: Terminator::Return(Operand::Copy(Place::local(LocalId(1)))) },
        ],
        i64ty(),
    );
    assert!(codes(&program).is_empty(), "dead code must not raise an undefined-use error");
}

fn str_const(text: &str) -> Operand {
    Operand::Const(Const::Str(text.to_owned()))
}

/// `_0 = <rvalue>; return copy _0` over one local of type `ret`.
fn one_assign(rvalue: Rvalue, ret: fn() -> Ty) -> Program {
    func(
        vec![],
        vec![local(ret())],
        vec![BasicBlock {
            statements: vec![Statement::Assign { place: Place::local(LocalId(0)), rvalue }],
            terminator: Terminator::Return(Operand::Copy(Place::local(LocalId(0)))),
        }],
        ret(),
    )
}

fn str_ty() -> Ty {
    Ty::Str
}

#[test]
fn well_formed_str_ops_verify_clean() {
    let cases: Vec<(StrOp, Vec<Operand>, fn() -> Ty)> = vec![
        (StrOp::Len, vec![str_const("abc")], i64ty),
        (StrOp::ByteAt, vec![str_const("abc"), konst(0)], i64ty),
        (StrOp::Slice, vec![str_const("abc"), konst(0), konst(1)], str_ty),
    ];
    for (op, args, ret) in cases {
        let program = one_assign(Rvalue::StrOp { op, args }, ret);
        assert!(codes(&program).is_empty(), "{op:?} should verify");
    }
}

#[test]
fn a_str_op_with_the_wrong_operand_count_is_reported() {
    let program = one_assign(Rvalue::StrOp { op: StrOp::ByteAt, args: vec![str_const("abc")] }, i64ty);
    assert_eq!(codes(&program), vec![10]);
}

#[test]
fn a_str_op_with_a_mistyped_operand_is_reported() {
    let program = one_assign(Rvalue::StrOp { op: StrOp::ByteAt, args: vec![konst(1), konst(0)] }, i64ty);
    assert_eq!(codes(&program), vec![10]);
}

#[test]
fn a_str_op_with_the_wrong_destination_type_is_reported() {
    let program =
        one_assign(Rvalue::StrOp { op: StrOp::Slice, args: vec![str_const("abc"), konst(0), konst(1)] }, i64ty);
    assert_eq!(codes(&program), vec![10]);
}

#[test]
fn a_well_formed_effect_verifies_and_initializes_its_destination() {
    let program = func(
        vec![],
        vec![local(i64ty())],
        vec![BasicBlock {
            statements: vec![Statement::Effect {
                op: EffectOp::ReadByte,
                args: vec![Arg::Value(konst(0))],
                dest: Place::local(LocalId(0)),
            }],
            terminator: Terminator::Return(Operand::Copy(Place::local(LocalId(0)))),
        }],
        i64ty(),
    );
    assert!(codes(&program).is_empty());
}

fn effect_then_return(op: EffectOp, args: Vec<Arg>) -> Program {
    func(
        vec![],
        vec![local(i64ty())],
        vec![BasicBlock {
            statements: vec![Statement::Effect { op, args, dest: Place::local(LocalId(0)) }],
            terminator: Terminator::Return(Operand::Copy(Place::local(LocalId(0)))),
        }],
        i64ty(),
    )
}

#[test]
fn an_effect_with_the_wrong_operand_count_is_reported() {
    let program = effect_then_return(EffectOp::Write, vec![Arg::Value(konst(1))]);
    assert_eq!(codes(&program), vec![11]);
}

#[test]
fn an_effect_with_a_mistyped_operand_is_reported() {
    let program = effect_then_return(EffectOp::Write, vec![Arg::Value(str_const("nope")), Arg::Value(str_const("x"))]);
    assert_eq!(codes(&program), vec![11]);
}

#[test]
fn an_effect_with_a_non_int_destination_is_reported() {
    let program = func(
        vec![],
        vec![local(Ty::Bool), local(i64ty())],
        vec![BasicBlock {
            statements: vec![
                Statement::Effect { op: EffectOp::Exit, args: vec![Arg::Value(konst(0))], dest: Place::local(LocalId(0)) },
                Statement::Assign { place: Place::local(LocalId(1)), rvalue: Rvalue::Use(konst(0)) },
            ],
            terminator: Terminator::Return(Operand::Copy(Place::local(LocalId(1)))),
        }],
        i64ty(),
    );
    assert_eq!(codes(&program), vec![11]);
}

#[test]
fn an_effect_reading_an_uninitialized_operand_is_reported() {
    let program = func(
        vec![],
        vec![local(i64ty()), local(i64ty())],
        vec![BasicBlock {
            statements: vec![Statement::Effect {
                op: EffectOp::ReadByte,
                args: vec![Arg::Value(Operand::Copy(Place::local(LocalId(1))))],
                dest: Place::local(LocalId(0)),
            }],
            terminator: Terminator::Return(Operand::Copy(Place::local(LocalId(0)))),
        }],
        i64ty(),
    );
    assert_eq!(codes(&program), vec![4]);
}
