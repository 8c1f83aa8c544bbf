use tuonelang::mir::Program;
use tuonelang::opt::{Pipeline, MAX_ROUNDS};
use tuonelang::mir::{
    bin_name, AssertionKind, BasicBlock, BinOp, BlockId, Const, EffectOp, HeapMutOp, HeapOp, IntKind,
    LocalId, Operand, Place, StrOp, Terminator, Trap, UnOp,
};
use tuonelang::mir::{FloatKind, TyRef};
use tuonelang::opt::const_fold::{as_const, float_kind, int_kind};
use tuonelang::opt::const_fold::{fold_binary, fold_int_binary, fold_int_cast, fold_unary, int_bounds, wrap_int};
use tuonelang::opt::unreachable_blocks::{reachable_blocks, remove_unreachable_blocks, terminator_targets};
use tuonelang::opt::{pass_descriptions, remap_local, OptReport, PassReport};

fn kint(value: i128, kind: IntKind) -> Const {
    Const::Int(value, kind)
}

fn ret(value: i128) -> Terminator {
    Terminator::Return(Operand::Const(Const::Int(value, IntKind::I64)))
}

fn block(terminator: Terminator) -> BasicBlock<u8> {
    BasicBlock { statements: vec![], terminator }
}

#[test]
fn every_pass_declares_a_purpose_and_preconditions() {
    for (name, purpose, preconditions) in pass_descriptions() {
        assert!(!name.is_empty(), "a pass has an empty name");
        assert!(purpose.len() > 20, "pass `{name}` has a too-terse purpose: {purpose:?}");
        assert!(!preconditions.is_empty(), "pass `{name}` declares no preconditions");
    }
}

#[test]
fn pass_names_are_unique() {
    let names: Vec<&str> = pass_descriptions().iter().map(|pass| pass.0).collect();
    let mut sorted = names.clone();
    sorted.sort_unstable();
    sorted.dedup();
    assert_eq!(sorted.len(), names.len(), "duplicate pass name: {names:?}");
    assert_eq!(names, vec!["const-fold", "copy-prop", "unreachable-blocks", "dead-locals"]);
}

#[test]
fn an_empty_report_changed_nothing() {
    assert!(!OptReport { passes: vec![] }.changed());
    let report = OptReport {
        passes: vec![
            PassReport { name: "const-fold", changed: false },
            PassReport { name: "dead-locals", changed: true },
        ],
    };
    assert!(report.changed());
}

#[test]
fn op_names_and_arities() {
    assert_eq!(EffectOp::Write.name(), "write");
    assert_eq!(EffectOp::RemoveFile.name(), "remove_file");
    assert_eq!(EffectOp::NowNanos.arg_count(), 0);
    assert_eq!(EffectOp::ParMap.arg_count(), 3);
    assert_eq!(HeapMutOp::MapInsert.name(), "map_insert");
    assert_eq!(HeapMutOp::MapInsert.arg_count(), 2);
    assert_eq!(HeapMutOp::Pop.arg_count(), 0);
    assert_eq!(HeapOp::StringSlice.name(), "string_slice");
    assert!(HeapOp::StringSlice.has_subject());
    assert!(!HeapOp::StringConcat.has_subject());
    assert_eq!(HeapOp::StringSlice.arg_count(), 2);
    assert_eq!(StrOp::ByteAt.name(), "byte_at");
    assert_eq!(StrOp::Slice.arg_count(), 3);
    assert_eq!(Trap::IndexOutOfBounds.label(), "index_out_of_bounds");
    assert_eq!(Trap::Unreachable.label(), "unreachable");
    assert_eq!(AssertionKind::Then.keyword(), "then");
    assert_eq!(AssertionKind::Assert.keyword(), "assert");
    assert_eq!(bin_name(BinOp::Ge), "ge");
    assert_eq!(bin_name(BinOp::Shl), "shl");
    let place = Place::local(LocalId(3));
    assert_eq!(place.local, LocalId(3));
    assert!(place.projection.is_empty());
}

#[test]
fn folds_non_trapping_addition() {
    let folded = fold_binary(BinOp::Add, &kint(2, IntKind::I64), &kint(3, IntKind::I64));
    assert!(matches!(folded, Some(Const::Int(5, IntKind::I64))));
}

#[test]
fn refuses_to_fold_overflowing_addition() {
    let folded = fold_binary(BinOp::Add, &kint(127, IntKind::I8), &kint(1, IntKind::I8));
    assert!(folded.is_none(), "overflowing add must not be folded");
}

#[test]
fn refuses_to_fold_division_by_zero() {
    let folded = fold_binary(BinOp::Div, &kint(1, IntKind::I64), &kint(0, IntKind::I64));
    assert!(folded.is_none(), "1/0 must not be folded");
}

#[test]
fn refuses_to_fold_min_over_minus_one() {
    let min = i128::from(i32::MIN);
    let folded = fold_binary(BinOp::Div, &kint(min, IntKind::I32), &kint(-1, IntKind::I32));
    assert!(folded.is_none(), "MIN / -1 must not be folded");
}

#[test]
fn division_truncates_toward_zero() {
    let folded = fold_binary(BinOp::Div, &kint(-7, IntKind::I64), &kint(2, IntKind::I64));
    assert!(matches!(folded, Some(Const::Int(-3, IntKind::I64))));
    let folded = fold_binary(BinOp::Rem, &kint(-7, IntKind::I64), &kint(2, IntKind::I64));
    assert!(matches!(folded, Some(Const::Int(-1, IntKind::I64))));
}

#[test]
fn folds_comparisons_to_bool() {
    let folded = fold_binary(BinOp::Lt, &kint(2, IntKind::I64), &kint(3, IntKind::I64));
    assert!(matches!(folded, Some(Const::Bool(true))));
    let folded = fold_binary(BinOp::Ge, &Const::Char('a'), &Const::Char('b'));
    assert!(matches!(folded, Some(Const::Bool(false))));
    let folded = fold_binary(BinOp::Ne, &Const::Bool(true), &Const::Bool(false));
    assert!(matches!(folded, Some(Const::Bool(true))));
    assert!(fold_binary(BinOp::Lt, &Const::Bool(true), &Const::Bool(false)).is_none());
}

#[test]
fn folds_the_bitwise_operations() {
    let k = IntKind::I64;
    let folded = |op, a, b, kind| match fold_int_binary(op, a, b, kind) {
        Some(Const::Int(value, _)) => Some(value),
        _ => None,
    };
    assert_eq!(folded(BinOp::BitAnd, 12, 10, k), Some(8));
    assert_eq!(folded(BinOp::BitOr, 12, 10, k), Some(14));
    assert_eq!(folded(BinOp::BitXor, 12, 10, k), Some(6));
    let complement = |value, kind| match fold_unary(UnOp::BitNot, &kint(value, kind)) {
        Some(Const::Int(result, _)) => Some(result),
        _ => None,
    };
    assert_eq!(complement(0, k), Some(-1));
    assert_eq!(complement(0, IntKind::U8), Some(255));
}

#[test]
fn folds_shifts_with_the_signedness_rule() {
    let folded = |op, a, b, kind| match fold_int_binary(op, a, b, kind) {
        Some(Const::Int(value, _)) => Some(value),
        _ => None,
    };
    assert_eq!(folded(BinOp::Shl, 1, 10, IntKind::I64), Some(1024));
    assert_eq!(folded(BinOp::Shr, -8, 1, IntKind::I64), Some(-4));
    assert_eq!(folded(BinOp::Shr, 255, 4, IntKind::U8), Some(15));
    assert_eq!(folded(BinOp::Shl, 1, 7, IntKind::I8), Some(-128));
}

#[test]
fn refuses_to_fold_an_out_of_range_shift() {
    assert!(fold_int_binary(BinOp::Shl, 1, 64, IntKind::I64).is_none());
    assert!(fold_int_binary(BinOp::Shr, 1, 64, IntKind::I64).is_none());
    assert!(fold_int_binary(BinOp::Shl, 1, -1, IntKind::I64).is_none());
    assert!(fold_int_binary(BinOp::Shl, 1, 32, IntKind::U32).is_none());
    assert!(fold_int_binary(BinOp::Shl, 1, 32, IntKind::I64).is_some());
}

#[test]
fn refuses_to_fold_negating_the_minimum() {
    let min = i128::from(i8::MIN);
    assert!(fold_unary(UnOp::Neg, &kint(min, IntKind::I8)).is_none());
    assert!(matches!(fold_unary(UnOp::Neg, &kint(5, IntKind::I8)), Some(Const::Int(-5, IntKind::I8))));
}

#[test]
fn folds_bool_not_and_float_negation() {
    assert!(matches!(fold_unary(UnOp::Not, &Const::Bool(true)), Some(Const::Bool(false))));
    let bits = 1.5f64.to_bits();
    match fold_unary(UnOp::Neg, &Const::Float(bits, tuonelang::mir::FloatKind::F64)) {
        Some(Const::Float(negated, _)) => assert_eq!(f64::from_bits(negated), -1.5),
        other => panic!("expected a float, got {:?}", other),
    }
    assert!(fold_unary(UnOp::Not, &kint(1, IntKind::I64)).is_none());
}

#[test]
fn int_to_int_cast_wraps() {
    let folded = fold_int_cast(&kint(300, IntKind::I32), IntKind::I8);
    assert!(matches!(folded, Some(Const::Int(44, IntKind::I8))));
    assert!(fold_int_cast(&Const::Bool(true), IntKind::I8).is_none());
}

#[test]
fn wrap_matches_the_interpreter() {
    assert_eq!(wrap_int(300, IntKind::I8), 44);
    assert_eq!(wrap_int(-1, IntKind::U8), 255);
    assert_eq!(wrap_int(-129, IntKind::I8), 127);
    assert_eq!(wrap_int(1 << 64, IntKind::U64), 0);
    assert_eq!(int_bounds(IntKind::Usize), (0, i128::from(u64::MAX)));
    assert_eq!(int_bounds(IntKind::I16), (-32768, 32767));
}

#[test]
fn multiplication_overflow_is_not_folded() {
    let max = i128::from(u64::MAX);
    assert!(fold_int_binary(BinOp::Mul, max, max, IntKind::U64).is_none());
    assert!(matches!(fold_int_binary(BinOp::Mul, 6, 7, IntKind::U8), Some(Const::Int(42, IntKind::U8))));
}

#[test]
fn removes_a_block_no_edge_reaches() {
    let mut blocks = vec![block(ret(1)), block(ret(2)), block(Terminator::Trap(Trap::Unreachable))];
    let changed = remove_unreachable_blocks(&mut blocks);
    assert!(changed);
    assert_eq!(blocks.len(), 1);
}

#[test]
fn renumbers_targets_of_survivors() {
    let mut blocks = vec![block(Terminator::Goto(BlockId(2))), block(ret(9)), block(ret(7))];
    let changed = remove_unreachable_blocks(&mut blocks);
    assert!(changed);
    assert_eq!(blocks.len(), 2);
    match &blocks[0].terminator {
        Terminator::Goto(target) => assert_eq!(target.0, 1),
        other => panic!("expected a goto, got {other:?}"),
    }
}

#[test]
fn a_fully_reachable_function_is_unchanged() {
    let mut blocks = vec![block(ret(1))];
    let changed = remove_unreachable_blocks(&mut blocks);
    assert!(!changed);
    assert_eq!(blocks.len(), 1);
}

#[test]
fn switch_targets_are_renumbered_and_a_second_run_is_clean() {
    let switch = Terminator::Switch {
        discr: Operand::Const(kint(1, IntKind::I64)),
        arms: vec![(0, BlockId(3)), (1, BlockId(4))],
        otherwise: BlockId(3),
    };
    let mut blocks = vec![
        BasicBlock { statements: vec![1u8, 2], terminator: switch },
        block(ret(0)),
        block(Terminator::Goto(BlockId(1))),
        block(Terminator::Assert {
            cond: Operand::Const(Const::Bool(true)),
            trap: Trap::IndexOutOfBounds,
            target: BlockId(4),
        }),
        block(ret(4)),
    ];
    assert_eq!(reachable_blocks(&blocks), vec![true, false, false, true, true]);
    assert!(remove_unreachable_blocks(&mut blocks));
    assert_eq!(blocks.len(), 3);
    assert_eq!(blocks[0].statements, vec![1u8, 2]);
    assert_eq!(terminator_targets(&blocks[0].terminator), vec![1, 2, 1]);
    assert_eq!(terminator_targets(&blocks[1].terminator), vec![2]);
    assert!(!remove_unreachable_blocks(&mut blocks));
}

#[test]
fn remap_local_follows_the_table() {
    let table = vec![Some(0), None, Some(1)];
    let mut local = LocalId(2);
    remap_local(&mut local, &table);
    assert_eq!(local, LocalId(1));
    let mut local = LocalId(1);
    remap_local(&mut local, &table);
    assert_eq!(local, LocalId(1));
    let mut local = LocalId(9);
    remap_local(&mut local, &table);
    assert_eq!(local, LocalId(9));
}

#[test]
fn cast_targets_and_constant_operands() {
    assert_eq!(int_kind(&TyRef::Int(IntKind::U8)), Some(IntKind::U8));
    assert_eq!(int_kind(&TyRef::Float(FloatKind::F32)), None);
    assert_eq!(int_kind(&TyRef::Other(3)), None);
    assert_eq!(float_kind(&TyRef::Float(FloatKind::F64)), Some(FloatKind::F64));
    assert_eq!(float_kind(&TyRef::Int(IntKind::I64)), None);
    let c = Operand::Const(kint(7, IntKind::I32));
    assert!(matches!(as_const(&c), Some(Const::Int(7, IntKind::I32))));
    let p = Operand::Copy(Place { local: LocalId(0), projection: vec![] });
    assert!(as_const(&p).is_none());
}

#[test]
fn optimizing_an_empty_program_is_a_clean_no_op() {
    let program = Program { functions: vec![], skipped: vec![] };
    let mut pipeline = Pipeline::start();
    let mut runs = 0;
    loop {
        // Every pass over no functions changes nothing.
        let changed = program.functions.iter().any(|_| true);
        runs += 1;
        if !pipeline.advance(changed) {
            break;
        }
    }
    assert_eq!(runs, 4, "one round of the four passes");
    let report = pipeline.report;
    assert!(!report.changed());
    let names: Vec<&str> = report.passes.iter().map(|p| p.name).collect();
    assert_eq!(names, vec!["const-fold", "copy-prop", "unreachable-blocks", "dead-locals"]);
}

#[test]
fn the_pipeline_reruns_while_a_round_changes_and_stops_at_the_cap() {
    let mut pipeline = Pipeline::start();
    // Round 0: copy-prop changes something, so round 1 runs.
    assert!(pipeline.advance(false));
    assert!(pipeline.advance(true));
    assert!(pipeline.advance(false));
    assert!(pipeline.advance(false));
    assert_eq!((pipeline.round, pipeline.pass), (1, 0));
    // Round 1 changes nothing: the run ends.
    for _ in 0..3 {
        assert!(pipeline.advance(false));
    }
    assert!(!pipeline.advance(false));
    assert!(pipeline.report.passes[1].changed);
    assert!(!pipeline.report.passes[0].changed);
    // A pipeline that always changes stops after the cap.
    let mut busy = Pipeline::start();
    let mut runs = 0;
    loop {
        runs += 1;
        if !busy.advance(true) {
            break;
        }
    }
    assert_eq!(runs, 4 * MAX_ROUNDS);
}
