use tuonelang::mir::{
    AggregateKind, BinOp, Const, HeapOp, PassMode, IntKind, LocalId, Operand, Place, Projection, Rvalue, StrOp, TyRef,
};
use tuonelang::mir::{Arg, Callee, EffectOp, HeapMutOp};
use tuonelang::type_checks::{
    check_assign_types, check_call_callee, check_effect_types, check_heap_mutate_types, check_heap_op_types, check_place, TypeFault,
};
use tuonelang::types::{ty_eq, types_agree, Ty, TypeTable};

fn place(local: u32) -> Place {
    Place { local: LocalId(local), projection: vec![] }
}

fn copy(local: u32) -> Operand {
    Operand::Copy(place(local))
}

fn i64c(v: i128) -> Operand {
    Operand::Const(Const::Int(v, IntKind::I64))
}

fn table() -> TypeTable {
    TypeTable {
        interned: vec![Ty::Bool],
        structs: vec![(7, vec![Ty::Int(IntKind::I64), Ty::Str])],
        enums: vec![(9, vec![vec![], vec![Ty::Char]])],
        functions: vec![(3, Ty::Fn(vec![PassMode::Value], vec![Ty::Int(IntKind::I64)], Box::new(Ty::Unit)))],
        type_params: vec![],
    }
}

/// _0: I64, _1: Str, _2: String, _3: Array[Bool], _4: Map[Str, I64],
/// _5: [Bool; 2], _6: struct 7, _7: enum 9, _8: Never.
fn locals() -> Vec<Ty> {
    vec![
        Ty::Int(IntKind::I64),
        Ty::Str,
        Ty::String,
        Ty::Array(Box::new(Ty::Bool)),
        Ty::Dict(Box::new(Ty::Str), Box::new(Ty::Int(IntKind::I64))),
        Ty::FixedArray(Box::new(Ty::Bool), 2),
        Ty::Struct(7, vec![]),
        Ty::Enum(9, vec![]),
        Ty::Never,
    ]
}

#[test]
fn type_equality_and_agreement() {
    let a = Ty::Tuple(vec![Ty::Int(IntKind::I64), Ty::Array(Box::new(Ty::Str))]);
    let b = Ty::Tuple(vec![Ty::Int(IntKind::I64), Ty::Array(Box::new(Ty::Str))]);
    let c = Ty::Tuple(vec![Ty::Int(IntKind::I64), Ty::Array(Box::new(Ty::String))]);
    assert!(ty_eq(&a, &b));
    assert!(!ty_eq(&a, &c));
    assert!(!types_agree(&a, &c));
    assert!(types_agree(&a, &Ty::Never));
    assert!(types_agree(&Ty::Error, &c));
}

#[test]
fn places_and_operands_are_typed_through_projections() {
    let t = table();
    let l = locals();
    let field = Place { local: LocalId(6), projection: vec![Projection::Field(1)] };
    assert!(ty_eq(&t.place_ty(&l, &field).unwrap(), &Ty::Str));
    let payload = Place { local: LocalId(7), projection: vec![Projection::VariantField { variant: 1, field: 0 }] };
    assert!(ty_eq(&t.place_ty(&l, &payload).unwrap(), &Ty::Char));
    let elem = Place { local: LocalId(5), projection: vec![Projection::Index(LocalId(0))] };
    assert!(ty_eq(&t.place_ty(&l, &elem).unwrap(), &Ty::Bool));
    let bad = Place { local: LocalId(0), projection: vec![Projection::Field(0)] };
    assert!(t.place_ty(&l, &bad).is_none());
    assert!(t.place_ty(&l, &place(40)).is_none());
    let f = t.operand_ty(&l, &Operand::Const(Const::Fn(3))).unwrap();
    assert!(matches!(f, Ty::Fn(..)));
    assert!(t.operand_ty(&l, &Operand::Const(Const::Fn(4))).is_none());
    assert!(ty_eq(&t.ref_ty(TyRef::Other(0)), &Ty::Bool));
    assert!(ty_eq(&t.ref_ty(TyRef::Other(5)), &Ty::Error));
}

#[test]
fn a_binary_operation_needs_agreeing_operands() {
    let t = table();
    let l = locals();
    let ok = Rvalue::Binary { op: BinOp::Add, lhs: copy(0), rhs: i64c(1) };
    assert_eq!(check_assign_types(0, &l, &t, &place(0), &ok), vec![]);
    let bad = Rvalue::Binary { op: BinOp::Eq, lhs: copy(0), rhs: copy(1) };
    assert_eq!(check_assign_types(3, &l, &t, &place(0), &bad), vec![TypeFault::OperandsDiffer { block: 3, op: BinOp::Eq }]);
    let never = Rvalue::Binary { op: BinOp::Eq, lhs: copy(8), rhs: copy(1) };
    assert_eq!(check_assign_types(3, &l, &t, &place(0), &never), vec![]);
}

#[test]
fn ranges_and_fixed_arrays_are_checked() {
    let t = table();
    let l = locals();
    let range = Rvalue::Aggregate { kind: AggregateKind::Range, fields: vec![i64c(1)] };
    assert_eq!(check_assign_types(1, &l, &t, &place(0), &range), vec![TypeFault::RangeArity { block: 1, count: 1 }]);
    let good = Rvalue::Aggregate {
        kind: AggregateKind::Array { element: TyRef::Other(0), len: 2 },
        fields: vec![Operand::Const(Const::Bool(true)), Operand::Const(Const::Bool(false))],
    };
    assert_eq!(check_assign_types(1, &l, &t, &place(5), &good), vec![]);
    let bad = Rvalue::Aggregate {
        kind: AggregateKind::Array { element: TyRef::Other(0), len: 3 },
        fields: vec![Operand::Const(Const::Bool(true)), i64c(4)],
    };
    assert_eq!(
        check_assign_types(2, &l, &t, &place(5), &bad),
        vec![
            TypeFault::FixedArrayLength { block: 2, len: 3, count: 2 },
            TypeFault::FixedArrayElement { block: 2 },
            TypeFault::FixedArrayDestination { block: 2 },
        ]
    );
}

#[test]
fn string_operations_are_checked() {
    let t = table();
    let l = locals();
    let len = Rvalue::StrOp { op: StrOp::Len, args: vec![copy(1)] };
    assert_eq!(check_assign_types(0, &l, &t, &place(0), &len), vec![]);
    let arity = Rvalue::StrOp { op: StrOp::Slice, args: vec![copy(1)] };
    assert_eq!(
        check_assign_types(0, &l, &t, &place(0), &arity),
        vec![TypeFault::StrOpArity { block: 0, op: StrOp::Slice, count: 1 }]
    );
    let mistyped = Rvalue::StrOp { op: StrOp::ByteAt, args: vec![copy(0), copy(0)] };
    assert_eq!(
        check_assign_types(4, &l, &t, &place(1), &mistyped),
        vec![
            TypeFault::StrOpOperand { block: 4, op: StrOp::ByteAt, position: 0 },
            TypeFault::StrOpDestination { block: 4, op: StrOp::ByteAt },
        ]
    );
}

#[test]
fn heap_operations_are_checked() {
    let t = table();
    let l = locals();
    assert_eq!(check_heap_op_types(0, &l, &t, HeapOp::ArrayGet, &Some(place(3)), &vec![i64c(0)], &place(8)), vec![]);
    assert_eq!(
        check_heap_op_types(0, &l, &t, HeapOp::ArrayGet, &Some(place(3)), &vec![i64c(0)], &place(0)),
        vec![TypeFault::HeapOpDestination { block: 0, op: HeapOp::ArrayGet }]
    );
    assert_eq!(
        check_heap_op_types(1, &l, &t, HeapOp::StringLen, &None, &vec![], &place(0)),
        vec![TypeFault::HeapOpMissingSubject { block: 1, op: HeapOp::StringLen }]
    );
    assert_eq!(
        check_heap_op_types(1, &l, &t, HeapOp::StringEmpty, &Some(place(2)), &vec![], &place(2)),
        vec![TypeFault::HeapOpExtraSubject { block: 1, op: HeapOp::StringEmpty }]
    );
    assert_eq!(
        check_heap_op_types(1, &l, &t, HeapOp::MapGet, &Some(place(1)), &vec![], &place(0)),
        vec![
            TypeFault::HeapOpSubject { block: 1, op: HeapOp::MapGet },
            TypeFault::HeapOpArity { block: 1, op: HeapOp::MapGet, count: 0 },
        ]
    );
    assert_eq!(
        check_heap_op_types(2, &l, &t, HeapOp::MapContainsKey, &Some(place(4)), &vec![copy(0)], &place(0)),
        vec![
            TypeFault::HeapOpOperand { block: 2, op: HeapOp::MapContainsKey, position: 0 },
            TypeFault::HeapOpDestination { block: 2, op: HeapOp::MapContainsKey },
        ]
    );
    let rv = Rvalue::HeapOp { op: HeapOp::StringConcat, subject: None, args: vec![copy(1), copy(1)] };
    assert_eq!(check_assign_types(0, &l, &t, &place(2), &rv), vec![]);
    assert_eq!(TypeFault::HeapOpArity { block: 0, op: HeapOp::MapLen, count: 1 }.code(), 12);
    assert_eq!(TypeFault::StrOpDestination { block: 0, op: StrOp::Len }.code(), 10);
    assert_eq!(TypeFault::RangeArity { block: 0, count: 0 }.code(), 6);
}

#[test]
fn effects_are_checked() {
    let t = table();
    let l = locals();
    let ok = vec![Arg::Value(i64c(1)), Arg::Value(copy(1))];
    assert_eq!(check_effect_types(0, &l, &t, EffectOp::Write, &ok, &place(0)), vec![]);
    assert_eq!(
        check_effect_types(0, &l, &t, EffectOp::Write, &vec![Arg::Value(i64c(1))], &place(0)),
        vec![TypeFault::EffectArity { block: 0, op: EffectOp::Write, count: 1 }]
    );
    let wrong = vec![Arg::Value(i64c(1)), Arg::Value(copy(2))];
    assert_eq!(
        check_effect_types(2, &l, &t, EffectOp::WriteString, &wrong, &place(1)),
        vec![
            TypeFault::EffectArgKind { block: 2, op: EffectOp::WriteString, position: 1 },
            TypeFault::EffectDestination { block: 2, op: EffectOp::WriteString },
        ]
    );
    let borrowed = vec![Arg::Value(i64c(1)), Arg::Borrow(place(1))];
    assert_eq!(
        check_effect_types(2, &l, &t, EffectOp::WriteString, &borrowed, &place(0)),
        vec![TypeFault::EffectArg { block: 2, op: EffectOp::WriteString, position: 1 }]
    );
    assert_eq!(TypeFault::EffectArg { block: 0, op: EffectOp::Write, position: 0 }.code(), 11);
}

#[test]
fn heap_mutations_are_checked() {
    let t = table();
    let l = locals();
    // push(mut _3: Array[Bool], true) -> ()
    assert_eq!(
        check_heap_mutate_types(0, &l, &t, HeapMutOp::Push, &place(3), &vec![Operand::Const(Const::Bool(true))], &place(8)),
        vec![]
    );
    assert_eq!(
        check_heap_mutate_types(0, &l, &t, HeapMutOp::Push, &place(3), &vec![i64c(1)], &place(0)),
        vec![
            TypeFault::HeapMutOperand { block: 0, op: HeapMutOp::Push, position: 0 },
            TypeFault::HeapMutDestination { block: 0, op: HeapMutOp::Push },
        ]
    );
    assert_eq!(
        check_heap_mutate_types(1, &l, &t, HeapMutOp::PushByte, &place(1), &vec![], &place(0)),
        vec![
            TypeFault::HeapMutTarget { block: 1, op: HeapMutOp::PushByte },
            TypeFault::HeapMutArity { block: 1, op: HeapMutOp::PushByte, count: 0 },
        ]
    );
    assert_eq!(TypeFault::HeapMutArity { block: 0, op: HeapMutOp::Pop, count: 1 }.code(), 13);
}

#[test]
fn places_are_checked_step_by_step() {
    let t = table();
    let l = locals();
    assert_eq!(check_place(0, &l, &t, &place(2)), vec![]);
    assert_eq!(check_place(4, &l, &t, &place(40)), vec![TypeFault::BadLocal { block: 4, local: 40 }]);
    let bad_index = Place { local: LocalId(3), projection: vec![Projection::Index(LocalId(99))] };
    assert_eq!(check_place(1, &l, &t, &bad_index), vec![TypeFault::BadIndexLocal { block: 1, local: 99 }]);
    let bad_step = Place { local: LocalId(0), projection: vec![Projection::Field(0)] };
    assert_eq!(check_place(1, &l, &t, &bad_step), vec![TypeFault::BadProjection { block: 1, local: 0 }]);
    assert_eq!(TypeFault::BadLocal { block: 0, local: 0 }.code(), 2);
    assert_eq!(TypeFault::BadProjection { block: 0, local: 0 }.code(), 3);
}

#[test]
fn callees_must_be_functions() {
    let t = table();
    let l = locals();
    assert_eq!(check_call_callee(0, &l, &t, &Callee::Direct(3)), vec![]);
    assert_eq!(check_call_callee(0, &l, &t, &Callee::Direct(4)), vec![]);
    assert_eq!(
        check_call_callee(5, &l, &t, &Callee::Indirect(copy(0))),
        vec![TypeFault::IndirectCallee { block: 5 }]
    );
    assert_eq!(check_call_callee(5, &l, &t, &Callee::Indirect(Operand::Const(Const::Fn(3)))), vec![]);
    let odd = TypeTable { interned: vec![], structs: vec![], enums: vec![], functions: vec![(3, Ty::Bool)], type_params: vec![] };
    assert_eq!(check_call_callee(1, &l, &odd, &Callee::Direct(3)), vec![TypeFault::DirectCallee { block: 1 }]);
    assert_eq!(TypeFault::DirectCallee { block: 1 }.code(), 14);
}
