//! The MIR verifier's type checks of an assignment: a binary operation's
//! operands share a type; a range is built from two operands; a fixed
//! array from exactly its length of element-typed operands into an
//! `[element; len]` place; a string or heap operation gets its subject,
//! operand count and operand types, and its destination is its result type.

use vstd::prelude::*;
use crate::mir::{
    effect_arity, heap_mut_arity, heap_op_arity, AggregateKind, Arg, BinOp, EffectOp, HeapMutOp, HeapOp, IntKind, Operand,
    PassMode, Place, Rvalue, StrOp,
};
use crate::mir::{Callee, Projection};
use crate::types::{fn_type, project_spec, agree, int_ty, operand_type, place_type, ref_ty_spec, tys_m, types_agree, TableM, Ty, TyM, TypeTable};

verus! {

/// A type fault the verifier reports of an assignment in block `block`.
#[derive(Clone, Copy, PartialEq, Eq, Structural, Debug)]
pub enum TypeFault {
    /// A binary operation's operands have differing types.
    OperandsDiffer { block: usize, op: BinOp },
    /// A range is built from other than two operands.
    RangeArity { block: usize, count: usize },
    /// A fixed array is built from other than its length of operands.
    FixedArrayLength { block: usize, len: u64, count: usize },
    /// A fixed array is built from an operand that is not its element type.
    FixedArrayElement { block: usize },
    /// A fixed array is assigned to a place that is not `[element; len]`.
    FixedArrayDestination { block: usize },
    /// A string operation gets the wrong number of operands.
    StrOpArity { block: usize, op: StrOp, count: usize },
    /// A string operation's operand at `position` is mistyped.
    StrOpOperand { block: usize, op: StrOp, position: usize },
    /// A string operation is assigned to a place of another type.
    StrOpDestination { block: usize, op: StrOp },
    /// A heap operation's subject place is mistyped.
    HeapOpSubject { block: usize, op: HeapOp },
    /// A heap operation that takes no subject place gets one.
    HeapOpExtraSubject { block: usize, op: HeapOp },
    /// A heap operation that takes a subject place gets none.
    HeapOpMissingSubject { block: usize, op: HeapOp },
    /// A heap operation gets the wrong number of operands.
    HeapOpArity { block: usize, op: HeapOp, count: usize },
    /// A heap operation's operand at `position` is mistyped.
    HeapOpOperand { block: usize, op: HeapOp, position: usize },
    /// A heap operation is assigned to a place that is not its result type.
    HeapOpDestination { block: usize, op: HeapOp },
    /// An effect gets the wrong number of arguments.
    EffectArity { block: usize, op: EffectOp, count: usize },
    /// An effect's argument at `position` is of the wrong kind (by value
    /// where a read-only borrow is expected, or the other way round).
    EffectArgKind { block: usize, op: EffectOp, position: usize },
    /// An effect's argument at `position` is mistyped.
    EffectArg { block: usize, op: EffectOp, position: usize },
    /// An effect stores into a place of the wrong type.
    EffectDestination { block: usize, op: EffectOp },
    /// A heap mutation's target is not the heap type it mutates.
    HeapMutTarget { block: usize, op: HeapMutOp },
    /// A heap mutation gets the wrong number of operands.
    HeapMutArity { block: usize, op: HeapMutOp, count: usize },
    /// A heap mutation's operand at `position` is mistyped.
    HeapMutOperand { block: usize, op: HeapMutOp, position: usize },
    /// A heap mutation stores into a place that is not its result type.
    HeapMutDestination { block: usize, op: HeapMutOp },
    /// A place names a local that does not exist.
    BadLocal { block: usize, local: u32 },
    /// A place indexes with a local that does not exist.
    BadIndexLocal { block: usize, local: u32 },
    /// A place rooted at `local` applies a projection its type does not
    /// allow.
    BadProjection { block: usize, local: u32 },
    /// A direct call names a symbol whose type is not a function type.
    DirectCallee { block: usize },
    /// An indirect call goes through a value that is not a function.
    IndirectCallee { block: usize },
}

impl TypeFault {
    /// The diagnostic number: a type mismatch, a malformed string operation,
    /// effect, heap operation, or heap mutation.
    pub fn code(&self) -> (r: u16)
        ensures
            r == match *self {
                TypeFault::BadLocal { .. } | TypeFault::BadIndexLocal { .. } => 2u16,
                TypeFault::BadProjection { .. } => 3u16,
                TypeFault::DirectCallee { .. } | TypeFault::IndirectCallee { .. } => 14u16,
                TypeFault::EffectArity { .. } | TypeFault::EffectArgKind { .. } | TypeFault::EffectArg { .. }
                | TypeFault::EffectDestination { .. } => 11u16,
                TypeFault::HeapMutTarget { .. } | TypeFault::HeapMutArity { .. } | TypeFault::HeapMutOperand { .. }
                | TypeFault::HeapMutDestination { .. } => 13u16,
                TypeFault::StrOpArity { .. } | TypeFault::StrOpOperand { .. } | TypeFault::StrOpDestination {
                    ..
                } => 10u16,
                TypeFault::HeapOpSubject { .. } | TypeFault::HeapOpExtraSubject { .. }
                | TypeFault::HeapOpMissingSubject { .. } | TypeFault::HeapOpArity { .. }
                | TypeFault::HeapOpOperand { .. } | TypeFault::HeapOpDestination { .. } => 12u16,
                _ => 6u16,
            },
    {
        match self {
            TypeFault::BadLocal { .. } | TypeFault::BadIndexLocal { .. } => 2,
            TypeFault::BadProjection { .. } => 3,
            TypeFault::DirectCallee { .. } | TypeFault::IndirectCallee { .. } => 14,
            TypeFault::EffectArity { .. } | TypeFault::EffectArgKind { .. } | TypeFault::EffectArg { .. }
            | TypeFault::EffectDestination { .. } => 11,
            TypeFault::HeapMutTarget { .. } | TypeFault::HeapMutArity { .. } | TypeFault::HeapMutOperand { .. }
            | TypeFault::HeapMutDestination { .. } => 13,
            TypeFault::StrOpArity { .. } | TypeFault::StrOpOperand { .. } | TypeFault::StrOpDestination { .. } => 10,
            TypeFault::HeapOpSubject { .. } | TypeFault::HeapOpExtraSubject { .. }
            | TypeFault::HeapOpMissingSubject { .. } | TypeFault::HeapOpArity { .. }
            | TypeFault::HeapOpOperand { .. } | TypeFault::HeapOpDestination { .. } => 12,
            _ => 6,
        }
    }
}

// ---------------------------------------------------------------------------
// What the checks find.
// ---------------------------------------------------------------------------

/// The element-type faults of the first `n` operands of a fixed array.
pub open spec fn element_faults(b: usize, locals: Seq<TyM>, t: TableM, fields: Seq<Operand>, el: TyM, n: int) -> Seq<TypeFault>
    decreases n,
{
    if n <= 0 {
        seq![]
    } else {
        element_faults(b, locals, t, fields, el, n - 1) + match operand_type(locals, t, fields[n - 1]) {
            Some(ty) => if !agree(ty, el) {
                seq![TypeFault::FixedArrayElement { block: b }]
            } else {
                seq![]
            },
            None => seq![],
        }
    }
}

/// The operand types a string operation takes.
pub open spec fn str_op_operands(op: StrOp) -> Seq<TyM> {
    match op {
        StrOp::Len => seq![TyM::Str],
        StrOp::ByteAt => seq![TyM::Str, int_ty()],
        StrOp::Slice => seq![TyM::Str, int_ty(), int_ty()],
    }
}

/// The type a string operation gives.
pub open spec fn str_op_result(op: StrOp) -> TyM {
    match op {
        StrOp::Slice => TyM::Str,
        _ => int_ty(),
    }
}

/// The operand faults of the first `n` operands of a string operation.
pub open spec fn str_operand_faults(
    b: usize,
    op: StrOp,
    locals: Seq<TyM>,
    t: TableM,
    args: Seq<Operand>,
    want: Seq<TyM>,
    n: int,
) -> Seq<TypeFault>
    decreases n,
{
    if n <= 0 {
        seq![]
    } else {
        str_operand_faults(b, op, locals, t, args, want, n - 1) + match operand_type(locals, t, args[n - 1]) {
            Some(ty) => if !agree(ty, want[n - 1]) {
                seq![TypeFault::StrOpOperand { block: b, op, position: (n - 1) as usize }]
            } else {
                seq![]
            },
            None => seq![],
        }
    }
}

/// The operand faults of the first `n` operands of a heap operation.
pub open spec fn heap_operand_faults(
    b: usize,
    op: HeapOp,
    locals: Seq<TyM>,
    t: TableM,
    args: Seq<Operand>,
    want: Seq<TyM>,
    n: int,
) -> Seq<TypeFault>
    decreases n,
{
    if n <= 0 {
        seq![]
    } else {
        heap_operand_faults(b, op, locals, t, args, want, n - 1) + match operand_type(locals, t, args[n - 1]) {
            Some(ty) => if !agree(ty, want[n - 1]) {
                seq![TypeFault::HeapOpOperand { block: b, op, position: (n - 1) as usize }]
            } else {
                seq![]
            },
            None => seq![],
        }
    }
}

/// The element type of the array a place holds (`I64` where the place has
/// no type or is no array).
pub open spec fn elem_of(locals: Seq<TyM>, t: TableM, p: Option<Place>) -> TyM {
    match p {
        Some(pl) => match place_type(locals, t, pl) {
            Some(TyM::Array(item)) => *item,
            _ => int_ty(),
        },
        None => int_ty(),
    }
}

/// The key and value types of the map a place holds (`I64` for both where
/// the place has no type or is no map).
pub open spec fn kv_of(locals: Seq<TyM>, t: TableM, p: Option<Place>) -> (TyM, TyM) {
    match p {
        Some(pl) => match place_type(locals, t, pl) {
            Some(TyM::Dict(k, v)) => (*k, *v),
            _ => (int_ty(), int_ty()),
        },
        None => (int_ty(), int_ty()),
    }
}

/// The subject type a heap operation takes, if it takes a subject.
pub open spec fn heap_subject(locals: Seq<TyM>, t: TableM, op: HeapOp, subject: Option<Place>) -> Option<TyM> {
    match op {
        HeapOp::StringLen | HeapOp::StringByteAt | HeapOp::StringSlice | HeapOp::StringAsStr => Some(TyM::String),
        HeapOp::ArrayLen | HeapOp::ArrayGet => Some(TyM::Array(Box::new(elem_of(locals, t, subject)))),
        HeapOp::MapGet | HeapOp::MapContainsKey | HeapOp::MapLen | HeapOp::MapKeys => Some(
            TyM::Dict(Box::new(kv_of(locals, t, subject).0), Box::new(kv_of(locals, t, subject).1)),
        ),
        _ => None,
    }
}

/// The operand types a heap operation takes.
pub open spec fn heap_operands(locals: Seq<TyM>, t: TableM, op: HeapOp, subject: Option<Place>) -> Seq<TyM> {
    match op {
        HeapOp::StringFromStr => seq![TyM::Str],
        HeapOp::StringConcat => seq![TyM::Str, TyM::Str],
        HeapOp::StringByteAt | HeapOp::ArrayGet => seq![int_ty()],
        HeapOp::StringSlice => seq![int_ty(), int_ty()],
        HeapOp::MapGet | HeapOp::MapContainsKey => seq![kv_of(locals, t, subject).0],
        _ => seq![],
    }
}

/// The type a heap operation gives; an empty array or map takes its element
/// or key and value types from the destination.
pub open spec fn heap_result(locals: Seq<TyM>, t: TableM, op: HeapOp, subject: Option<Place>, dest: Place) -> TyM {
    match op {
        HeapOp::StringEmpty | HeapOp::StringFromStr | HeapOp::StringConcat | HeapOp::StringSlice => TyM::String,
        HeapOp::StringAsStr => TyM::Str,
        HeapOp::StringLen | HeapOp::StringByteAt | HeapOp::ArrayLen | HeapOp::MapLen => int_ty(),
        HeapOp::ArrayGet => elem_of(locals, t, subject),
        HeapOp::ArrayEmpty => TyM::Array(Box::new(elem_of(locals, t, Some(dest)))),
        HeapOp::MapEmpty => TyM::Dict(
            Box::new(kv_of(locals, t, Some(dest)).0),
            Box::new(kv_of(locals, t, Some(dest)).1),
        ),
        HeapOp::MapGet => TyM::Option(Box::new(kv_of(locals, t, subject).1)),
        HeapOp::MapContainsKey => TyM::Bool,
        HeapOp::MapKeys => TyM::Array(Box::new(kv_of(locals, t, subject).0)),
    }
}

/// What the heap-operation check finds, in order: the subject, then the
/// operand count (which ends the check when wrong), the operand types and
/// the destination.
pub open spec fn heap_op_faults(
    b: usize,
    locals: Seq<TyM>,
    t: TableM,
    op: HeapOp,
    subject: Option<Place>,
    args: Seq<Operand>,
    dest: Place,
) -> Seq<TypeFault> {
    let subj = match (subject, heap_subject(locals, t, op, subject)) {
        (None, None) => seq![],
        (Some(p), Some(want)) => match place_type(locals, t, p) {
            Some(ty) => if !agree(ty, want) {
                seq![TypeFault::HeapOpSubject { block: b, op }]
            } else {
                seq![]
            },
            None => seq![],
        },
        (Some(_), None) => seq![TypeFault::HeapOpExtraSubject { block: b, op }],
        (None, Some(_)) => seq![TypeFault::HeapOpMissingSubject { block: b, op }],
    };
    if args.len() != heap_op_arity(op) {
        subj + seq![TypeFault::HeapOpArity { block: b, op, count: args.len() as usize }]
    } else {
        subj + heap_operand_faults(b, op, locals, t, args, heap_operands(locals, t, op, subject), args.len() as int)
            + match place_type(locals, t, dest) {
            Some(d) => if !agree(d, heap_result(locals, t, op, subject, dest)) {
                seq![TypeFault::HeapOpDestination { block: b, op }]
            } else {
                seq![]
            },
            None => seq![],
        }
    }
}

/// What the fixed-array part of the check finds.
pub open spec fn fixed_array_faults(b: usize, locals: Seq<TyM>, t: TableM, place: Place, rv: Rvalue) -> Seq<TypeFault> {
    match rv {
        Rvalue::Aggregate { kind: AggregateKind::Array { element, len }, fields } => {
            let el = ref_ty_spec(t, element);
            (if fields@.len() != len as int {
                seq![TypeFault::FixedArrayLength { block: b, len, count: fields@.len() as usize }]
            } else {
                seq![]
            }) + element_faults(b, locals, t, fields@, el, fields@.len() as int) + match place_type(locals, t, place) {
                Some(d) => if !((d matches TyM::FixedArray(item, n) && agree(*item, el) && n == len) || d is Never
                    || d is Error) {
                    seq![TypeFault::FixedArrayDestination { block: b }]
                } else {
                    seq![]
                },
                None => seq![],
            }
        },
        _ => seq![],
    }
}

/// What the string-operation part of the check finds: the operand count,
/// or else the operand types and the destination.
pub open spec fn str_op_faults(b: usize, locals: Seq<TyM>, t: TableM, place: Place, rv: Rvalue) -> Seq<TypeFault> {
    match rv {
        Rvalue::StrOp { op, args } => if args@.len() != str_op_operands(op).len() {
            seq![TypeFault::StrOpArity { block: b, op, count: args@.len() as usize }]
        } else {
            str_operand_faults(b, op, locals, t, args@, str_op_operands(op), args@.len() as int) + match place_type(
                locals,
                t,
                place,
            ) {
                Some(d) => if !agree(d, str_op_result(op)) {
                    seq![TypeFault::StrOpDestination { block: b, op }]
                } else {
                    seq![]
                },
                None => seq![],
            }
        },
        _ => seq![],
    }
}

/// What the type check of `place = rv` in block `b` finds, in order.
pub open spec fn assign_type_faults(b: usize, locals: Seq<TyM>, t: TableM, place: Place, rv: Rvalue) -> Seq<TypeFault> {
    match rv {
        Rvalue::Binary { op, lhs, rhs } => match (operand_type(locals, t, lhs), operand_type(locals, t, rhs)) {
            (Some(l), Some(r)) => if !agree(l, r) {
                seq![TypeFault::OperandsDiffer { block: b, op }]
            } else {
                seq![]
            },
            _ => seq![],
        },
        Rvalue::Aggregate { kind: AggregateKind::Range, fields } => if fields@.len() != 2 {
            seq![TypeFault::RangeArity { block: b, count: fields@.len() as usize }]
        } else {
            seq![]
        },
        Rvalue::Aggregate { kind: AggregateKind::Array { .. }, .. } => fixed_array_faults(b, locals, t, place, rv),
        Rvalue::StrOp { .. } => str_op_faults(b, locals, t, place, rv),
        Rvalue::HeapOp { op, subject, args } => heap_op_faults(b, locals, t, op, subject, args@, place),
        _ => seq![],
    }
}

// ---------------------------------------------------------------------------
// The checks.
// ---------------------------------------------------------------------------

/// Append the element-type faults of a fixed array's operands.
fn check_elements(b: usize, locals: &Vec<Ty>, types: &TypeTable, fields: &Vec<Operand>, el: &Ty, out: &mut Vec<TypeFault>)
    ensures
        final(out)@ == old(out)@ + element_faults(b, tys_m(locals@), types.m(), fields@, el.m(), fields@.len() as int),
{
    let ghost start = out@;
    let mut i: usize = 0;
    assert(start + element_faults(b, tys_m(locals@), types.m(), fields@, el.m(), 0) =~= start);
    while i < fields.len()
        invariant
            i <= fields@.len(),
            out@ == start + element_faults(b, tys_m(locals@), types.m(), fields@, el.m(), i as int),
        decreases fields.len() - i,
    {
        let ghost prev = out@;
        match types.operand_ty(locals, &fields[i]) {
            Some(ty) => {
                if !types_agree(&ty, el) {
                    out.push(TypeFault::FixedArrayElement { block: b });
                }
            },
            None => {},
        }
        assert(out@ =~= start + element_faults(b, tys_m(locals@), types.m(), fields@, el.m(), i + 1));
        i = i + 1;
    }
}

/// Append the faults of a string operation's operands against `want`.
fn check_str_operands(
    b: usize,
    op: StrOp,
    locals: &Vec<Ty>,
    types: &TypeTable,
    args: &Vec<Operand>,
    want: &Vec<Ty>,
    out: &mut Vec<TypeFault>,
)
    requires
        args@.len() <= want@.len(),
    ensures
        final(out)@ == old(out)@ + str_operand_faults(b, op, tys_m(locals@), types.m(), args@, tys_m(want@), args@.len() as int),
{
    let ghost start = out@;
    let mut i: usize = 0;
    assert(start + str_operand_faults(b, op, tys_m(locals@), types.m(), args@, tys_m(want@), 0) =~= start);
    while i < args.len()
        invariant
            i <= args@.len(),
            args@.len() <= want@.len(),
            out@ == start + str_operand_faults(b, op, tys_m(locals@), types.m(), args@, tys_m(want@), i as int),
        decreases args.len() - i,
    {
        assert(tys_m(want@)[i as int] == want@[i as int].m());
        match types.operand_ty(locals, &args[i]) {
            Some(ty) => {
                if !types_agree(&ty, &want[i]) {
                    out.push(TypeFault::StrOpOperand { block: b, op, position: i });
                }
            },
            None => {},
        }
        assert(out@ =~= start + str_operand_faults(b, op, tys_m(locals@), types.m(), args@, tys_m(want@), i + 1));
        i = i + 1;
    }
}

/// Append the faults of a heap operation's operands against `want`.
fn check_heap_operands(
    b: usize,
    op: HeapOp,
    locals: &Vec<Ty>,
    types: &TypeTable,
    args: &Vec<Operand>,
    want: &Vec<Ty>,
    out: &mut Vec<TypeFault>,
)
    requires
        args@.len() <= want@.len(),
    ensures
        final(out)@ == old(out)@ + heap_operand_faults(b, op, tys_m(locals@), types.m(), args@, tys_m(want@), args@.len() as int),
{
    let ghost start = out@;
    let mut i: usize = 0;
    assert(start + heap_operand_faults(b, op, tys_m(locals@), types.m(), args@, tys_m(want@), 0) =~= start);
    while i < args.len()
        invariant
            i <= args@.len(),
            args@.len() <= want@.len(),
            out@ == start + heap_operand_faults(b, op, tys_m(locals@), types.m(), args@, tys_m(want@), i as int),
        decreases args.len() - i,
    {
        assert(tys_m(want@)[i as int] == want@[i as int].m());
        match types.operand_ty(locals, &args[i]) {
            Some(ty) => {
                if !types_agree(&ty, &want[i]) {
                    out.push(TypeFault::HeapOpOperand { block: b, op, position: i });
                }
            },
            None => {},
        }
        assert(out@ =~= start + heap_operand_faults(b, op, tys_m(locals@), types.m(), args@, tys_m(want@), i + 1));
        i = i + 1;
    }
}

/// The signed 64-bit integer type.
fn int64() -> (r: Ty)
    ensures
        r.m() == int_ty(),
{
    Ty::Int(IntKind::I64)
}

/// The element type of the array a place holds.
fn elem_of_place(locals: &Vec<Ty>, types: &TypeTable, p: Option<&Place>) -> (r: Ty)
    ensures
        r.m() == elem_of(
            tys_m(locals@),
            types.m(),
            match p {
                Some(x) => Some(*x),
                None => None,
            },
        ),
{
    match p {
        Some(pl) => match types.place_ty(locals, pl) {
            Some(ty) => match ty {
                Ty::Array(item) => *item,
                _ => int64(),
            },
            None => int64(),
        },
        None => int64(),
    }
}

/// The key and value types of the map a place holds.
fn kv_of_place(locals: &Vec<Ty>, types: &TypeTable, p: Option<&Place>) -> (r: (Ty, Ty))
    ensures
        (r.0.m(), r.1.m()) == kv_of(
            tys_m(locals@),
            types.m(),
            match p {
                Some(x) => Some(*x),
                None => None,
            },
        ),
{
    match p {
        Some(pl) => match types.place_ty(locals, pl) {
            Some(ty) => match ty {
                Ty::Dict(k, v) => (*k, *v),
                _ => (int64(), int64()),
            },
            None => (int64(), int64()),
        },
        None => (int64(), int64()),
    }
}

/// Type-check a heap operation `dest = op(subject, args)` in block `b`: the
/// subject place is present exactly when the operation reads an existing
/// heap value, and then has its type; the operand count is the operation's
/// (a wrong count ends the check); each operand has its type; and the
/// destination has the operation's result type.
pub fn check_heap_op_types(
    b: usize,
    locals: &Vec<Ty>,
    types: &TypeTable,
    op: HeapOp,
    subject_place: &Option<Place>,
    args: &Vec<Operand>,
    dest: &Place,
) -> (r: Vec<TypeFault>)
    ensures
        r@ == heap_op_faults(b, tys_m(locals@), types.m(), op, *subject_place, args@, *dest),
{
    let ghost lm = tys_m(locals@);
    let ghost tm = types.m();
    let mut out: Vec<TypeFault> = Vec::new();
    let subject: Option<&Place> = match subject_place {
        Some(x) => Some(x),
        None => None,
    };
    let subject_ty: Option<Ty> = match op {
        HeapOp::StringLen | HeapOp::StringByteAt | HeapOp::StringSlice | HeapOp::StringAsStr => Some(Ty::String),
        HeapOp::ArrayLen | HeapOp::ArrayGet => Some(Ty::Array(Box::new(elem_of_place(locals, types, subject)))),
        HeapOp::MapGet | HeapOp::MapContainsKey | HeapOp::MapLen | HeapOp::MapKeys => {
            let (k, v) = kv_of_place(locals, types, subject);
            Some(Ty::Dict(Box::new(k), Box::new(v)))
        },
        _ => None,
    };
    assert(match subject_ty {
        Some(x) => heap_subject(lm, tm, op, *subject_place) == Some(x.m()),
        None => heap_subject(lm, tm, op, *subject_place) is None,
    });
    match (subject, &subject_ty) {
        (None, None) => {},
        (Some(place), Some(want)) => {
            match types.place_ty(locals, place) {
                Some(ty) => {
                    if !types_agree(&ty, want) {
                        out.push(TypeFault::HeapOpSubject { block: b, op });
                    }
                },
                None => {},
            }
        },
        (Some(_), None) => {
            out.push(TypeFault::HeapOpExtraSubject { block: b, op });
        },
        (None, Some(_)) => {
            out.push(TypeFault::HeapOpMissingSubject { block: b, op });
        },
    }
    if args.len() != op.arg_count() {
        out.push(TypeFault::HeapOpArity { block: b, op, count: args.len() });
        return out;
    }
    let want: Vec<Ty> = match op {
        HeapOp::StringFromStr => vec![Ty::Str],
        HeapOp::StringConcat => vec![Ty::Str, Ty::Str],
        HeapOp::StringByteAt | HeapOp::ArrayGet => vec![int64()],
        HeapOp::StringSlice => vec![int64(), int64()],
        HeapOp::MapGet | HeapOp::MapContainsKey => {
            let (k, _v) = kv_of_place(locals, types, subject);
            vec![k]
        },
        _ => Vec::new(),
    };
    assert(tys_m(want@) =~= heap_operands(lm, tm, op, *subject_place));
    check_heap_operands(b, op, locals, types, args, &want, &mut out);
    let result: Ty = match op {
        HeapOp::StringEmpty | HeapOp::StringFromStr | HeapOp::StringConcat | HeapOp::StringSlice => Ty::String,
        HeapOp::StringAsStr => Ty::Str,
        HeapOp::StringLen | HeapOp::StringByteAt | HeapOp::ArrayLen | HeapOp::MapLen => int64(),
        HeapOp::ArrayGet => elem_of_place(locals, types, subject),
        HeapOp::ArrayEmpty => {
            Ty::Array(Box::new(elem_of_place(locals, types, Some(dest))))
        },
        HeapOp::MapEmpty => {
            let (k, v) = kv_of_place(locals, types, Some(dest));
            Ty::Dict(Box::new(k), Box::new(v))
        },
        HeapOp::MapGet => {
            let (_k, v) = kv_of_place(locals, types, subject);
            Ty::Option(Box::new(v))
        },
        HeapOp::MapContainsKey => Ty::Bool,
        HeapOp::MapKeys => {
            let (k, _v) = kv_of_place(locals, types, subject);
            Ty::Array(Box::new(k))
        },
    };
    assert(result.m() == heap_result(lm, tm, op, *subject_place, *dest));
    match types.place_ty(locals, dest) {
        Some(d) => {
            if !types_agree(&d, &result) {
                out.push(TypeFault::HeapOpDestination { block: b, op });
            }
        },
        None => {},
    }
    out
}

/// Type-check the assignment `place = rvalue` in block `b`: a binary
/// operation's operands agree; a range has two operands; a fixed array has
/// its length of element-typed operands and an `[element; len]`
/// destination; a string operation has its operand count, its operand types
/// and a destination of its result type; a heap operation passes
/// [`check_heap_op_types`].
pub fn check_assign_types(b: usize, locals: &Vec<Ty>, types: &TypeTable, place: &Place, rvalue: &Rvalue) -> (r: Vec<
    TypeFault,
>)
    ensures
        r@ == assign_type_faults(b, tys_m(locals@), types.m(), *place, *rvalue),
{
    let ghost lm = tys_m(locals@);
    let ghost tm = types.m();
    let mut out: Vec<TypeFault> = Vec::new();
    match rvalue {
        Rvalue::Binary { op, lhs, rhs } => {
            match (types.operand_ty(locals, lhs), types.operand_ty(locals, rhs)) {
                (Some(l), Some(r)) => {
                    if !types_agree(&l, &r) {
                        out.push(TypeFault::OperandsDiffer { block: b, op: *op });
                    }
                },
                _ => {},
            }
        },
        Rvalue::Aggregate { kind, fields } => match kind {
            AggregateKind::Range => {
                if fields.len() != 2 {
                    out.push(TypeFault::RangeArity { block: b, count: fields.len() });
                }
            },
            AggregateKind::Array { element, len } => {
                let el = types.ref_ty(*element);
                if fields.len() as u64 != *len {
                    out.push(TypeFault::FixedArrayLength { block: b, len: *len, count: fields.len() });
                }
                check_elements(b, locals, types, fields, &el, &mut out);
                match types.place_ty(locals, place) {
                    Some(d) => {
                        let ok = match &d {
                            Ty::FixedArray(item, n) => types_agree(&**item, &el) && *n == *len,
                            Ty::Never | Ty::Error => true,
                            _ => false,
                        };
                        if !ok {
                            out.push(TypeFault::FixedArrayDestination { block: b });
                        }
                    },
                    None => {},
                }
                assert(out@ =~= fixed_array_faults(b, lm, tm, *place, *rvalue));
            },
            _ => {},
        },
        Rvalue::StrOp { op, args } => {
            let want: Vec<Ty> = match op {
                StrOp::Len => vec![Ty::Str],
                StrOp::ByteAt => vec![Ty::Str, int64()],
                StrOp::Slice => vec![Ty::Str, int64(), int64()],
            };
            assert(tys_m(want@) =~= str_op_operands(*op));
            if args.len() != want.len() {
                out.push(TypeFault::StrOpArity { block: b, op: *op, count: args.len() });
                return out;
            }
            check_str_operands(b, *op, locals, types, args, &want, &mut out);
            let result: Ty = match op {
                StrOp::Slice => Ty::Str,
                _ => int64(),
            };
            match types.place_ty(locals, place) {
                Some(d) => {
                    if !types_agree(&d, &result) {
                        out.push(TypeFault::StrOpDestination { block: b, op: *op });
                    }
                },
                None => {},
            }
            assert(out@ =~= str_op_faults(b, lm, tm, *place, *rvalue));
        },
        Rvalue::HeapOp { op, subject, args } => {
            out = check_heap_op_types(b, locals, types, *op, subject, args, place);
        },
        _ => {},
    }
    out
}

// ---------------------------------------------------------------------------
// Effects and heap mutations.
// ---------------------------------------------------------------------------

/// The function type `par_map` takes: one `I64` taken by value, giving `I64`.
pub open spec fn par_map_fn() -> TyM {
    TyM::Fn(seq![PassMode::Value], seq![int_ty()], Box::new(int_ty()))
}

/// The arguments an effect takes: whether each is by value (else a
/// read-only borrow), and its type.
pub open spec fn effect_params(op: EffectOp) -> Seq<(bool, TyM)> {
    match op {
        EffectOp::Write => seq![(true, int_ty()), (true, TyM::Str)],
        EffectOp::ReadByte | EffectOp::Exit | EffectOp::Close => seq![(true, int_ty())],
        EffectOp::WriteString => seq![(true, int_ty()), (false, TyM::String)],
        EffectOp::ParMap => seq![(true, par_map_fn()), (true, int_ty()), (false, TyM::Array(Box::new(int_ty())))],
        EffectOp::NowNanos | EffectOp::ArgCount => seq![],
        EffectOp::ArgByte => seq![(true, int_ty()), (true, int_ty())],
        EffectOp::Open => seq![(true, TyM::Str), (true, int_ty())],
        EffectOp::RemoveFile => seq![(true, TyM::Str)],
    }
}

/// The type an effect stores.
pub open spec fn effect_result(op: EffectOp) -> TyM {
    match op {
        EffectOp::ParMap => TyM::Array(Box::new(int_ty())),
        _ => int_ty(),
    }
}

/// The argument faults of the first `n` arguments of an effect.
pub open spec fn effect_arg_faults(
    b: usize,
    op: EffectOp,
    locals: Seq<TyM>,
    t: TableM,
    args: Seq<Arg>,
    want: Seq<(bool, TyM)>,
    n: int,
) -> Seq<TypeFault>
    decreases n,
{
    if n <= 0 {
        seq![]
    } else {
        let pos = (n - 1) as usize;
        effect_arg_faults(b, op, locals, t, args, want, n - 1) + match (args[n - 1], want[n - 1].0) {
            (Arg::Value(o), true) => match operand_type(locals, t, o) {
                Some(ty) => if !agree(ty, want[n - 1].1) {
                    seq![TypeFault::EffectArg { block: b, op, position: pos }]
                } else {
                    seq![]
                },
                None => seq![],
            },
            (Arg::Borrow(p), false) => match place_type(locals, t, p) {
                Some(ty) => if !agree(ty, want[n - 1].1) {
                    seq![TypeFault::EffectArg { block: b, op, position: pos }]
                } else {
                    seq![]
                },
                None => seq![],
            },
            _ => seq![TypeFault::EffectArgKind { block: b, op, position: pos }],
        }
    }
}

/// What the effect check finds: the argument count (which ends the check
/// when wrong), each argument's kind and type, and the destination.
pub open spec fn effect_faults(b: usize, locals: Seq<TyM>, t: TableM, op: EffectOp, args: Seq<Arg>, dest: Place) -> Seq<
    TypeFault,
> {
    if args.len() != effect_arity(op) {
        seq![TypeFault::EffectArity { block: b, op, count: args.len() as usize }]
    } else {
        effect_arg_faults(b, op, locals, t, args, effect_params(op), args.len() as int) + match place_type(
            locals,
            t,
            dest,
        ) {
            Some(d) => if !agree(d, effect_result(op)) {
                seq![TypeFault::EffectDestination { block: b, op }]
            } else {
                seq![]
            },
            None => seq![],
        }
    }
}

/// The element type a heap mutation reads from its target.
pub open spec fn mut_elem(locals: Seq<TyM>, t: TableM, op: HeapMutOp, target: Place) -> TyM {
    match op {
        HeapMutOp::Push | HeapMutOp::Pop => elem_of(locals, t, Some(target)),
        _ => int_ty(),
    }
}

/// The key and value types a heap mutation reads from its target.
pub open spec fn mut_kv(locals: Seq<TyM>, t: TableM, op: HeapMutOp, target: Place) -> (TyM, TyM) {
    match op {
        HeapMutOp::MapInsert | HeapMutOp::MapRemove => kv_of(locals, t, Some(target)),
        _ => (int_ty(), int_ty()),
    }
}

/// The target type, operand types and result type of a heap mutation.
pub open spec fn mut_shape(locals: Seq<TyM>, t: TableM, op: HeapMutOp, target: Place) -> (TyM, Seq<TyM>, TyM) {
    let e = mut_elem(locals, t, op, target);
    let kv = mut_kv(locals, t, op, target);
    match op {
        HeapMutOp::PushByte => (TyM::String, seq![int_ty()], TyM::Unit),
        HeapMutOp::Append => (TyM::String, seq![TyM::Str], TyM::Unit),
        HeapMutOp::Push => (TyM::Array(Box::new(e)), seq![e], TyM::Unit),
        HeapMutOp::Pop => (TyM::Array(Box::new(e)), seq![], TyM::Option(Box::new(e))),
        HeapMutOp::MapInsert => (TyM::Dict(Box::new(kv.0), Box::new(kv.1)), seq![kv.0, kv.1], TyM::Option(Box::new(kv.1))),
        HeapMutOp::MapRemove => (TyM::Dict(Box::new(kv.0), Box::new(kv.1)), seq![kv.0], TyM::Option(Box::new(kv.1))),
    }
}

/// The operand faults of the first `n` operands of a heap mutation.
pub open spec fn mut_operand_faults(
    b: usize,
    op: HeapMutOp,
    locals: Seq<TyM>,
    t: TableM,
    args: Seq<Operand>,
    want: Seq<TyM>,
    n: int,
) -> Seq<TypeFault>
    decreases n,
{
    if n <= 0 {
        seq![]
    } else {
        mut_operand_faults(b, op, locals, t, args, want, n - 1) + match operand_type(locals, t, args[n - 1]) {
            Some(ty) => if !agree(ty, want[n - 1]) {
                seq![TypeFault::HeapMutOperand { block: b, op, position: (n - 1) as usize }]
            } else {
                seq![]
            },
            None => seq![],
        }
    }
}

/// What the heap-mutation check finds: the target, then the operand count
/// (which ends the check when wrong), the operand types and the
/// destination.
pub open spec fn heap_mutate_faults(
    b: usize,
    locals: Seq<TyM>,
    t: TableM,
    op: HeapMutOp,
    target: Place,
    args: Seq<Operand>,
    dest: Place,
) -> Seq<TypeFault> {
    let shape = mut_shape(locals, t, op, target);
    let tf = match place_type(locals, t, target) {
        Some(ty) => if !agree(ty, shape.0) {
            seq![TypeFault::HeapMutTarget { block: b, op }]
        } else {
            seq![]
        },
        None => seq![],
    };
    if args.len() != heap_mut_arity(op) {
        tf + seq![TypeFault::HeapMutArity { block: b, op, count: args.len() as usize }]
    } else {
        tf + mut_operand_faults(b, op, locals, t, args, shape.1, args.len() as int) + match place_type(locals, t, dest) {
            Some(d) => if !agree(d, shape.2) {
                seq![TypeFault::HeapMutDestination { block: b, op }]
            } else {
                seq![]
            },
            None => seq![],
        }
    }
}

/// Type-check an effect `dest = op(args)` in block `b`: the argument count
/// is the effect's (a wrong count ends the check); each argument is of its
/// kind and type; the destination has the effect's result type.
pub fn check_effect_types(
    b: usize,
    locals: &Vec<Ty>,
    types: &TypeTable,
    op: EffectOp,
    args: &Vec<Arg>,
    dest: &Place,
) -> (r: Vec<TypeFault>)
    ensures
        r@ == effect_faults(b, tys_m(locals@), types.m(), op, args@, *dest),
{
    let ghost lm = tys_m(locals@);
    let ghost tm = types.m();
    let mut out: Vec<TypeFault> = Vec::new();
    if args.len() != op.arg_count() {
        out.push(TypeFault::EffectArity { block: b, op, count: args.len() });
        return out;
    }
    let want: Vec<(bool, Ty)> = match op {
        EffectOp::Write => vec![(true, int64()), (true, Ty::Str)],
        EffectOp::ReadByte | EffectOp::Exit | EffectOp::Close => vec![(true, int64())],
        EffectOp::WriteString => vec![(true, int64()), (false, Ty::String)],
        EffectOp::ParMap => vec![
            (true, par_map_fn_ty()),
            (true, int64()),
            (false, Ty::Array(Box::new(int64()))),
        ],
        EffectOp::NowNanos | EffectOp::ArgCount => Vec::new(),
        EffectOp::ArgByte => vec![(true, int64()), (true, int64())],
        EffectOp::Open => vec![(true, Ty::Str), (true, int64())],
        EffectOp::RemoveFile => vec![(true, Ty::Str)],
    };
    let ghost wm = Seq::new(want@.len(), |j: int| (want@[j].0, want@[j].1.m()));
    assert(wm =~= effect_params(op));
    let mut i: usize = 0;
    assert(out@ =~= effect_arg_faults(b, op, lm, tm, args@, wm, 0));
    while i < args.len()
        invariant
            i <= args@.len(),
            args@.len() == want@.len(),
            wm == Seq::new(want@.len(), |j: int| (want@[j].0, want@[j].1.m())),
            out@ == effect_arg_faults(b, op, lm, tm, args@, wm, i as int),
            lm == tys_m(locals@),
            tm == types.m(),
        decreases args.len() - i,
    {
        let pos = i;
        match (&args[i], want[i].0) {
            (Arg::Value(o), true) => {
                match types.operand_ty(locals, o) {
                    Some(ty) => {
                        if !types_agree(&ty, &want[i].1) {
                            out.push(TypeFault::EffectArg { block: b, op, position: pos });
                        }
                    },
                    None => {},
                }
            },
            (Arg::Borrow(p), false) => {
                match types.place_ty(locals, p) {
                    Some(ty) => {
                        if !types_agree(&ty, &want[i].1) {
                            out.push(TypeFault::EffectArg { block: b, op, position: pos });
                        }
                    },
                    None => {},
                }
            },
            _ => {
                out.push(TypeFault::EffectArgKind { block: b, op, position: pos });
            },
        }
        assert(out@ =~= effect_arg_faults(b, op, lm, tm, args@, wm, i + 1));
        i = i + 1;
    }
    let result: Ty = match op {
        EffectOp::ParMap => Ty::Array(Box::new(int64())),
        _ => int64(),
    };
    match types.place_ty(locals, dest) {
        Some(d) => {
            if !types_agree(&d, &result) {
                out.push(TypeFault::EffectDestination { block: b, op });
            }
        },
        None => {},
    }
    out
}

/// The function type `par_map` takes.
fn par_map_fn_ty() -> (r: Ty)
    ensures
        r.m() == par_map_fn(),
{
    let params = vec![int64()];
    let modes = vec![PassMode::Value];
    assert(tys_m(params@) =~= seq![int_ty()]);
    assert(modes@ =~= seq![PassMode::Value]);
    Ty::Fn(modes, params, Box::new(int64()))
}

/// Type-check a heap mutation `dest = op(mut target, args)` in block `b`:
/// the target is the heap type the operation mutates; the operand count is
/// the operation's (a wrong count ends the check); each operand has its
/// type; the destination has the operation's result type. An array's
/// element type and a map's key and value types are read from the target.
pub fn check_heap_mutate_types(
    b: usize,
    locals: &Vec<Ty>,
    types: &TypeTable,
    op: HeapMutOp,
    target: &Place,
    args: &Vec<Operand>,
    dest: &Place,
) -> (r: Vec<TypeFault>)
    ensures
        r@ == heap_mutate_faults(b, tys_m(locals@), types.m(), op, *target, args@, *dest),
{
    let ghost lm = tys_m(locals@);
    let ghost tm = types.m();
    let ghost shape = mut_shape(lm, tm, op, *target);
    let mut out: Vec<TypeFault> = Vec::new();
    let target_ty: Ty = match op {
        HeapMutOp::PushByte | HeapMutOp::Append => Ty::String,
        HeapMutOp::Push | HeapMutOp::Pop => Ty::Array(Box::new(elem_of_place(locals, types, Some(target)))),
        HeapMutOp::MapInsert | HeapMutOp::MapRemove => {
            let (k, v) = kv_of_place(locals, types, Some(target));
            Ty::Dict(Box::new(k), Box::new(v))
        },
    };
    assert(target_ty.m() == shape.0);
    match types.place_ty(locals, target) {
        Some(ty) => {
            if !types_agree(&ty, &target_ty) {
                out.push(TypeFault::HeapMutTarget { block: b, op });
            }
        },
        None => {},
    }
    if args.len() != op.arg_count() {
        out.push(TypeFault::HeapMutArity { block: b, op, count: args.len() });
        return out;
    }
    let want: Vec<Ty> = match op {
        HeapMutOp::PushByte => vec![int64()],
        HeapMutOp::Append => vec![Ty::Str],
        HeapMutOp::Push => vec![elem_of_place(locals, types, Some(target))],
        HeapMutOp::Pop => Vec::new(),
        HeapMutOp::MapInsert => {
            let (k, v) = kv_of_place(locals, types, Some(target));
            vec![k, v]
        },
        HeapMutOp::MapRemove => {
            let (k, _v) = kv_of_place(locals, types, Some(target));
            vec![k]
        },
    };
    assert(tys_m(want@) =~= shape.1);
    let ghost before = out@;
    let mut i: usize = 0;
    assert(before + mut_operand_faults(b, op, lm, tm, args@, tys_m(want@), 0) =~= before);
    while i < args.len()
        invariant
            i <= args@.len(),
            args@.len() == want@.len(),
            out@ == before + mut_operand_faults(b, op, lm, tm, args@, tys_m(want@), i as int),
            lm == tys_m(locals@),
            tm == types.m(),
        decreases args.len() - i,
    {
        assert(tys_m(want@)[i as int] == want@[i as int].m());
        match types.operand_ty(locals, &args[i]) {
            Some(ty) => {
                if !types_agree(&ty, &want[i]) {
                    out.push(TypeFault::HeapMutOperand { block: b, op, position: i });
                }
            },
            None => {},
        }
        assert(out@ =~= before + mut_operand_faults(b, op, lm, tm, args@, tys_m(want@), i + 1));
        i = i + 1;
    }
    let result: Ty = match op {
        HeapMutOp::PushByte | HeapMutOp::Append | HeapMutOp::Push => Ty::Unit,
        HeapMutOp::Pop => Ty::Option(Box::new(elem_of_place(locals, types, Some(target)))),
        HeapMutOp::MapInsert | HeapMutOp::MapRemove => {
            let (_k, v) = kv_of_place(locals, types, Some(target));
            Ty::Option(Box::new(v))
        },
    };
    assert(result.m() == shape.2);
    match types.place_ty(locals, dest) {
        Some(d) => {
            if !types_agree(&d, &result) {
                out.push(TypeFault::HeapMutDestination { block: b, op });
            }
        },
        None => {},
    }
    out
}

// ---------------------------------------------------------------------------
// Places.
// ---------------------------------------------------------------------------

/// The number of locals as the checks compare it: the length, saturated to
/// the largest local index type value.
pub open spec fn local_count(n: nat) -> u32 {
    if n > u32::MAX {
        u32::MAX
    } else {
        n as u32
    }
}

/// Walking projections `ps` from the `k`-th on over type `ty`: the first
/// index local that does not exist, or the first step the type does not
/// allow, is reported, and the walk stops there.
pub open spec fn projection_faults(
    b: usize,
    count: u32,
    t: TableM,
    root: u32,
    ps: Seq<Projection>,
    k: int,
    ty: TyM,
) -> Seq<TypeFault>
    decreases ps.len() - k,
{
    if k < 0 || k >= ps.len() {
        seq![]
    } else if ps[k] matches Projection::Index(ix) && ix.0 >= count {
        seq![TypeFault::BadIndexLocal { block: b, local: ps[k]->Index_0.0 }]
    } else {
        match project_spec(t, ty, ps[k]) {
            Some(next) => projection_faults(b, count, t, root, ps, k + 1, next),
            None => seq![TypeFault::BadProjection { block: b, local: root }],
        }
    }
}

/// What the place check finds: a root local that does not exist, or else
/// the first bad projection step.
pub open spec fn place_faults(b: usize, locals: Seq<TyM>, t: TableM, p: Place) -> Seq<TypeFault> {
    let count = local_count(locals.len());
    if p.local.0 >= count {
        seq![TypeFault::BadLocal { block: b, local: p.local.0 }]
    } else {
        projection_faults(b, count, t, p.local.0, p.projection@, 0, locals[p.local.0 as int])
    }
}

/// Check a place in block `b`: its root local exists; then, step by step,
/// each index local exists and each projection is legal for the type it
/// projects. The first problem is reported and ends the check.
pub fn check_place(b: usize, locals: &Vec<Ty>, types: &TypeTable, place: &Place) -> (r: Vec<TypeFault>)
    ensures
        r@ == place_faults(b, tys_m(locals@), types.m(), *place),
{
    let ghost lm = tys_m(locals@);
    let ghost tm = types.m();
    let count: u32 = if locals.len() > 4294967295usize {
        4294967295u32
    } else {
        locals.len() as u32
    };
    assert(count == local_count(lm.len()));
    let mut out: Vec<TypeFault> = Vec::new();
    if place.local.0 >= count {
        out.push(TypeFault::BadLocal { block: b, local: place.local.0 });
        assert(out@ =~= seq![TypeFault::BadLocal { block: b, local: place.local.0 }]);
        return out;
    }
    let ghost ps = place.projection@;
    let mut ty = locals[place.local.0 as usize].copy();
    assert(ty.m() == lm[place.local.0 as int]);
    let mut i: usize = 0;
    while i < place.projection.len()
        invariant
            ps == place.projection@,
            i <= ps.len(),
            count == local_count(lm.len()),
            lm == tys_m(locals@),
            tm == types.m(),
            place_faults(b, lm, tm, *place) == projection_faults(b, count, tm, place.local.0, ps, i as int, ty.m()),
            out@ == Seq::<TypeFault>::empty(),
        decreases place.projection.len() - i,
    {
        let step = place.projection[i];
        assert(step == ps[i as int]);
        match step {
            Projection::Index(ix) => {
                if ix.0 >= count {
                    out.push(TypeFault::BadIndexLocal { block: b, local: ix.0 });
                    assert(out@ =~= seq![TypeFault::BadIndexLocal { block: b, local: ix.0 }]);
                    return out;
                }
            },
            _ => {},
        }
        match types.project_ty(&ty, &step) {
            Some(next) => {
                ty = next;
            },
            None => {
                out.push(TypeFault::BadProjection { block: b, local: place.local.0 });
                assert(out@ =~= seq![TypeFault::BadProjection { block: b, local: place.local.0 }]);
                return out;
            },
        }
        i = i + 1;
    }
    assert(projection_faults(b, count, tm, place.local.0, ps, i as int, ty.m()) == Seq::<TypeFault>::empty());
    out
}

// ---------------------------------------------------------------------------
// Callees.
// ---------------------------------------------------------------------------

/// A type a callee may have: a function type, or one that agrees with
/// everything.
pub open spec fn callable(ty: TyM) -> bool {
    ty is Fn || ty is Error || ty is Never
}

/// What the callee check finds: a direct callee whose symbol has a type that
/// is not a function type, or an indirect callee whose operand is typed and
/// not a function. Missing type information is not reported.
pub open spec fn callee_faults(b: usize, locals: Seq<TyM>, t: TableM, callee: Callee) -> Seq<TypeFault> {
    match callee {
        Callee::Direct(sym) => match fn_type(t, sym) {
            Some(ty) => if !callable(ty) {
                seq![TypeFault::DirectCallee { block: b }]
            } else {
                seq![]
            },
            None => seq![],
        },
        Callee::Indirect(o) => match operand_type(locals, t, o) {
            Some(ty) => if !callable(ty) {
                seq![TypeFault::IndirectCallee { block: b }]
            } else {
                seq![]
            },
            None => seq![],
        },
    }
}

/// Whether a type may be called.
fn is_callable(ty: &Ty) -> (r: bool)
    ensures
        r == callable(ty.m()),
{
    match ty {
        Ty::Fn(..) | Ty::Error | Ty::Never => true,
        _ => false,
    }
}

/// Check a call's callee in block `b`: a direct callee's symbol has a
/// function type, and an indirect callee's operand is a function value.
pub fn check_call_callee(b: usize, locals: &Vec<Ty>, types: &TypeTable, callee: &Callee) -> (r: Vec<TypeFault>)
    ensures
        r@ == callee_faults(b, tys_m(locals@), types.m(), *callee),
{
    let mut out: Vec<TypeFault> = Vec::new();
    match callee {
        Callee::Direct(sym) => {
            match types.operand_ty(locals, &Operand::Const(crate::mir::Const::Fn(*sym))) {
                Some(ty) => {
                    if !is_callable(&ty) {
                        out.push(TypeFault::DirectCallee { block: b });
                    }
                },
                None => {},
            }
        },
        Callee::Indirect(o) => {
            match types.operand_ty(locals, o) {
                Some(ty) => {
                    if !is_callable(&ty) {
                        out.push(TypeFault::IndirectCallee { block: b });
                    }
                },
                None => {},
            }
        },
    }
    out
}

} // verus!
