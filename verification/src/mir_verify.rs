//! The MIR verifier over a whole function: the signature, the block
//! targets, every place and operand with the type checks of each statement
//! and terminator, and, when those find nothing, the initialization and
//! ownership analysis.

use vstd::prelude::*;
use crate::dataflow::{dataflow_faults, dataflow_if_sound, blocks_in_range, FlowFault};
use crate::mir::{Arg, BasicBlock, Callee, Function, LocalDecl, Operand, Program, Rvalue, Statement, Terminator};
use crate::opt::unreachable_blocks::{succs, targets_in_range};
use crate::structural::{check_signature, check_targets, signature_faults, target_faults_upto, StructFault};
use crate::type_checks::{
    assign_type_faults, callee_faults, check_assign_types, check_call_callee, check_effect_types,
    check_heap_mutate_types, check_place, effect_faults, heap_mutate_faults, place_faults, TypeFault,
};
use crate::types::{copy_spec, operand_type, place_type, tys_m, TableM, Ty, TyM, TypeTable};

verus! {

/// A fault the operand walk reports beyond the type checks.
#[derive(Clone, Copy, PartialEq, Eq, Structural, Debug)]
pub enum UseFault {
    /// A `Copy` value is moved out of the place rooted at `local` (it
    /// should be copied).
    MoveOfCopy { block: usize, local: u32 },
    /// The discriminant of a place that holds no enum, `Option` or `Result`.
    DiscriminantOfNonEnum { block: usize, local: u32 },
    /// The length of a place that holds no growable array.
    LenOfNonArray { block: usize, local: u32 },
    /// A branch or assertion on a condition that is not `Bool`.
    NonBoolCondition { block: usize },
}

impl UseFault {
    /// The diagnostic number: an ownership fault or a type mismatch.
    pub fn code(&self) -> (r: u16)
        ensures
            r == match *self {
                UseFault::MoveOfCopy { .. } => 9u16,
                _ => 6u16,
            },
    {
        match self {
            UseFault::MoveOfCopy { .. } => 9,
            _ => 6,
        }
    }
}

/// A fault of the places-and-operands walk.
#[derive(Clone, Copy, PartialEq, Eq, Structural, Debug)]
pub enum WalkFault {
    /// A place, type or callee fault.
    Type(TypeFault),
    /// A use fault.
    Use(UseFault),
}

/// Type faults as walk faults.
pub open spec fn tf(s: Seq<TypeFault>) -> Seq<WalkFault> {
    Seq::new(s.len(), |i: int| WalkFault::Type(s[i]))
}

/// What the walk finds of an operand: its place, and a move of a `Copy`
/// value.
pub open spec fn operand_faults(b: usize, lm: Seq<TyM>, t: TableM, o: Operand) -> Seq<WalkFault> {
    match o {
        Operand::Copy(p) => tf(place_faults(b, lm, t, p)),
        Operand::Move(p) => tf(place_faults(b, lm, t, p)) + match place_type(lm, t, p) {
            Some(ty) => if copy_spec(t, ty, seq![]) {
                seq![WalkFault::Use(UseFault::MoveOfCopy { block: b, local: p.local.0 })]
            } else {
                seq![]
            },
            None => seq![],
        },
        Operand::Const(_) => seq![],
    }
}

/// What the walk finds of the first `n` operands of a list.
pub open spec fn operands_faults(b: usize, lm: Seq<TyM>, t: TableM, os: Seq<Operand>, n: int) -> Seq<WalkFault>
    decreases n,
{
    if n <= 0 {
        seq![]
    } else {
        operands_faults(b, lm, t, os, n - 1) + operand_faults(b, lm, t, os[n - 1])
    }
}

/// What the walk finds of an argument.
pub open spec fn arg_faults(b: usize, lm: Seq<TyM>, t: TableM, a: Arg) -> Seq<WalkFault> {
    match a {
        Arg::Value(o) => operand_faults(b, lm, t, o),
        Arg::Borrow(p) => tf(place_faults(b, lm, t, p)),
        Arg::BorrowMut(p) => tf(place_faults(b, lm, t, p)),
    }
}

/// What the walk finds of the first `n` arguments of a list.
pub open spec fn args_faults(b: usize, lm: Seq<TyM>, t: TableM, args: Seq<Arg>, n: int) -> Seq<WalkFault>
    decreases n,
{
    if n <= 0 {
        seq![]
    } else {
        args_faults(b, lm, t, args, n - 1) + arg_faults(b, lm, t, args[n - 1])
    }
}

/// What the walk finds of an rvalue's operands and places.
pub open spec fn rvalue_faults(b: usize, lm: Seq<TyM>, t: TableM, r: Rvalue) -> Seq<WalkFault> {
    match r {
        Rvalue::Use(o) => operand_faults(b, lm, t, o),
        Rvalue::Unary { operand, .. } => operand_faults(b, lm, t, operand),
        Rvalue::Cast { operand, .. } => operand_faults(b, lm, t, operand),
        Rvalue::Binary { lhs, rhs, .. } => operand_faults(b, lm, t, lhs) + operand_faults(b, lm, t, rhs),
        Rvalue::Aggregate { fields, .. } => operands_faults(b, lm, t, fields@, fields@.len() as int),
        Rvalue::Discriminant(p) => tf(place_faults(b, lm, t, p)) + match place_type(lm, t, p) {
            Some(ty) => if !(ty is Option || ty is Result || ty is Enum) {
                seq![WalkFault::Use(UseFault::DiscriminantOfNonEnum { block: b, local: p.local.0 })]
            } else {
                seq![]
            },
            None => seq![],
        },
        Rvalue::Len(p) => tf(place_faults(b, lm, t, p)) + match place_type(lm, t, p) {
            Some(ty) => if !(ty is Array) {
                seq![WalkFault::Use(UseFault::LenOfNonArray { block: b, local: p.local.0 })]
            } else {
                seq![]
            },
            None => seq![],
        },
        Rvalue::StrOp { args, .. } => operands_faults(b, lm, t, args@, args@.len() as int),
        Rvalue::HeapOp { subject, args, .. } => (match subject {
            Some(p) => tf(place_faults(b, lm, t, p)),
            None => seq![],
        }) + operands_faults(b, lm, t, args@, args@.len() as int),
    }
}

/// What the walk finds of a statement, with its type checks.
pub open spec fn statement_faults(b: usize, lm: Seq<TyM>, t: TableM, s: Statement) -> Seq<WalkFault> {
    match s {
        Statement::Assign { place, rvalue } => tf(place_faults(b, lm, t, place)) + rvalue_faults(b, lm, t, rvalue) + tf(
            assign_type_faults(b, lm, t, place, rvalue),
        ),
        Statement::Call { dest, callee, args } => tf(place_faults(b, lm, t, dest)) + (match callee {
            Callee::Indirect(o) => operand_faults(b, lm, t, o),
            Callee::Direct(_) => seq![],
        }) + args_faults(b, lm, t, args@, args@.len() as int) + tf(callee_faults(b, lm, t, callee)),
        Statement::Effect { op, args, dest } => tf(place_faults(b, lm, t, dest)) + args_faults(
            b,
            lm,
            t,
            args@,
            args@.len() as int,
        ) + tf(effect_faults(b, lm, t, op, args@, dest)),
        Statement::HeapMutate { op, target, args, dest } => tf(place_faults(b, lm, t, target)) + tf(
            place_faults(b, lm, t, dest),
        ) + operands_faults(b, lm, t, args@, args@.len() as int) + tf(
            heap_mutate_faults(b, lm, t, op, target, args@, dest),
        ),
        Statement::Drop { place } => tf(place_faults(b, lm, t, place)),
    }
}

/// What the walk finds of a terminator's operand; a branch or assertion
/// condition must be `Bool`.
pub open spec fn terminator_faults(b: usize, lm: Seq<TyM>, t: TableM, term: Terminator) -> Seq<WalkFault> {
    match term {
        Terminator::Return(o) => operand_faults(b, lm, t, o),
        Terminator::Branch { cond, .. } => operand_faults(b, lm, t, cond) + cond_faults(b, lm, t, cond),
        Terminator::Assert { cond, .. } => operand_faults(b, lm, t, cond) + cond_faults(b, lm, t, cond),
        Terminator::Switch { discr, .. } => operand_faults(b, lm, t, discr),
        _ => seq![],
    }
}

/// A condition whose type is known and is not `Bool`.
pub open spec fn cond_faults(b: usize, lm: Seq<TyM>, t: TableM, cond: Operand) -> Seq<WalkFault> {
    match operand_type(lm, t, cond) {
        Some(ty) => if !(ty is Bool) {
            seq![WalkFault::Use(UseFault::NonBoolCondition { block: b })]
        } else {
            seq![]
        },
        None => seq![],
    }
}

/// What the walk finds of the first `n` statements of block `b`.
pub open spec fn statements_faults(b: usize, lm: Seq<TyM>, t: TableM, ss: Seq<Statement>, n: int) -> Seq<WalkFault>
    decreases n,
{
    if n <= 0 {
        seq![]
    } else {
        statements_faults(b, lm, t, ss, n - 1) + statement_faults(b, lm, t, ss[n - 1])
    }
}

/// What the walk finds of the first `k` blocks, block by block: the
/// statements, then the terminator.
pub open spec fn walk_faults(lm: Seq<TyM>, t: TableM, bs: Seq<BasicBlock<Statement>>, k: int) -> Seq<WalkFault>
    decreases k,
{
    if k <= 0 {
        seq![]
    } else {
        walk_faults(lm, t, bs, k - 1) + statements_faults(
            (k - 1) as usize,
            lm,
            t,
            bs[k - 1].statements@,
            bs[k - 1].statements@.len() as int,
        ) + terminator_faults((k - 1) as usize, lm, t, bs[k - 1].terminator)
    }
}

// ---------------------------------------------------------------------------
// The walk.
// ---------------------------------------------------------------------------

fn push_types(out: &mut Vec<WalkFault>, v: Vec<TypeFault>)
    ensures
        final(out)@ == old(out)@ + tf(v@),
{
    let ghost start = out@;
    let mut i: usize = 0;
    while i < v.len()
        invariant
            i <= v@.len(),
            out@ == start + tf(v@.take(i as int)),
        decreases v.len() - i,
    {
        out.push(WalkFault::Type(v[i]));
        assert(out@ =~= start + tf(v@.take(i + 1)));
        i = i + 1;
    }
    assert(v@.take(i as int) =~= v@);
}

fn walk_operand(b: usize, locals: &Vec<Ty>, types: &TypeTable, o: &Operand, out: &mut Vec<WalkFault>)
    ensures
        final(out)@ == old(out)@ + operand_faults(b, tys_m(locals@), types.m(), *o),
{
    let ghost start = out@;
    match o {
        Operand::Copy(p) => push_types(out, check_place(b, locals, types, p)),
        Operand::Move(p) => {
            push_types(out, check_place(b, locals, types, p));
            match types.place_ty(locals, p) {
                Some(ty) => {
                    if types.is_copy(&ty) {
                        out.push(WalkFault::Use(UseFault::MoveOfCopy { block: b, local: p.local.0 }));
                    }
                },
                None => {},
            }
        },
        Operand::Const(_) => {},
    }
    assert(out@ =~= start + operand_faults(b, tys_m(locals@), types.m(), *o));
}

fn walk_operands(b: usize, locals: &Vec<Ty>, types: &TypeTable, os: &Vec<Operand>, out: &mut Vec<WalkFault>)
    ensures
        final(out)@ == old(out)@ + operands_faults(b, tys_m(locals@), types.m(), os@, os@.len() as int),
{
    let ghost start = out@;
    let mut i: usize = 0;
    assert(start + operands_faults(b, tys_m(locals@), types.m(), os@, 0) =~= start);
    while i < os.len()
        invariant
            i <= os@.len(),
            out@ == start + operands_faults(b, tys_m(locals@), types.m(), os@, i as int),
        decreases os.len() - i,
    {
        walk_operand(b, locals, types, &os[i], out);
        assert(out@ =~= start + operands_faults(b, tys_m(locals@), types.m(), os@, i + 1));
        i = i + 1;
    }
}

fn walk_args(b: usize, locals: &Vec<Ty>, types: &TypeTable, args: &Vec<Arg>, out: &mut Vec<WalkFault>)
    ensures
        final(out)@ == old(out)@ + args_faults(b, tys_m(locals@), types.m(), args@, args@.len() as int),
{
    let ghost start = out@;
    let mut i: usize = 0;
    assert(start + args_faults(b, tys_m(locals@), types.m(), args@, 0) =~= start);
    while i < args.len()
        invariant
            i <= args@.len(),
            out@ == start + args_faults(b, tys_m(locals@), types.m(), args@, i as int),
        decreases args.len() - i,
    {
        match &args[i] {
            Arg::Value(o) => walk_operand(b, locals, types, o, out),
            Arg::Borrow(p) => push_types(out, check_place(b, locals, types, p)),
            Arg::BorrowMut(p) => push_types(out, check_place(b, locals, types, p)),
        }
        assert(out@ =~= start + args_faults(b, tys_m(locals@), types.m(), args@, i + 1));
        i = i + 1;
    }
}

fn walk_rvalue(b: usize, locals: &Vec<Ty>, types: &TypeTable, r: &Rvalue, out: &mut Vec<WalkFault>)
    ensures
        final(out)@ == old(out)@ + rvalue_faults(b, tys_m(locals@), types.m(), *r),
{
    let ghost start = out@;
    match r {
        Rvalue::Use(o) => walk_operand(b, locals, types, o, out),
        Rvalue::Unary { operand, .. } => walk_operand(b, locals, types, operand, out),
        Rvalue::Cast { operand, .. } => walk_operand(b, locals, types, operand, out),
        Rvalue::Binary { lhs: left, rhs: right, .. } => {
            walk_operand(b, locals, types, left, out);
            walk_operand(b, locals, types, right, out);
        },
        Rvalue::Aggregate { fields, .. } => walk_operands(b, locals, types, fields, out),
        Rvalue::Discriminant(p) => {
            push_types(out, check_place(b, locals, types, p));
            match types.place_ty(locals, p) {
                Some(ty) => {
                    let ok = match ty {
                        Ty::Option(_) | Ty::Result(..) | Ty::Enum(..) => true,
                        _ => false,
                    };
                    if !ok {
                        out.push(WalkFault::Use(UseFault::DiscriminantOfNonEnum { block: b, local: p.local.0 }));
                    }
                },
                None => {},
            }
        },
        Rvalue::Len(p) => {
            push_types(out, check_place(b, locals, types, p));
            match types.place_ty(locals, p) {
                Some(ty) => {
                    let ok = match ty {
                        Ty::Array(_) => true,
                        _ => false,
                    };
                    if !ok {
                        out.push(WalkFault::Use(UseFault::LenOfNonArray { block: b, local: p.local.0 }));
                    }
                },
                None => {},
            }
        },
        Rvalue::StrOp { args, .. } => walk_operands(b, locals, types, args, out),
        Rvalue::HeapOp { subject, args, .. } => {
            match subject {
                Some(p) => push_types(out, check_place(b, locals, types, p)),
                None => {},
            }
            walk_operands(b, locals, types, args, out);
        },
    }
    assert(out@ =~= start + rvalue_faults(b, tys_m(locals@), types.m(), *r));
}

/// Walk one statement: its places and operands, then its type checks.
pub fn walk_statement(b: usize, locals: &Vec<Ty>, types: &TypeTable, s: &Statement, out: &mut Vec<WalkFault>)
    ensures
        final(out)@ == old(out)@ + statement_faults(b, tys_m(locals@), types.m(), *s),
{
    let ghost start = out@;
    match s {
        Statement::Assign { place, rvalue } => {
            push_types(out, check_place(b, locals, types, place));
            walk_rvalue(b, locals, types, rvalue, out);
            push_types(out, check_assign_types(b, locals, types, place, rvalue));
        },
        Statement::Call { dest, callee, args } => {
            push_types(out, check_place(b, locals, types, dest));
            match callee {
                Callee::Indirect(o) => walk_operand(b, locals, types, o, out),
                Callee::Direct(_) => {},
            }
            walk_args(b, locals, types, args, out);
            push_types(out, check_call_callee(b, locals, types, callee));
        },
        Statement::Effect { op, args, dest } => {
            push_types(out, check_place(b, locals, types, dest));
            walk_args(b, locals, types, args, out);
            push_types(out, check_effect_types(b, locals, types, *op, args, dest));
        },
        Statement::HeapMutate { op, target, args, dest } => {
            push_types(out, check_place(b, locals, types, target));
            push_types(out, check_place(b, locals, types, dest));
            walk_operands(b, locals, types, args, out);
            push_types(out, check_heap_mutate_types(b, locals, types, *op, target, args, dest));
        },
        Statement::Drop { place } => push_types(out, check_place(b, locals, types, place)),
    }
    assert(out@ =~= start + statement_faults(b, tys_m(locals@), types.m(), *s));
}

fn walk_cond(b: usize, locals: &Vec<Ty>, types: &TypeTable, cond: &Operand, out: &mut Vec<WalkFault>)
    ensures
        final(out)@ == old(out)@ + cond_faults(b, tys_m(locals@), types.m(), *cond),
{
    let ghost start = out@;
    match types.operand_ty(locals, cond) {
        Some(ty) => {
            let ok = match ty {
                Ty::Bool => true,
                _ => false,
            };
            if !ok {
                out.push(WalkFault::Use(UseFault::NonBoolCondition { block: b }));
            }
        },
        None => {},
    }
    assert(out@ =~= start + cond_faults(b, tys_m(locals@), types.m(), *cond));
}

/// Walk a terminator's operand.
pub fn walk_terminator(b: usize, locals: &Vec<Ty>, types: &TypeTable, t: &Terminator, out: &mut Vec<WalkFault>)
    ensures
        final(out)@ == old(out)@ + terminator_faults(b, tys_m(locals@), types.m(), *t),
{
    let ghost start = out@;
    match t {
        Terminator::Return(o) => walk_operand(b, locals, types, o, out),
        Terminator::Branch { cond, .. } => {
            walk_operand(b, locals, types, cond, out);
            walk_cond(b, locals, types, cond, out);
        },
        Terminator::Assert { cond, .. } => {
            walk_operand(b, locals, types, cond, out);
            walk_cond(b, locals, types, cond, out);
        },
        Terminator::Switch { discr, .. } => walk_operand(b, locals, types, discr, out),
        _ => {},
    }
    assert(out@ =~= start + terminator_faults(b, tys_m(locals@), types.m(), *t));
}

/// Check every place and operand of a body, block by block, with the type
/// checks of each statement and terminator.
pub fn check_places_and_operands(locals: &Vec<Ty>, types: &TypeTable, blocks: &Vec<BasicBlock<Statement>>) -> (r: Vec<
    WalkFault,
>)
    ensures
        r@ == walk_faults(tys_m(locals@), types.m(), blocks@, blocks@.len() as int),
{
    let ghost lm = tys_m(locals@);
    let ghost tm = types.m();
    let mut out: Vec<WalkFault> = Vec::new();
    let mut k: usize = 0;
    while k < blocks.len()
        invariant
            k <= blocks@.len(),
            lm == tys_m(locals@),
            tm == types.m(),
            out@ == walk_faults(lm, tm, blocks@, k as int),
        decreases blocks.len() - k,
    {
        let ghost before = out@;
        let ss = &blocks[k].statements;
        let mut i: usize = 0;
        assert(before + statements_faults(k, lm, tm, ss@, 0) =~= before);
        while i < ss.len()
            invariant
                i <= ss@.len(),
                lm == tys_m(locals@),
                tm == types.m(),
                out@ == before + statements_faults(k, lm, tm, ss@, i as int),
            decreases ss.len() - i,
        {
            walk_statement(k, locals, types, &ss[i], &mut out);
            assert(out@ =~= before + statements_faults(k, lm, tm, ss@, i + 1));
            i = i + 1;
        }
        walk_terminator(k, locals, types, &blocks[k].terminator, &mut out);
        assert(out@ =~= walk_faults(lm, tm, blocks@, k + 1));
        k = k + 1;
    }
    out
}

// ---------------------------------------------------------------------------
// A whole function.
// ---------------------------------------------------------------------------

/// A fault the verifier reports of a function.
#[derive(Clone, Copy, PartialEq, Eq, Structural, Debug)]
pub enum MirFault {
    /// A signature or block-target fault.
    Structure(StructFault),
    /// A place, operand or type fault.
    Walk(WalkFault),
    /// An initialization or ownership fault of the data flow.
    Flow(FlowFault),
}

/// A count as the checks compare it, saturated to the index type.
pub open spec fn sat(n: nat) -> u32 {
    if n > u32::MAX {
        u32::MAX
    } else {
        n as u32
    }
}

/// The types of a function's locals.
pub open spec fn local_tys(ls: Seq<LocalDecl>) -> Seq<TyM> {
    Seq::new(ls.len(), |i: int| ls[i].ty.m())
}

/// The data-flow faults, where the analysis applies: no more parameters
/// than locals, at most `u32::MAX` blocks, every target and every local
/// in range; otherwise none.
pub open spec fn flow_faults(bs: Seq<BasicBlock<Statement>>, params: u32, locals: u32) -> Seq<FlowFault> {
    if params <= locals && bs.len() <= u32::MAX && targets_in_range(succs(bs)) && blocks_in_range(bs, locals as nat) {
        dataflow_faults(bs, params, locals)
    } else {
        seq![]
    }
}

/// What verifying a function finds, in order: the signature, the block
/// targets, the places and operands with their type checks, and, when the
/// targets, places and operands are clean, the data flow.
pub open spec fn function_faults(
    params: nat,
    ls: Seq<LocalDecl>,
    bs: Seq<BasicBlock<Statement>>,
    t: TableM,
) -> Seq<MirFault> {
    let sig = signature_faults(params as usize, ls.len() as usize, bs.len());
    let tg = target_faults_upto(bs, bs.len() as int);
    let wk = walk_faults(local_tys(ls), t, bs, bs.len() as int);
    let fl = if tg.len() == 0 && wk.len() == 0 {
        flow_faults(bs, sat(params), sat(ls.len()))
    } else {
        seq![]
    };
    Seq::new(sig.len(), |i: int| MirFault::Structure(sig[i])) + Seq::new(
        tg.len(),
        |i: int| MirFault::Structure(tg[i]),
    ) + Seq::new(wk.len(), |i: int| MirFault::Walk(wk[i])) + Seq::new(fl.len(), |i: int| MirFault::Flow(fl[i]))
}

fn push_structure(out: &mut Vec<MirFault>, v: Vec<StructFault>)
    ensures
        final(out)@ == old(out)@ + Seq::new(v@.len(), |i: int| MirFault::Structure(v@[i])),
{
    let ghost start = out@;
    let mut i: usize = 0;
    while i < v.len()
        invariant
            i <= v@.len(),
            out@ == start + Seq::new(i as nat, |j: int| MirFault::Structure(v@[j])),
        decreases v.len() - i,
    {
        out.push(MirFault::Structure(v[i]));
        assert(out@ =~= start + Seq::new((i + 1) as nat, |j: int| MirFault::Structure(v@[j])));
        i = i + 1;
    }
}

fn push_walk(out: &mut Vec<MirFault>, v: Vec<WalkFault>)
    ensures
        final(out)@ == old(out)@ + Seq::new(v@.len(), |i: int| MirFault::Walk(v@[i])),
{
    let ghost start = out@;
    let mut i: usize = 0;
    while i < v.len()
        invariant
            i <= v@.len(),
            out@ == start + Seq::new(i as nat, |j: int| MirFault::Walk(v@[j])),
        decreases v.len() - i,
    {
        out.push(MirFault::Walk(v[i]));
        assert(out@ =~= start + Seq::new((i + 1) as nat, |j: int| MirFault::Walk(v@[j])));
        i = i + 1;
    }
}

fn push_flow(out: &mut Vec<MirFault>, v: Vec<FlowFault>)
    ensures
        final(out)@ == old(out)@ + Seq::new(v@.len(), |i: int| MirFault::Flow(v@[i])),
{
    let ghost start = out@;
    let mut i: usize = 0;
    while i < v.len()
        invariant
            i <= v@.len(),
            out@ == start + Seq::new(i as nat, |j: int| MirFault::Flow(v@[j])),
        decreases v.len() - i,
    {
        out.push(MirFault::Flow(v[i]));
        assert(out@ =~= start + Seq::new((i + 1) as nat, |j: int| MirFault::Flow(v@[j])));
        i = i + 1;
    }
}

/// The types of a function's locals, as values.
fn local_types(ls: &Vec<LocalDecl>) -> (r: Vec<Ty>)
    ensures
        tys_m(r@) == local_tys(ls@),
{
    let mut out: Vec<Ty> = Vec::new();
    let mut i: usize = 0;
    while i < ls.len()
        invariant
            i <= ls@.len(),
            out@.len() == i,
            forall|j: int| 0 <= j < i ==> (#[trigger] out@[j]).m() == ls@[j].ty.m(),
        decreases ls.len() - i,
    {
        out.push(ls[i].ty.copy());
        i = i + 1;
    }
    assert(tys_m(out@) =~= local_tys(ls@));
    out
}

/// A count saturated to the index type.
fn saturate(n: usize) -> (r: u32)
    ensures
        r == sat(n as nat),
{
    if n > 4294967295usize {
        4294967295u32
    } else {
        n as u32
    }
}

/// Verify one function against the program's type table: the signature,
/// the block targets, every place and operand with the type checks, and,
/// when the targets, places and operands are clean, the data flow.
pub fn verify_function(f: &Function, types: &TypeTable) -> (r: Vec<MirFault>)
    ensures
        r@ == function_faults(f.params@.len(), f.locals@, f.blocks@, types.m()),
{
    let mut out: Vec<MirFault> = Vec::new();
    push_structure(&mut out, check_signature(f.params.len(), f.locals.len(), &f.blocks));
    let tg = check_targets(&f.blocks);
    let clean_targets = tg.len() == 0;
    push_structure(&mut out, tg);
    let lt = local_types(&f.locals);
    let wk = check_places_and_operands(&lt, types, &f.blocks);
    let clean_walk = wk.len() == 0;
    push_walk(&mut out, wk);
    let ghost before = out@;
    if clean_targets && clean_walk {
        match dataflow_if_sound(&f.blocks, saturate(f.params.len()), saturate(f.locals.len())) {
            Some(fl) => push_flow(&mut out, fl),
            None => {},
        }
    }
    assert(out@ =~= function_faults(f.params@.len(), f.locals@, f.blocks@, types.m()));
    out
}

/// Verify every function of a program, in order: each fault with the index
/// of its function.
pub fn verify(program: &Program, types: &TypeTable) -> (r: Vec<(usize, MirFault)>)
    ensures
        r@ == program_faults(program.functions@, types.m(), program.functions@.len() as int),
{
    let mut out: Vec<(usize, MirFault)> = Vec::new();
    let mut k: usize = 0;
    while k < program.functions.len()
        invariant
            k <= program.functions@.len(),
            out@ == program_faults(program.functions@, types.m(), k as int),
        decreases program.functions.len() - k,
    {
        let fs = verify_function(&program.functions[k], types);
        let ghost start = out@;
        let mut i: usize = 0;
        while i < fs.len()
            invariant
                i <= fs@.len(),
                out@ == start + Seq::new(i as nat, |j: int| (k, fs@[j])),
            decreases fs.len() - i,
        {
            out.push((k, fs[i]));
            assert(out@ =~= start + Seq::new((i + 1) as nat, |j: int| (k, fs@[j])));
            i = i + 1;
        }
        assert(out@ =~= program_faults(program.functions@, types.m(), k + 1));
        k = k + 1;
    }
    out
}

/// What verifying the first `k` functions finds, function by function.
pub open spec fn program_faults(fs: Seq<Function>, t: TableM, k: int) -> Seq<(usize, MirFault)>
    decreases k,
{
    if k <= 0 {
        seq![]
    } else {
        let ff = function_faults(fs[k - 1].params@.len(), fs[k - 1].locals@, fs[k - 1].blocks@, t);
        program_faults(fs, t, k - 1) + Seq::new(ff.len(), |j: int| ((k - 1) as usize, ff[j]))
    }
}

} // verus!
