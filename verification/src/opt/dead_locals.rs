//! Dead local elimination: remove locals whose value is never read.
//!
//! Two meaning-preserving steps:
//!
//! 1. **Dead store removal.** An assignment to a whole local that is read
//!    nowhere in the body, and whose rvalue cannot trap, is deleted. A
//!    trapping rvalue (integer arithmetic that can overflow, a division or
//!    remainder, a shift, a negation, a string or heap operation) is kept
//!    even when its result is unread, because the trap is observable; calls,
//!    effects, heap mutations and drops are never removed.
//! 2. **Dead local removal.** A local that is then mentioned nowhere in the
//!    body, and is not a parameter, is deleted, and the remaining locals are
//!    renumbered densely in their old order, so parameters keep their slots.

use vstd::prelude::*;
use crate::mir::{Arg, BasicBlock, BinOp, Callee, LocalId, Operand, Place, Projection, Rvalue, Statement, Terminator, UnOp};
use crate::opt::remap_local;
use crate::opt::unreachable_blocks::{lemma_rank_bounded, lemma_survivors, rank, survivors};

verus! {

// ---------------------------------------------------------------------------
// The locals a body reads.
// ---------------------------------------------------------------------------

/// The index locals of a projection path, in order.
pub open spec fn index_locals(ps: Seq<Projection>) -> Seq<u32>
    decreases ps.len(),
{
    if ps.len() == 0 {
        seq![]
    } else {
        index_locals(ps.drop_last()) + match ps.last() {
            Projection::Index(l) => seq![l.0],
            _ => seq![],
        }
    }
}

/// The locals a place reads: its index locals, and its root unless it is a
/// whole local being written.
pub open spec fn place_uses(p: Place, write: bool) -> Seq<u32> {
    (if !write || p.projection@.len() > 0 {
        seq![p.local.0]
    } else {
        seq![]
    }) + index_locals(p.projection@)
}

/// The locals an operand reads.
pub open spec fn operand_uses(o: Operand) -> Seq<u32> {
    match o {
        Operand::Copy(p) => place_uses(p, false),
        Operand::Move(p) => place_uses(p, false),
        Operand::Const(_) => seq![],
    }
}

/// The locals a list of operands reads.
pub open spec fn operands_uses(os: Seq<Operand>) -> Seq<u32>
    decreases os.len(),
{
    if os.len() == 0 {
        seq![]
    } else {
        operands_uses(os.drop_last()) + operand_uses(os.last())
    }
}

/// The locals an argument reads (a borrowed place is read through).
pub open spec fn arg_uses(a: Arg) -> Seq<u32> {
    match a {
        Arg::Value(o) => operand_uses(o),
        Arg::Borrow(p) => place_uses(p, false),
        Arg::BorrowMut(p) => place_uses(p, false),
    }
}

/// The locals a list of arguments reads.
pub open spec fn args_uses(args: Seq<Arg>) -> Seq<u32>
    decreases args.len(),
{
    if args.len() == 0 {
        seq![]
    } else {
        args_uses(args.drop_last()) + arg_uses(args.last())
    }
}

/// The locals an rvalue reads.
pub open spec fn rvalue_uses(r: Rvalue) -> Seq<u32> {
    match r {
        Rvalue::Use(o) => operand_uses(o),
        Rvalue::Unary { operand, .. } => operand_uses(operand),
        Rvalue::Binary { lhs, rhs, .. } => operand_uses(lhs) + operand_uses(rhs),
        Rvalue::Cast { operand, .. } => operand_uses(operand),
        Rvalue::Aggregate { fields, .. } => operands_uses(fields@),
        Rvalue::Discriminant(p) => place_uses(p, false),
        Rvalue::Len(p) => place_uses(p, false),
        Rvalue::StrOp { args, .. } => operands_uses(args@),
        Rvalue::HeapOp { subject, args, .. } => (match subject {
            Some(p) => place_uses(p, false),
            None => seq![],
        }) + operands_uses(args@),
    }
}

/// The locals a statement reads.
pub open spec fn statement_uses(s: Statement) -> Seq<u32> {
    match s {
        Statement::Assign { place, rvalue } => place_uses(place, true) + rvalue_uses(rvalue),
        Statement::Call { dest, callee, args } => place_uses(dest, true) + (match callee {
            Callee::Indirect(o) => operand_uses(o),
            Callee::Direct(_) => seq![],
        }) + args_uses(args@),
        Statement::Effect { args, dest, .. } => place_uses(dest, true) + args_uses(args@),
        Statement::HeapMutate { target, args, dest, .. } => place_uses(target, false) + operands_uses(args@)
            + place_uses(dest, true),
        Statement::Drop { place } => place_uses(place, false),
    }
}

/// The locals a list of statements reads.
pub open spec fn statements_uses(ss: Seq<Statement>) -> Seq<u32>
    decreases ss.len(),
{
    if ss.len() == 0 {
        seq![]
    } else {
        statements_uses(ss.drop_last()) + statement_uses(ss.last())
    }
}

/// The locals a terminator reads.
pub open spec fn terminator_uses(t: Terminator) -> Seq<u32> {
    match t {
        Terminator::Return(o) => operand_uses(o),
        Terminator::Branch { cond, .. } => operand_uses(cond),
        Terminator::Switch { discr, .. } => operand_uses(discr),
        Terminator::Assert { cond, .. } => operand_uses(cond),
        _ => seq![],
    }
}

/// The locals a body reads, block by block.
pub open spec fn body_uses(bs: Seq<BasicBlock<Statement>>) -> Seq<u32>
    decreases bs.len(),
{
    if bs.len() == 0 {
        seq![]
    } else {
        body_uses(bs.drop_last()) + statements_uses(bs.last().statements@) + terminator_uses(bs.last().terminator)
    }
}

fn note_index_locals(ps: &Vec<Projection>, out: &mut Vec<u32>)
    ensures
        final(out)@ == old(out)@ + index_locals(ps@),
{
    let ghost start = out@;
    let mut i: usize = 0;
    assert(ps@.take(0) =~= Seq::<Projection>::empty());
    assert(start + index_locals(ps@.take(0)) =~= start);
    while i < ps.len()
        invariant
            i <= ps@.len(),
            out@ == start + index_locals(ps@.take(i as int)),
        decreases ps.len() - i,
    {
        assert(ps@.take(i + 1).drop_last() =~= ps@.take(i as int));
        assert(ps@.take(i + 1).last() == ps@[i as int]);
        match &ps[i] {
            Projection::Index(l) => out.push(l.0),
            _ => {},
        }
        assert(out@ =~= start + index_locals(ps@.take(i + 1)));
        i = i + 1;
    }
    assert(ps@.take(i as int) =~= ps@);
}

fn note_place(p: &Place, write: bool, out: &mut Vec<u32>)
    ensures
        final(out)@ == old(out)@ + place_uses(*p, write),
{
    let ghost start = out@;
    if !write || p.projection.len() > 0 {
        out.push(p.local.0);
    }
    note_index_locals(&p.projection, out);
    assert(out@ =~= start + place_uses(*p, write));
}

fn note_operand(o: &Operand, out: &mut Vec<u32>)
    ensures
        final(out)@ == old(out)@ + operand_uses(*o),
{
    match o {
        Operand::Copy(p) => note_place(p, false, out),
        Operand::Move(p) => note_place(p, false, out),
        Operand::Const(_) => {
            assert(old(out)@ + operand_uses(*o) =~= old(out)@);
        },
    }
}

fn note_operands(os: &Vec<Operand>, out: &mut Vec<u32>)
    ensures
        final(out)@ == old(out)@ + operands_uses(os@),
{
    let ghost start = out@;
    let mut i: usize = 0;
    assert(os@.take(0) =~= Seq::<Operand>::empty());
    assert(start + operands_uses(os@.take(0)) =~= start);
    while i < os.len()
        invariant
            i <= os@.len(),
            out@ == start + operands_uses(os@.take(i as int)),
        decreases os.len() - i,
    {
        assert(os@.take(i + 1).drop_last() =~= os@.take(i as int));
        assert(os@.take(i + 1).last() == os@[i as int]);
        note_operand(&os[i], out);
        assert(out@ =~= start + operands_uses(os@.take(i + 1)));
        i = i + 1;
    }
    assert(os@.take(i as int) =~= os@);
}

fn note_args(args: &Vec<Arg>, out: &mut Vec<u32>)
    ensures
        final(out)@ == old(out)@ + args_uses(args@),
{
    let ghost start = out@;
    let mut i: usize = 0;
    assert(args@.take(0) =~= Seq::<Arg>::empty());
    assert(start + args_uses(args@.take(0)) =~= start);
    while i < args.len()
        invariant
            i <= args@.len(),
            out@ == start + args_uses(args@.take(i as int)),
        decreases args.len() - i,
    {
        assert(args@.take(i + 1).drop_last() =~= args@.take(i as int));
        assert(args@.take(i + 1).last() == args@[i as int]);
        match &args[i] {
            Arg::Value(o) => note_operand(o, out),
            Arg::Borrow(p) => note_place(p, false, out),
            Arg::BorrowMut(p) => note_place(p, false, out),
        }
        assert(out@ =~= start + args_uses(args@.take(i + 1)));
        i = i + 1;
    }
    assert(args@.take(i as int) =~= args@);
}

fn note_rvalue(r: &Rvalue, out: &mut Vec<u32>)
    ensures
        final(out)@ == old(out)@ + rvalue_uses(*r),
{
    let ghost start = out@;
    match r {
        Rvalue::Use(o) => note_operand(o, out),
        Rvalue::Unary { operand, .. } => note_operand(operand, out),
        Rvalue::Binary { lhs, rhs, .. } => {
            note_operand(lhs, out);
            note_operand(rhs, out);
        },
        Rvalue::Cast { operand, .. } => note_operand(operand, out),
        Rvalue::Aggregate { fields, .. } => note_operands(fields, out),
        Rvalue::Discriminant(p) => note_place(p, false, out),
        Rvalue::Len(p) => note_place(p, false, out),
        Rvalue::StrOp { args, .. } => note_operands(args, out),
        Rvalue::HeapOp { subject, args, .. } => {
            match subject {
                Some(p) => note_place(p, false, out),
                None => {},
            }
            note_operands(args, out);
        },
    }
    assert(out@ =~= start + rvalue_uses(*r));
}

fn note_statement(s: &Statement, out: &mut Vec<u32>)
    ensures
        final(out)@ == old(out)@ + statement_uses(*s),
{
    let ghost start = out@;
    match s {
        Statement::Assign { place, rvalue } => {
            note_place(place, true, out);
            note_rvalue(rvalue, out);
        },
        Statement::Call { dest, callee, args } => {
            note_place(dest, true, out);
            match callee {
                Callee::Indirect(o) => note_operand(o, out),
                Callee::Direct(_) => {},
            }
            note_args(args, out);
        },
        Statement::Effect { args, dest, .. } => {
            note_place(dest, true, out);
            note_args(args, out);
        },
        Statement::HeapMutate { target, args, dest, .. } => {
            note_place(target, false, out);
            note_operands(args, out);
            note_place(dest, true, out);
        },
        Statement::Drop { place } => note_place(place, false, out),
    }
    assert(out@ =~= start + statement_uses(*s));
}

fn note_terminator(t: &Terminator, out: &mut Vec<u32>)
    ensures
        final(out)@ == old(out)@ + terminator_uses(*t),
{
    match t {
        Terminator::Return(o) => note_operand(o, out),
        Terminator::Branch { cond, .. } => note_operand(cond, out),
        Terminator::Switch { discr, .. } => note_operand(discr, out),
        Terminator::Assert { cond, .. } => note_operand(cond, out),
        _ => {
            assert(old(out)@ + terminator_uses(*t) =~= old(out)@);
        },
    }
}

/// Every local the body reads, with repeats, block by block.
pub fn read_locals(blocks: &Vec<BasicBlock<Statement>>) -> (r: Vec<u32>)
    ensures
        r@ == body_uses(blocks@),
{
    let mut out: Vec<u32> = Vec::new();
    let mut b: usize = 0;
    assert(blocks@.take(0) =~= Seq::<BasicBlock<Statement>>::empty());
    while b < blocks.len()
        invariant
            b <= blocks@.len(),
            out@ == body_uses(blocks@.take(b as int)),
        decreases blocks.len() - b,
    {
        let ghost before = out@;
        let ss = &blocks[b].statements;
        let mut i: usize = 0;
        assert(ss@.take(0) =~= Seq::<Statement>::empty());
        assert(before + statements_uses(ss@.take(0)) =~= before);
        while i < ss.len()
            invariant
                i <= ss@.len(),
                out@ == before + statements_uses(ss@.take(i as int)),
            decreases ss.len() - i,
        {
            assert(ss@.take(i + 1).drop_last() =~= ss@.take(i as int));
            assert(ss@.take(i + 1).last() == ss@[i as int]);
            note_statement(&ss[i], &mut out);
            assert(out@ =~= before + statements_uses(ss@.take(i + 1)));
            i = i + 1;
        }
        assert(ss@.take(i as int) =~= ss@);
        note_terminator(&blocks[b].terminator, &mut out);
        assert(blocks@.take(b + 1).drop_last() =~= blocks@.take(b as int));
        assert(blocks@.take(b + 1).last() == blocks@[b as int]);
        assert(out@ =~= body_uses(blocks@.take(b + 1)));
        b = b + 1;
    }
    assert(blocks@.take(b as int) =~= blocks@);
    out
}

// ---------------------------------------------------------------------------
// Dead store removal.
// ---------------------------------------------------------------------------

/// Whether an rvalue can trap, so that it must run even when its result is
/// unread: integer arithmetic that can overflow, division and remainder,
/// shifts, negation, and string and heap operations.
pub open spec fn can_trap(r: Rvalue) -> bool {
    match r {
        Rvalue::Binary { op, .. } => op is Add || op is Sub || op is Mul || op is Div || op is Rem || op is Shl
            || op is Shr,
        Rvalue::Unary { op, .. } => op is Neg,
        Rvalue::StrOp { .. } => true,
        Rvalue::HeapOp { .. } => true,
        _ => false,
    }
}

/// A dead store: an assignment of a non-trapping rvalue to a whole local
/// that `reads` does not hold.
pub open spec fn dead_store(s: Statement, reads: Seq<u32>) -> bool {
    match s {
        Statement::Assign { place, rvalue } => place.projection@.len() == 0 && !reads.contains(place.local.0)
            && !can_trap(rvalue),
        _ => false,
    }
}

/// The statements that are not dead stores, in order.
pub open spec fn live_statements(ss: Seq<Statement>, reads: Seq<u32>) -> Seq<Statement>
    decreases ss.len(),
{
    if ss.len() == 0 {
        seq![]
    } else {
        live_statements(ss.drop_last(), reads) + if dead_store(ss.last(), reads) {
            seq![]
        } else {
            seq![ss.last()]
        }
    }
}

/// Whether `v` holds `x`.
fn holds(v: &Vec<u32>, x: u32) -> (r: bool)
    ensures
        r == v@.contains(x),
{
    let mut i: usize = 0;
    while i < v.len()
        invariant
            i <= v@.len(),
            forall|j: int| 0 <= j < i ==> v@[j] != x,
        decreases v.len() - i,
    {
        if v[i] == x {
            assert(v@[i as int] == x);
            return true;
        }
        i = i + 1;
    }
    false
}

/// Whether an rvalue can trap.
pub fn rvalue_can_trap(r: &Rvalue) -> (t: bool)
    ensures
        t == can_trap(*r),
{
    match r {
        Rvalue::Binary { op, .. } => match op {
            BinOp::Add | BinOp::Sub | BinOp::Mul | BinOp::Div | BinOp::Rem | BinOp::Shl | BinOp::Shr => true,
            _ => false,
        },
        Rvalue::Unary { op, .. } => match op {
            UnOp::Neg => true,
            _ => false,
        },
        Rvalue::StrOp { .. } => true,
        Rvalue::HeapOp { .. } => true,
        _ => false,
    }
}

/// Delete every assignment to a whole local that the body reads nowhere
/// and whose rvalue cannot trap; report whether any was deleted.
pub fn remove_dead_stores(blocks: &mut Vec<BasicBlock<Statement>>) -> (changed: bool)
    ensures
        final(blocks)@.len() == old(blocks)@.len(),
        forall|b: int|
            0 <= b < old(blocks)@.len() ==> (#[trigger] final(blocks)@[b]).terminator == old(blocks)@[b].terminator
                && final(blocks)@[b].statements@ == live_statements(
                old(blocks)@[b].statements@,
                body_uses(old(blocks)@),
            ),
        changed == exists|b: int, i: int|
            0 <= b < old(blocks)@.len() && 0 <= i < old(blocks)@[b].statements@.len() && dead_store(
                #[trigger] old(blocks)@[b].statements@[i],
                body_uses(old(blocks)@),
            ),
{
    let reads = read_locals(blocks);
    let ghost rs = reads@;
    let ghost orig = blocks@;
    let mut rest: Vec<BasicBlock<Statement>> = Vec::new();
    std::mem::swap(&mut rest, blocks);
    let n = rest.len();
    let mut out: Vec<BasicBlock<Statement>> = Vec::new();
    let mut changed = false;
    let mut b: usize = 0;
    assert(orig.skip(0) =~= orig);
    while b < n
        invariant
            n == orig.len(),
            b <= n,
            rs == reads@,
            rs == body_uses(orig),
            rest@ == orig.skip(b as int),
            out@.len() == b,
            forall|c: int|
                0 <= c < b ==> (#[trigger] out@[c]).terminator == orig[c].terminator && out@[c].statements@
                    == live_statements(orig[c].statements@, rs),
            changed == exists|c: int, i: int|
                0 <= c < b && 0 <= i < orig[c].statements@.len() && dead_store(#[trigger] orig[c].statements@[i], rs),
        decreases n - b,
    {
        let block = rest.remove(0);
        assert(block == orig[b as int]);
        assert(rest@ =~= orig.skip(b + 1));
        let BasicBlock { statements, terminator } = block;
        let ghost ss = statements@;
        let mut pending = statements;
        let mut kept: Vec<Statement> = Vec::new();
        let mut any = false;
        let m = pending.len();
        let mut i: usize = 0;
        assert(ss.skip(0) =~= ss);
        assert(ss.take(0) =~= Seq::<Statement>::empty());
        while i < m
            invariant
                m == ss.len(),
                i <= m,
                rs == reads@,
                pending@ == ss.skip(i as int),
                kept@ == live_statements(ss.take(i as int), rs),
                any == exists|j: int| 0 <= j < i && dead_store(#[trigger] ss[j], rs),
            decreases m - i,
        {
            let s = pending.remove(0);
            assert(s == ss[i as int]);
            assert(pending@ =~= ss.skip(i + 1));
            assert(ss.take(i + 1).drop_last() =~= ss.take(i as int));
            assert(ss.take(i + 1).last() == ss[i as int]);
            let dead = match &s {
                Statement::Assign { place, rvalue } => place.projection.len() == 0 && !holds(&reads, place.local.0)
                    && !rvalue_can_trap(rvalue),
                _ => false,
            };
            assert(dead == dead_store(ss[i as int], rs));
            let ghost prev = any;
            if dead {
                any = true;
            } else {
                kept.push(s);
            }
            assert(kept@ =~= live_statements(ss.take(i + 1), rs));
            proof {
                if prev {
                    let j0 = choose|j: int| 0 <= j < i && dead_store(#[trigger] ss[j], rs);
                    assert(0 <= j0 < i + 1);
                }
            }
            i = i + 1;
        }
        assert(ss.take(i as int) =~= ss);
        let ghost prevc = changed;
        out.push(BasicBlock { statements: kept, terminator });
        if any {
            changed = true;
        }
        proof {
            if any {
                let j0 = choose|j: int| 0 <= j < m && dead_store(#[trigger] ss[j], rs);
                assert(dead_store(orig[b as int].statements@[j0], rs));
            }
            if prevc {
                let (c0, i0) = choose|c: int, i: int|
                    0 <= c < b && 0 <= i < orig[c].statements@.len() && dead_store(#[trigger] orig[c].statements@[i], rs);
                assert(0 <= c0 < b + 1);
            }
            if !changed {
                assert forall|c: int, j: int|
                    0 <= c < b + 1 && 0 <= j < orig[c].statements@.len() implies !dead_store(
                    #[trigger] orig[c].statements@[j],
                    rs,
                ) by {
                    if c == b {
                        assert(!dead_store(ss[j], rs));
                    }
                }
            }
        }
        b = b + 1;
    }
    *blocks = out;
    changed
}

// ---------------------------------------------------------------------------
// Renumbering locals.
// ---------------------------------------------------------------------------

/// A local renumbered through `f`: a local with a `Some` entry takes its new
/// index; any other is left as it is.
pub open spec fn ren(f: Seq<Option<u32>>, x: u32) -> u32 {
    if (x as int) < f.len() && f[x as int] is Some {
        f[x as int]->Some_0
    } else {
        x
    }
}

/// `q` is projection step `p` renumbered.
pub open spec fn proj_ren(p: Projection, q: Projection, f: Seq<Option<u32>>) -> bool {
    match p {
        Projection::Index(l) => q == Projection::Index(LocalId(ren(f, l.0))),
        _ => q == p,
    }
}

/// `q` is place `p` renumbered: its root and its index locals.
pub open spec fn place_ren(p: Place, q: Place, f: Seq<Option<u32>>) -> bool {
    &&& q.local.0 == ren(f, p.local.0)
    &&& q.projection@.len() == p.projection@.len()
    &&& forall|i: int| 0 <= i < p.projection@.len() ==> proj_ren(#[trigger] p.projection@[i], q.projection@[i], f)
}

/// `q` is operand `o` renumbered.
pub open spec fn operand_ren(o: Operand, q: Operand, f: Seq<Option<u32>>) -> bool {
    match (o, q) {
        (Operand::Copy(a), Operand::Copy(b)) => place_ren(a, b, f),
        (Operand::Move(a), Operand::Move(b)) => place_ren(a, b, f),
        (Operand::Const(c), Operand::Const(d)) => c == d,
        _ => false,
    }
}

/// `b` is the list of operands `a` renumbered.
pub open spec fn operands_ren(a: Seq<Operand>, b: Seq<Operand>, f: Seq<Option<u32>>) -> bool {
    &&& a.len() == b.len()
    &&& forall|i: int| 0 <= i < a.len() ==> operand_ren(#[trigger] a[i], b[i], f)
}

/// `q` is argument `a` renumbered.
pub open spec fn arg_ren(a: Arg, q: Arg, f: Seq<Option<u32>>) -> bool {
    match (a, q) {
        (Arg::Value(x), Arg::Value(y)) => operand_ren(x, y, f),
        (Arg::Borrow(x), Arg::Borrow(y)) => place_ren(x, y, f),
        (Arg::BorrowMut(x), Arg::BorrowMut(y)) => place_ren(x, y, f),
        _ => false,
    }
}

/// `b` is the list of arguments `a` renumbered.
pub open spec fn args_ren(a: Seq<Arg>, b: Seq<Arg>, f: Seq<Option<u32>>) -> bool {
    &&& a.len() == b.len()
    &&& forall|i: int| 0 <= i < a.len() ==> arg_ren(#[trigger] a[i], b[i], f)
}

/// `s` is rvalue `r` renumbered.
pub open spec fn rvalue_ren(r: Rvalue, s: Rvalue, f: Seq<Option<u32>>) -> bool {
    match (r, s) {
        (Rvalue::Use(a), Rvalue::Use(b)) => operand_ren(a, b, f),
        (Rvalue::Unary { op, operand }, Rvalue::Unary { op: op2, operand: o2 }) => op == op2 && operand_ren(operand, o2, f),
        (Rvalue::Binary { op, lhs, rhs }, Rvalue::Binary { op: op2, lhs: l2, rhs: r2 }) => op == op2 && operand_ren(
            lhs,
            l2,
            f,
        ) && operand_ren(rhs, r2, f),
        (Rvalue::Cast { kind, operand, to }, Rvalue::Cast { kind: k2, operand: o2, to: t2 }) => kind == k2 && to == t2
            && operand_ren(operand, o2, f),
        (Rvalue::Aggregate { kind, fields }, Rvalue::Aggregate { kind: k2, fields: f2 }) => kind == k2 && operands_ren(
            fields@,
            f2@,
            f,
        ),
        (Rvalue::Discriminant(a), Rvalue::Discriminant(b)) => place_ren(a, b, f),
        (Rvalue::Len(a), Rvalue::Len(b)) => place_ren(a, b, f),
        (Rvalue::StrOp { op, args }, Rvalue::StrOp { op: op2, args: a2 }) => op == op2 && operands_ren(args@, a2@, f),
        (Rvalue::HeapOp { op, subject, args }, Rvalue::HeapOp { op: op2, subject: s2, args: a2 }) => op == op2
            && match (subject, s2) {
            (None, None) => true,
            (Some(x), Some(y)) => place_ren(x, y, f),
            _ => false,
        } && operands_ren(args@, a2@, f),
        _ => false,
    }
}

/// `t` is statement `s` renumbered.
pub open spec fn statement_ren(s: Statement, t: Statement, f: Seq<Option<u32>>) -> bool {
    match (s, t) {
        (Statement::Assign { place, rvalue }, Statement::Assign { place: p2, rvalue: r2 }) => place_ren(place, p2, f)
            && rvalue_ren(rvalue, r2, f),
        (Statement::Call { dest, callee, args }, Statement::Call { dest: d2, callee: c2, args: a2 }) => place_ren(
            dest,
            d2,
            f,
        ) && match (callee, c2) {
            (Callee::Direct(x), Callee::Direct(y)) => x == y,
            (Callee::Indirect(x), Callee::Indirect(y)) => operand_ren(x, y, f),
            _ => false,
        } && args_ren(args@, a2@, f),
        (Statement::Effect { op, args, dest }, Statement::Effect { op: op2, args: a2, dest: d2 }) => op == op2
            && args_ren(args@, a2@, f) && place_ren(dest, d2, f),
        (
            Statement::HeapMutate { op, target, args, dest },
            Statement::HeapMutate { op: op2, target: t2, args: a2, dest: d2 },
        ) => op == op2 && place_ren(target, t2, f) && operands_ren(args@, a2@, f) && place_ren(dest, d2, f),
        (Statement::Drop { place }, Statement::Drop { place: p2 }) => place_ren(place, p2, f),
        _ => false,
    }
}

/// `u` is terminator `t` renumbered: its operand; targets are kept.
pub open spec fn terminator_ren(t: Terminator, u: Terminator, f: Seq<Option<u32>>) -> bool {
    match (t, u) {
        (Terminator::Return(a), Terminator::Return(b)) => operand_ren(a, b, f),
        (Terminator::Goto(a), Terminator::Goto(b)) => a == b,
        (
            Terminator::Branch { cond, then_block, else_block },
            Terminator::Branch { cond: c2, then_block: t2, else_block: e2 },
        ) => operand_ren(cond, c2, f) && then_block == t2 && else_block == e2,
        (Terminator::Switch { discr, arms, otherwise }, Terminator::Switch { discr: d2, arms: a2, otherwise: o2 }) => {
            operand_ren(discr, d2, f) && arms == a2 && otherwise == o2
        },
        (Terminator::Assert { cond, trap, target }, Terminator::Assert { cond: c2, trap: t2, target: g2 }) => {
            operand_ren(cond, c2, f) && trap == t2 && target == g2
        },
        (Terminator::Trap(a), Terminator::Trap(b)) => a == b,
        _ => false,
    }
}

fn renumber_place(p: &mut Place, remap: &[Option<u32>])
    ensures
        place_ren(*old(p), *final(p), remap@),
{
    let ghost before = p.projection@;
    remap_local(&mut p.local, remap);
    let mut i: usize = 0;
    while i < p.projection.len()
        invariant
            i <= p.projection@.len(),
            before == old(p).projection@,
            p.local.0 == ren(remap@, old(p).local.0),
            p.projection@.len() == before.len(),
            forall|j: int| 0 <= j < i ==> proj_ren(#[trigger] before[j], p.projection@[j], remap@),
            forall|j: int| i <= j < before.len() ==> #[trigger] p.projection@[j] == before[j],
        decreases p.projection.len() - i,
    {
        let step = p.projection[i];
        match step {
            Projection::Index(l) => {
                let mut nl = l;
                remap_local(&mut nl, remap);
                p.projection.set(i, Projection::Index(nl));
            },
            _ => {},
        }
        i = i + 1;
    }
}

fn renumber_operand(o: &mut Operand, remap: &[Option<u32>])
    ensures
        operand_ren(*old(o), *final(o), remap@),
{
    match o {
        Operand::Copy(p) => renumber_place(p, remap),
        Operand::Move(p) => renumber_place(p, remap),
        Operand::Const(_) => {},
    }
}

fn renumber_operands(v: &mut Vec<Operand>, remap: &[Option<u32>])
    ensures
        operands_ren(old(v)@, final(v)@, remap@),
{
    let ghost before = v@;
    let mut i: usize = 0;
    while i < v.len()
        invariant
            i <= v@.len(),
            v@.len() == before.len(),
            forall|j: int| 0 <= j < i ==> operand_ren(#[trigger] before[j], v@[j], remap@),
            forall|j: int| i <= j < before.len() ==> #[trigger] v@[j] == before[j],
        decreases v.len() - i,
    {
        let mut x = v.remove(i);
        renumber_operand(&mut x, remap);
        v.insert(i, x);
        i = i + 1;
    }
}

fn renumber_arg(a: &mut Arg, remap: &[Option<u32>])
    ensures
        arg_ren(*old(a), *final(a), remap@),
{
    match a {
        Arg::Value(o) => renumber_operand(o, remap),
        Arg::Borrow(p) => renumber_place(p, remap),
        Arg::BorrowMut(p) => renumber_place(p, remap),
    }
}

fn renumber_args(v: &mut Vec<Arg>, remap: &[Option<u32>])
    ensures
        args_ren(old(v)@, final(v)@, remap@),
{
    let ghost before = v@;
    let mut i: usize = 0;
    while i < v.len()
        invariant
            i <= v@.len(),
            v@.len() == before.len(),
            forall|j: int| 0 <= j < i ==> arg_ren(#[trigger] before[j], v@[j], remap@),
            forall|j: int| i <= j < before.len() ==> #[trigger] v@[j] == before[j],
        decreases v.len() - i,
    {
        let mut x = v.remove(i);
        renumber_arg(&mut x, remap);
        v.insert(i, x);
        i = i + 1;
    }
}

fn renumber_subject(s: &mut Option<Place>, remap: &[Option<u32>])
    ensures
        match (*old(s), *final(s)) {
            (None, None) => true,
            (Some(x), Some(y)) => place_ren(x, y, remap@),
            _ => false,
        },
{
    if s.is_some() {
        let mut p = s.take().unwrap();
        renumber_place(&mut p, remap);
        *s = Some(p);
    }
}

fn renumber_rvalue(r: &mut Rvalue, remap: &[Option<u32>])
    ensures
        rvalue_ren(*old(r), *final(r), remap@),
{
    match r {
        Rvalue::Use(o) => renumber_operand(o, remap),
        Rvalue::Unary { operand, .. } => renumber_operand(operand, remap),
        Rvalue::Binary { lhs: left, rhs: right, .. } => {
            renumber_operand(left, remap);
            renumber_operand(right, remap);
        },
        Rvalue::Cast { operand, .. } => renumber_operand(operand, remap),
        Rvalue::Aggregate { fields, .. } => renumber_operands(fields, remap),
        Rvalue::Discriminant(p) => renumber_place(p, remap),
        Rvalue::Len(p) => renumber_place(p, remap),
        Rvalue::StrOp { args, .. } => renumber_operands(args, remap),
        Rvalue::HeapOp { subject, args, .. } => {
            renumber_subject(subject, remap);
            renumber_operands(args, remap);
        },
    }
}

/// Renumber every local a statement mentions.
pub fn renumber_statement(s: &mut Statement, remap: &[Option<u32>])
    ensures
        statement_ren(*old(s), *final(s), remap@),
{
    match s {
        Statement::Assign { place, rvalue } => {
            renumber_place(place, remap);
            renumber_rvalue(rvalue, remap);
        },
        Statement::Call { dest, callee, args } => {
            renumber_place(dest, remap);
            match callee {
                Callee::Indirect(o) => renumber_operand(o, remap),
                Callee::Direct(_) => {},
            }
            renumber_args(args, remap);
        },
        Statement::Effect { args, dest, .. } => {
            renumber_args(args, remap);
            renumber_place(dest, remap);
        },
        Statement::HeapMutate { target, args, dest, .. } => {
            renumber_place(target, remap);
            renumber_operands(args, remap);
            renumber_place(dest, remap);
        },
        Statement::Drop { place } => renumber_place(place, remap),
    }
}

/// Renumber every local a terminator mentions.
pub fn renumber_terminator(t: &mut Terminator, remap: &[Option<u32>])
    ensures
        terminator_ren(*old(t), *final(t), remap@),
{
    match t {
        Terminator::Return(o) => renumber_operand(o, remap),
        Terminator::Branch { cond, .. } => renumber_operand(cond, remap),
        Terminator::Switch { discr, .. } => renumber_operand(discr, remap),
        Terminator::Assert { cond, .. } => renumber_operand(cond, remap),
        _ => {},
    }
}

// ---------------------------------------------------------------------------
// Dead local removal.
// ---------------------------------------------------------------------------

/// The whole locals a statement writes as its destination.
pub open spec fn statement_dests(s: Statement) -> Seq<u32> {
    match s {
        Statement::Assign { place, .. } => seq![place.local.0],
        Statement::Call { dest, .. } => seq![dest.local.0],
        Statement::Effect { dest, .. } => seq![dest.local.0],
        Statement::HeapMutate { dest, .. } => seq![dest.local.0],
        Statement::Drop { .. } => seq![],
    }
}

/// The destination locals of a list of statements.
pub open spec fn statements_dests(ss: Seq<Statement>) -> Seq<u32>
    decreases ss.len(),
{
    if ss.len() == 0 {
        seq![]
    } else {
        statements_dests(ss.drop_last()) + statement_dests(ss.last())
    }
}

/// The destination locals of a body, block by block.
pub open spec fn body_dests(bs: Seq<BasicBlock<Statement>>) -> Seq<u32>
    decreases bs.len(),
{
    if bs.len() == 0 {
        seq![]
    } else {
        body_dests(bs.drop_last()) + statements_dests(bs.last().statements@)
    }
}

/// Whether the body mentions local `x` anywhere: read, written, or as an
/// index.
pub open spec fn referenced(bs: Seq<BasicBlock<Statement>>, x: u32) -> bool {
    body_uses(bs).contains(x) || body_dests(bs).contains(x)
}

/// Which of `n` locals survive: the parameters and every referenced local.
pub open spec fn keep_flags(param_count: nat, n: nat, bs: Seq<BasicBlock<Statement>>) -> Seq<bool> {
    Seq::new(n, |x: int| x < param_count || referenced(bs, x as u32))
}

/// The renumbering of the survivors: each takes the number of survivors
/// before it; the others have no new index.
pub open spec fn renumbering(flags: Seq<bool>) -> Seq<Option<u32>> {
    Seq::new(
        flags.len(),
        |x: int|
            if flags[x] {
                Some(rank(flags, x) as u32)
            } else {
                None
            },
    )
}

/// Every destination local of the body, with repeats, block by block.
fn written_locals(blocks: &Vec<BasicBlock<Statement>>) -> (r: Vec<u32>)
    ensures
        r@ == body_dests(blocks@),
{
    let mut out: Vec<u32> = Vec::new();
    let mut b: usize = 0;
    assert(blocks@.take(0) =~= Seq::<BasicBlock<Statement>>::empty());
    while b < blocks.len()
        invariant
            b <= blocks@.len(),
            out@ == body_dests(blocks@.take(b as int)),
        decreases blocks.len() - b,
    {
        let ghost before = out@;
        let ss = &blocks[b].statements;
        let mut i: usize = 0;
        assert(ss@.take(0) =~= Seq::<Statement>::empty());
        assert(before + statements_dests(ss@.take(0)) =~= before);
        while i < ss.len()
            invariant
                i <= ss@.len(),
                out@ == before + statements_dests(ss@.take(i as int)),
            decreases ss.len() - i,
        {
            assert(ss@.take(i + 1).drop_last() =~= ss@.take(i as int));
            assert(ss@.take(i + 1).last() == ss@[i as int]);
            match &ss[i] {
                Statement::Assign { place, .. } => out.push(place.local.0),
                Statement::Call { dest, .. } => out.push(dest.local.0),
                Statement::Effect { dest, .. } => out.push(dest.local.0),
                Statement::HeapMutate { dest, .. } => out.push(dest.local.0),
                Statement::Drop { .. } => {},
            }
            assert(out@ =~= before + statements_dests(ss@.take(i + 1)));
            i = i + 1;
        }
        assert(ss@.take(i as int) =~= ss@);
        assert(blocks@.take(b + 1).drop_last() =~= blocks@.take(b as int));
        assert(blocks@.take(b + 1).last() == blocks@[b as int]);
        assert(out@ =~= body_dests(blocks@.take(b + 1)));
        b = b + 1;
    }
    assert(blocks@.take(b as int) =~= blocks@);
    out
}

/// Whether some of `n` locals does not survive.
pub open spec fn any_removed(param_count: nat, n: nat, bs: Seq<BasicBlock<Statement>>) -> bool {
    exists|x: int| 0 <= x < n && !#[trigger] keep_flags(param_count, n, bs)[x]
}

/// `(l2, b2)` is `(l1, b1)` with the locals that do not survive removed and
/// every local the body mentions renumbered; where all survive, nothing
/// changes.
pub open spec fn locals_removed<L>(
    param_count: nat,
    l1: Seq<L>,
    b1: Seq<BasicBlock<Statement>>,
    l2: Seq<L>,
    b2: Seq<BasicBlock<Statement>>,
) -> bool {
    let flags = keep_flags(param_count, l1.len(), b1);
    let f = renumbering(flags);
    if !any_removed(param_count, l1.len(), b1) {
        l2 == l1 && b2 == b1
    } else {
        &&& l2 == Seq::new(survivors(flags).len(), |k: int| l1[survivors(flags)[k]])
        &&& b2.len() == b1.len()
        &&& forall|b: int|
            0 <= b < b1.len() ==> terminator_ren(b1[b].terminator, (#[trigger] b2[b]).terminator, f)
                && b2[b].statements@.len() == b1[b].statements@.len()
        &&& forall|b: int, i: int|
            0 <= b < b1.len() && 0 <= i < b1[b].statements@.len() ==> statement_ren(
                b1[b].statements@[i],
                #[trigger] b2[b].statements@[i],
                f,
            )
    }
}

/// Delete every local that is not a parameter and that the body mentions
/// nowhere, keeping the others in their old order, and renumber every local
/// the body mentions accordingly; report whether any local was deleted (a
/// body whose locals all survive is left as it is).
pub fn remove_unreferenced_locals<L>(
    param_count: usize,
    locals: &mut Vec<L>,
    blocks: &mut Vec<BasicBlock<Statement>>,
) -> (changed: bool)
    requires
        old(locals)@.len() <= u32::MAX,
    ensures
        changed == any_removed(param_count as nat, old(locals)@.len(), old(blocks)@),
        locals_removed(param_count as nat, old(locals)@, old(blocks)@, final(locals)@, final(blocks)@),
{
    let ghost orig = blocks@;
    let ghost lorig = locals@;
    let ghost flags_s = keep_flags(param_count as nat, lorig.len(), orig);
    let uses = read_locals(blocks);
    let dests = written_locals(blocks);
    let n = locals.len();
    let mut flags: Vec<bool> = Vec::new();
    let mut all = true;
    let mut x: usize = 0;
    while x < n
        invariant
            n == lorig.len(),
            n <= u32::MAX,
            x <= n,
            uses@ == body_uses(orig),
            dests@ == body_dests(orig),
            flags_s == keep_flags(param_count as nat, lorig.len(), orig),
            flags@ == flags_s.take(x as int),
            all == forall|y: int| 0 <= y < x ==> #[trigger] flags_s[y],
        decreases n - x,
    {
        let keep = x < param_count || holds(&uses, x as u32) || holds(&dests, x as u32);
        assert(keep == flags_s[x as int]);
        flags.push(keep);
        if !keep {
            all = false;
        }
        assert(flags@ =~= flags_s.take(x + 1));
        x = x + 1;
    }
    assert(flags_s.take(n as int) =~= flags_s);
    if all {
        return false;
    }
    assert(any_removed(param_count as nat, lorig.len(), orig));
    assert(exists|y: int| 0 <= y < n && !#[trigger] flags_s[y]);
    let mut remap: Vec<Option<u32>> = Vec::new();
    let mut count: u32 = 0;
    let mut y: usize = 0;
    while y < n
        invariant
            n == lorig.len(),
            n <= u32::MAX,
            y <= n,
            flags@ == flags_s,
            flags_s.len() == n,
            count as nat == rank(flags_s, y as int),
            count as int <= y,
            remap@ == renumbering(flags_s).take(y as int),
        decreases n - y,
    {
        proof {
            lemma_rank_bounded(flags_s, y as int);
        }
        if flags[y] {
            remap.push(Some(count));
            count = count + 1;
        } else {
            remap.push(None);
        }
        assert(remap@ =~= renumbering(flags_s).take(y + 1));
        y = y + 1;
    }
    assert(renumbering(flags_s).take(n as int) =~= renumbering(flags_s));
    let ghost f = renumbering(flags_s);
    // Compact the locals.
    let mut old_locals: Vec<L> = Vec::new();
    std::mem::swap(&mut old_locals, locals);
    let mut kept: Vec<L> = Vec::new();
    let mut i: usize = 0;
    assert(lorig.skip(0) =~= lorig);
    assert(flags_s.take(0) =~= Seq::<bool>::empty());
    while i < n
        invariant
            n == lorig.len(),
            flags@ == flags_s,
            flags_s.len() == n,
            i <= n,
            old_locals@ == lorig.skip(i as int),
            kept@ == Seq::new(
                survivors(flags_s.take(i as int)).len(),
                |k: int| lorig[survivors(flags_s.take(i as int))[k]],
            ),
        decreases n - i,
    {
        let item = old_locals.remove(0);
        assert(item == lorig[i as int]);
        assert(old_locals@ =~= lorig.skip(i + 1));
        assert(flags_s.take(i + 1).drop_last() =~= flags_s.take(i as int));
        assert(flags_s.take(i + 1).last() == flags_s[i as int]);
        if flags[i] {
            kept.push(item);
        }
        assert(kept@ =~= Seq::new(
            survivors(flags_s.take(i + 1)).len(),
            |k: int| lorig[survivors(flags_s.take(i + 1))[k]],
        ));
        i = i + 1;
    }
    assert(flags_s.take(n as int) =~= flags_s);
    *locals = kept;
    // Renumber the body.
    let mut rest: Vec<BasicBlock<Statement>> = Vec::new();
    std::mem::swap(&mut rest, blocks);
    let nb = rest.len();
    let mut out: Vec<BasicBlock<Statement>> = Vec::new();
    let mut b: usize = 0;
    assert(orig.skip(0) =~= orig);
    while b < nb
        invariant
            nb == orig.len(),
            b <= nb,
            remap@ == f,
            rest@ == orig.skip(b as int),
            out@.len() == b,
            forall|c: int|
                0 <= c < b ==> terminator_ren(orig[c].terminator, (#[trigger] out@[c]).terminator, f)
                    && out@[c].statements@.len() == orig[c].statements@.len(),
            forall|c: int, j: int|
                0 <= c < b && 0 <= j < orig[c].statements@.len() ==> statement_ren(
                    orig[c].statements@[j],
                    #[trigger] out@[c].statements@[j],
                    f,
                ),
        decreases nb - b,
    {
        let block = rest.remove(0);
        assert(block == orig[b as int]);
        assert(rest@ =~= orig.skip(b + 1));
        let BasicBlock { statements, terminator } = block;
        let ghost ss = statements@;
        let mut pending = statements;
        let mut done: Vec<Statement> = Vec::new();
        let m = pending.len();
        let mut j: usize = 0;
        assert(ss.skip(0) =~= ss);
        while j < m
            invariant
                m == ss.len(),
                j <= m,
                remap@ == f,
                pending@ == ss.skip(j as int),
                done@.len() == j,
                forall|k: int| 0 <= k < j ==> statement_ren(ss[k], #[trigger] done@[k], f),
            decreases m - j,
        {
            let mut s = pending.remove(0);
            assert(s == ss[j as int]);
            assert(pending@ =~= ss.skip(j + 1));
            renumber_statement(&mut s, remap.as_slice());
            done.push(s);
            j = j + 1;
        }
        let mut term = terminator;
        renumber_terminator(&mut term, remap.as_slice());
        out.push(BasicBlock { statements: done, terminator: term });
        b = b + 1;
    }
    *blocks = out;
    true
}

/// `b2` is `b1` with its dead stores removed.
pub open spec fn stores_removed(b1: Seq<BasicBlock<Statement>>, b2: Seq<BasicBlock<Statement>>) -> bool {
    &&& b2.len() == b1.len()
    &&& forall|b: int|
        0 <= b < b1.len() ==> (#[trigger] b2[b]).terminator == b1[b].terminator && b2[b].statements@ == live_statements(
            b1[b].statements@,
            body_uses(b1),
        )
}

/// Whether a body has a dead store.
pub open spec fn has_dead_store(bs: Seq<BasicBlock<Statement>>) -> bool {
    exists|b: int, i: int|
        0 <= b < bs.len() && 0 <= i < bs[b].statements@.len() && dead_store(#[trigger] bs[b].statements@[i], body_uses(bs))
}

/// The dead-local-elimination pass: remove the dead stores, then the locals
/// that the remaining body mentions nowhere; report whether either step
/// changed anything.
pub fn dead_locals<L>(param_count: usize, locals: &mut Vec<L>, blocks: &mut Vec<BasicBlock<Statement>>) -> (changed: bool)
    requires
        old(locals)@.len() <= u32::MAX,
    ensures
        exists|mid: Seq<BasicBlock<Statement>>|
            stores_removed(old(blocks)@, mid) && locals_removed(
                param_count as nat,
                old(locals)@,
                mid,
                final(locals)@,
                final(blocks)@,
            ) && changed == (has_dead_store(old(blocks)@) || any_removed(param_count as nat, old(locals)@.len(), mid)),
{
    let first = remove_dead_stores(blocks);
    let ghost mid = blocks@;
    let second = remove_unreferenced_locals(param_count, locals, blocks);
    assert(stores_removed(old(blocks)@, mid));
    first || second
}

/// Ranks grow by one past each survivor.
proof fn lemma_rank_step(flags: Seq<bool>, x: int, y: int)
    requires
        0 <= x < y <= flags.len(),
        flags[x],
    ensures
        rank(flags, y) >= rank(flags, x) + 1,
    decreases y - x,
{
    if y > x + 1 {
        lemma_rank_step(flags, x, y - 1);
    }
}

/// Dead-local removal renumbers the survivors densely and in their old
/// order: two survivors keep their relative order, and each new index lies
/// below the number of survivors.
pub proof fn law_renumbering_is_dense_and_ordered(flags: Seq<bool>, x: int, y: int)
    requires
        flags.len() <= u32::MAX,
        0 <= x < y < flags.len(),
        flags[x],
        flags[y],
    ensures
        renumbering(flags)[x]->Some_0 < renumbering(flags)[y]->Some_0,
        (renumbering(flags)[y]->Some_0 as int) < survivors(flags).len(),
{
    lemma_rank_step(flags, x, y);
    lemma_rank_bounded(flags, y);
    lemma_rank_bounded(flags, x);
    lemma_survivors(flags);
}

// ---------------------------------------------------------------------------
// What counts as a read.
// ---------------------------------------------------------------------------

/// The operand a terminator reads, if any.
pub open spec fn terminator_operand(t: Terminator) -> Option<Operand> {
    match t {
        Terminator::Return(o) => Some(o),
        Terminator::Branch { cond, .. } => Some(cond),
        Terminator::Switch { discr, .. } => Some(discr),
        Terminator::Assert { cond, .. } => Some(cond),
        _ => None,
    }
}

/// The operands an rvalue reads.
pub open spec fn rvalue_operands(r: Rvalue) -> Seq<Operand> {
    match r {
        Rvalue::Use(o) => seq![o],
        Rvalue::Unary { operand, .. } => seq![operand],
        Rvalue::Binary { lhs, rhs, .. } => seq![lhs, rhs],
        Rvalue::Cast { operand, .. } => seq![operand],
        Rvalue::Aggregate { fields, .. } => fields@,
        Rvalue::StrOp { args, .. } => args@,
        Rvalue::HeapOp { args, .. } => args@,
        _ => seq![],
    }
}

/// The local an operand reads a place of.
pub open spec fn operand_root(o: Operand) -> Option<u32> {
    match o {
        Operand::Copy(p) => Some(p.local.0),
        Operand::Move(p) => Some(p.local.0),
        Operand::Const(_) => None,
    }
}

proof fn lemma_contains_left(a: Seq<u32>, b: Seq<u32>, x: u32)
    requires
        a.contains(x),
    ensures
        (a + b).contains(x),
{
    let i = a.index_of(x);
    assert((a + b)[i] == x);
}

proof fn lemma_contains_right(a: Seq<u32>, b: Seq<u32>, x: u32)
    requires
        b.contains(x),
    ensures
        (a + b).contains(x),
{
    let i = b.index_of(x);
    assert((a + b)[a.len() + i] == x);
}

proof fn lemma_operand_root_used(o: Operand, x: u32)
    requires
        operand_root(o) == Some(x),
    ensures
        operand_uses(o).contains(x),
{
    match o {
        Operand::Copy(p) => {
            assert(place_uses(p, false)[0] == x);
        },
        Operand::Move(p) => {
            assert(place_uses(p, false)[0] == x);
        },
        _ => {},
    }
}

proof fn lemma_operands_used(os: Seq<Operand>, j: int, x: u32)
    requires
        0 <= j < os.len(),
        operand_uses(os[j]).contains(x),
    ensures
        operands_uses(os).contains(x),
    decreases os.len(),
{
    if j == os.len() - 1 {
        lemma_contains_right(operands_uses(os.drop_last()), operand_uses(os.last()), x);
    } else {
        assert(os.drop_last()[j] == os[j]);
        lemma_operands_used(os.drop_last(), j, x);
        lemma_contains_left(operands_uses(os.drop_last()), operand_uses(os.last()), x);
    }
}

proof fn lemma_args_used(args: Seq<Arg>, j: int, x: u32)
    requires
        0 <= j < args.len(),
        arg_uses(args[j]).contains(x),
    ensures
        args_uses(args).contains(x),
    decreases args.len(),
{
    if j == args.len() - 1 {
        lemma_contains_right(args_uses(args.drop_last()), arg_uses(args.last()), x);
    } else {
        assert(args.drop_last()[j] == args[j]);
        lemma_args_used(args.drop_last(), j, x);
        lemma_contains_left(args_uses(args.drop_last()), arg_uses(args.last()), x);
    }
}

proof fn lemma_statements_used(ss: Seq<Statement>, j: int, x: u32)
    requires
        0 <= j < ss.len(),
        statement_uses(ss[j]).contains(x),
    ensures
        statements_uses(ss).contains(x),
    decreases ss.len(),
{
    if j == ss.len() - 1 {
        lemma_contains_right(statements_uses(ss.drop_last()), statement_uses(ss.last()), x);
    } else {
        assert(ss.drop_last()[j] == ss[j]);
        lemma_statements_used(ss.drop_last(), j, x);
        lemma_contains_left(statements_uses(ss.drop_last()), statement_uses(ss.last()), x);
    }
}

proof fn lemma_block_used(bs: Seq<BasicBlock<Statement>>, k: int, x: u32)
    requires
        0 <= k < bs.len(),
        statements_uses(bs[k].statements@).contains(x) || terminator_uses(bs[k].terminator).contains(x),
    ensures
        body_uses(bs).contains(x),
    decreases bs.len(),
{
    let init = body_uses(bs.drop_last());
    let st = statements_uses(bs.last().statements@);
    let tm = terminator_uses(bs.last().terminator);
    if k == bs.len() - 1 {
        if st.contains(x) {
            lemma_contains_right(init, st, x);
            lemma_contains_left(init + st, tm, x);
        } else {
            lemma_contains_right(init + st, tm, x);
        }
    } else {
        assert(bs.drop_last()[k] == bs[k]);
        lemma_block_used(bs.drop_last(), k, x);
        lemma_contains_left(init, st, x);
        lemma_contains_left(init + st, tm, x);
    }
}

/// Every local a terminator reads through its operand (a return value, a
/// branch or assertion condition, a switch discriminant) belongs to the
/// body's read set; so no store to it is ever removed as dead.
pub proof fn law_terminator_reads_are_reads(bs: Seq<BasicBlock<Statement>>, k: int, x: u32)
    requires
        0 <= k < bs.len(),
        terminator_operand(bs[k].terminator) matches Some(o) && operand_root(o) == Some(x),
    ensures
        body_uses(bs).contains(x),
        forall|c: int, i: int|
            0 <= c < bs.len() && 0 <= i < bs[c].statements@.len() && ((#[trigger] bs[c].statements@[i]) matches Statement::Assign {
                place,
                ..
            } && place.local.0 == x) ==> !dead_store(bs[c].statements@[i], body_uses(bs)),
{
    let o = terminator_operand(bs[k].terminator)->Some_0;
    lemma_operand_root_used(o, x);
    assert(terminator_uses(bs[k].terminator) == operand_uses(o));
    lemma_block_used(bs, k, x);
}

/// Every local an assignment's rvalue reads through an operand, and every
/// local a call or effect reads through a by-value argument, belongs to the
/// body's read set.
pub proof fn law_operand_reads_are_reads(bs: Seq<BasicBlock<Statement>>, k: int, i: int, j: int, x: u32)
    requires
        0 <= k < bs.len(),
        0 <= i < bs[k].statements@.len(),
        match bs[k].statements@[i] {
            Statement::Assign { rvalue, .. } => 0 <= j < rvalue_operands(rvalue).len() && operand_root(
                rvalue_operands(rvalue)[j],
            ) == Some(x),
            Statement::Call { args, .. } => 0 <= j < args@.len() && (args@[j] matches Arg::Value(o) && operand_root(o)
                == Some(x)),
            Statement::Effect { args, .. } => 0 <= j < args@.len() && (args@[j] matches Arg::Value(o) && operand_root(o)
                == Some(x)),
            _ => false,
        },
    ensures
        body_uses(bs).contains(x),
{
    let s = bs[k].statements@[i];
    match s {
        Statement::Assign { place, rvalue } => {
            let o = rvalue_operands(rvalue)[j];
            lemma_operand_root_used(o, x);
            assert(rvalue_uses(rvalue).contains(x)) by {
                match rvalue {
                    Rvalue::Binary { lhs, rhs, .. } => {
                        if j == 0 {
                            lemma_contains_left(operand_uses(lhs), operand_uses(rhs), x);
                        } else {
                            lemma_contains_right(operand_uses(lhs), operand_uses(rhs), x);
                        }
                    },
                    Rvalue::Aggregate { fields, .. } => lemma_operands_used(fields@, j, x),
                    Rvalue::StrOp { args, .. } => lemma_operands_used(args@, j, x),
                    Rvalue::HeapOp { subject, args, .. } => {
                        lemma_operands_used(args@, j, x);
                        lemma_contains_right(
                            match subject {
                                Some(p) => place_uses(p, false),
                                None => seq![],
                            },
                            operands_uses(args@),
                            x,
                        );
                    },
                    _ => {},
                }
            }
            lemma_contains_right(place_uses(place, true), rvalue_uses(rvalue), x);
        },
        Statement::Call { dest, callee, args } => {
            let o = args@[j]->Value_0;
            lemma_operand_root_used(o, x);
            lemma_args_used(args@, j, x);
            lemma_contains_right(
                place_uses(dest, true) + (match callee {
                    Callee::Indirect(o) => operand_uses(o),
                    Callee::Direct(_) => seq![],
                }),
                args_uses(args@),
                x,
            );
        },
        Statement::Effect { args, dest, .. } => {
            let o = args@[j]->Value_0;
            lemma_operand_root_used(o, x);
            lemma_args_used(args@, j, x);
            lemma_contains_right(place_uses(dest, true), args_uses(args@), x);
        },
        _ => {},
    }
    lemma_statements_used(bs[k].statements@, i, x);
    lemma_block_used(bs, k, x);
}

/// Only assignments can be dead stores: calls, effects, heap mutations and
/// drops are always kept, and so is an assignment whose rvalue can trap:
/// integer arithmetic that can overflow, division and remainder, shifts,
/// negation, and string and heap operations.
pub proof fn law_effects_and_traps_are_kept(s: Statement, reads: Seq<u32>)
    ensures
        !(s is Assign) ==> !dead_store(s, reads),
        (s matches Statement::Assign { rvalue, .. } && (rvalue matches Rvalue::Binary { op, .. } && (op is Add || op is Sub
            || op is Mul || op is Div || op is Rem || op is Shl || op is Shr))) ==> !dead_store(s, reads),
        (s matches Statement::Assign { rvalue, .. } && (rvalue matches Rvalue::Unary { op, .. } && op is Neg)) ==> !dead_store(
            s,
            reads,
        ),
        (s matches Statement::Assign { rvalue, .. } && (rvalue is StrOp || rvalue is HeapOp)) ==> !dead_store(s, reads),
        (s matches Statement::Assign { place, .. } && reads.contains(place.local.0)) ==> !dead_store(s, reads),
{
}

/// Parameters always survive dead-local removal, and so does every local
/// the body writes as a destination or reads.
pub proof fn law_parameters_and_mentioned_locals_survive(
    param_count: nat,
    n: nat,
    bs: Seq<BasicBlock<Statement>>,
    x: int,
)
    requires
        0 <= x < n,
        x <= u32::MAX,
    ensures
        x < param_count ==> keep_flags(param_count, n, bs)[x],
        body_uses(bs).contains(x as u32) ==> keep_flags(param_count, n, bs)[x],
        body_dests(bs).contains(x as u32) ==> keep_flags(param_count, n, bs)[x],
{
}

} // verus!
