//! Copy propagation within a block.
//!
//! After `_x = copy _y` or `_x = const c` (a use of a whole local or of a
//! constant), a later read of the whole local `_x` in the same block reads
//! the source instead: the value is the same. The fact is dropped as soon as
//! anything could make it stale: a write to `_x` or to `_y`, a borrow of
//! either (a borrowed place may be read or changed through the borrow), a
//! drop of either, and the end of the block. Only reads are rewritten;
//! destinations, borrowed places, drops and subject places are not.

use vstd::prelude::*;
use crate::mir::{Arg, BasicBlock, Const, LocalId, Operand, Place, Rvalue, Statement, Terminator};
use crate::opt::const_fold::{copy_const, ConstModel};

verus! {

/// What a tracked local is a copy of: another whole local, or a constant.
#[derive(Debug)]
pub enum Source {
    /// A whole local.
    Local(u32),
    /// A constant.
    Konst(Const),
}

/// The content of a copy source.
pub enum SourceM {
    Local(u32),
    Konst(ConstModel),
}

impl Source {
    /// The content of this source.
    pub open spec fn m(&self) -> SourceM {
        match self {
            Source::Local(l) => SourceM::Local(*l),
            Source::Konst(c) => SourceM::Konst(c.model()),
        }
    }
}

/// The facts of a table: each tracked local with what it copies.
pub open spec fn facts_m(v: Seq<(u32, Source)>) -> Seq<(u32, SourceM)> {
    Seq::new(v.len(), |i: int| (v[i].0, v[i].1.m()))
}

/// The local a source reads, if any.
pub open spec fn source_local(s: SourceM) -> Option<u32> {
    match s {
        SourceM::Local(l) => Some(l),
        SourceM::Konst(_) => None,
    }
}

/// The first fact about local `x`.
pub open spec fn fact_of(facts: Seq<(u32, SourceM)>, x: u32) -> Option<SourceM>
    decreases facts.len(),
{
    if facts.len() == 0 {
        None
    } else if facts[0].0 == x {
        Some(facts[0].1)
    } else {
        fact_of(facts.drop_first(), x)
    }
}

/// The facts that neither are about `l` nor read `l`.
pub open spec fn drop_touching(facts: Seq<(u32, SourceM)>, l: u32) -> Seq<(u32, SourceM)>
    decreases facts.len(),
{
    if facts.len() == 0 {
        seq![]
    } else {
        drop_touching(facts.drop_last(), l) + if facts.last().0 == l || source_local(facts.last().1) == Some(l) {
            seq![]
        } else {
            seq![facts.last()]
        }
    }
}

/// The facts left after dropping those touching each of `ls`, in order.
pub open spec fn drop_all(facts: Seq<(u32, SourceM)>, ls: Seq<u32>) -> Seq<(u32, SourceM)>
    decreases ls.len(),
{
    if ls.len() == 0 {
        facts
    } else {
        drop_touching(drop_all(facts, ls.drop_last()), ls.last())
    }
}

/// The roots of the places an argument list borrows.
pub open spec fn borrowed(args: Seq<Arg>) -> Seq<u32>
    decreases args.len(),
{
    if args.len() == 0 {
        seq![]
    } else {
        borrowed(args.drop_last()) + match args.last() {
            Arg::Borrow(p) => seq![p.local.0],
            Arg::BorrowMut(p) => seq![p.local.0],
            Arg::Value(_) => seq![],
        }
    }
}

/// The locals whose facts a statement makes stale: what it writes, borrows
/// or drops.
pub open spec fn touched(s: Statement) -> Seq<u32> {
    match s {
        Statement::Assign { place, .. } => seq![place.local.0],
        Statement::Call { dest, args, .. } => seq![dest.local.0] + borrowed(args@),
        Statement::Effect { args, dest, .. } => seq![dest.local.0] + borrowed(args@),
        Statement::HeapMutate { target, dest, .. } => seq![target.local.0, dest.local.0],
        Statement::Drop { place } => seq![place.local.0],
    }
}

/// The source an operand is worth tracking as: a constant, or a copy of a
/// whole local.
pub open spec fn source_of(o: Operand) -> Option<SourceM> {
    match o {
        Operand::Const(c) => Some(SourceM::Konst(c.model())),
        Operand::Copy(p) => if p.projection@.len() == 0 {
            Some(SourceM::Local(p.local.0))
        } else {
            None
        },
        Operand::Move(_) => None,
    }
}

/// The fact a statement establishes: `_x = copy _y` (with `_y` not `_x`) or
/// `_x = const c`.
pub open spec fn new_fact(s: Statement) -> Option<(u32, SourceM)> {
    match s {
        Statement::Assign { place, rvalue: Rvalue::Use(o) } => if place.projection@.len() == 0 {
            match source_of(o) {
                Some(f) => if source_local(f) != Some(place.local.0) {
                    Some((place.local.0, f))
                } else {
                    None
                },
                None => None,
            }
        } else {
            None
        },
        _ => None,
    }
}

/// The facts after a statement.
pub open spec fn update(facts: Seq<(u32, SourceM)>, s: Statement) -> Seq<(u32, SourceM)> {
    let kept = drop_all(facts, touched(s));
    match new_fact(s) {
        Some(e) => kept.push(e),
        None => kept,
    }
}

/// The facts before statement `k` of a block.
pub open spec fn facts_before(ss: Seq<Statement>, k: int) -> Seq<(u32, SourceM)>
    decreases k,
{
    if k <= 0 {
        seq![]
    } else {
        update(facts_before(ss, k - 1), ss[k - 1])
    }
}

// ---------------------------------------------------------------------------
// What the rewrite does.
// ---------------------------------------------------------------------------

/// The fact that applies to an operand: it reads a whole tracked local.
pub open spec fn hit(o: Operand, facts: Seq<(u32, SourceM)>) -> Option<SourceM> {
    match o {
        Operand::Copy(p) => if p.projection@.len() == 0 {
            fact_of(facts, p.local.0)
        } else {
            None
        },
        Operand::Move(p) => if p.projection@.len() == 0 {
            fact_of(facts, p.local.0)
        } else {
            None
        },
        Operand::Const(_) => None,
    }
}

/// `q` reads source `f`.
pub open spec fn reads_source(q: Operand, f: SourceM) -> bool {
    match f {
        SourceM::Local(y) => q matches Operand::Copy(p) && p.local.0 == y && p.projection@.len() == 0,
        SourceM::Konst(cm) => q matches Operand::Const(c) && c.model() == cm,
    }
}

/// `q` is `o` with a tracked copy forwarded.
pub open spec fn operand_fwd(o: Operand, q: Operand, facts: Seq<(u32, SourceM)>) -> bool {
    match hit(o, facts) {
        Some(f) => reads_source(q, f),
        None => q == o,
    }
}

/// `b` is the operand list `a` with tracked copies forwarded.
pub open spec fn operands_fwd(a: Seq<Operand>, b: Seq<Operand>, facts: Seq<(u32, SourceM)>) -> bool {
    &&& a.len() == b.len()
    &&& forall|i: int| 0 <= i < a.len() ==> operand_fwd(#[trigger] a[i], b[i], facts)
}

/// Whether some operand of a list reads a tracked local.
pub open spec fn operands_hit(a: Seq<Operand>, facts: Seq<(u32, SourceM)>) -> bool {
    exists|i: int| 0 <= i < a.len() && hit(#[trigger] a[i], facts) is Some
}

/// `b` is the argument list `a` with tracked copies forwarded into its
/// value arguments; borrows are kept.
pub open spec fn args_fwd(a: Seq<Arg>, b: Seq<Arg>, facts: Seq<(u32, SourceM)>) -> bool {
    &&& a.len() == b.len()
    &&& forall|i: int|
        0 <= i < a.len() ==> match #[trigger] a[i] {
            Arg::Value(o) => b[i] matches Arg::Value(q) && operand_fwd(o, q, facts),
            _ => b[i] == a[i],
        }
}

/// Whether some value argument reads a tracked local.
pub open spec fn args_hit(a: Seq<Arg>, facts: Seq<(u32, SourceM)>) -> bool {
    exists|i: int| 0 <= i < a.len() && (#[trigger] a[i] matches Arg::Value(o) && hit(o, facts) is Some)
}

/// `s` is `r` with tracked copies forwarded into its operands.
pub open spec fn rvalue_fwd(r: Rvalue, s: Rvalue, facts: Seq<(u32, SourceM)>) -> bool {
    match (r, s) {
        (Rvalue::Use(a), Rvalue::Use(b)) => operand_fwd(a, b, facts),
        (Rvalue::Unary { op, operand }, Rvalue::Unary { op: op2, operand: o2 }) => op == op2 && operand_fwd(operand, o2, facts),
        (Rvalue::Binary { op, lhs, rhs }, Rvalue::Binary { op: op2, lhs: l2, rhs: r2 }) => op == op2 && operand_fwd(
            lhs,
            l2,
            facts,
        ) && operand_fwd(rhs, r2, facts),
        (Rvalue::Cast { kind, operand, to }, Rvalue::Cast { kind: k2, operand: o2, to: t2 }) => kind == k2 && to == t2
            && operand_fwd(operand, o2, facts),
        (Rvalue::Aggregate { kind, fields }, Rvalue::Aggregate { kind: k2, fields: f2 }) => kind == k2 && operands_fwd(
            fields@,
            f2@,
            facts,
        ),
        (Rvalue::Discriminant(a), Rvalue::Discriminant(b)) => a == b,
        (Rvalue::Len(a), Rvalue::Len(b)) => a == b,
        (Rvalue::StrOp { op, args }, Rvalue::StrOp { op: op2, args: a2 }) => op == op2 && operands_fwd(args@, a2@, facts),
        (Rvalue::HeapOp { op, subject, args }, Rvalue::HeapOp { op: op2, subject: s2, args: a2 }) => op == op2
            && subject == s2 && operands_fwd(args@, a2@, facts),
        _ => false,
    }
}

/// Whether an rvalue reads a tracked local through an operand.
pub open spec fn rvalue_hit(r: Rvalue, facts: Seq<(u32, SourceM)>) -> bool {
    match r {
        Rvalue::Use(a) => hit(a, facts) is Some,
        Rvalue::Unary { operand, .. } => hit(operand, facts) is Some,
        Rvalue::Binary { lhs, rhs, .. } => hit(lhs, facts) is Some || hit(rhs, facts) is Some,
        Rvalue::Cast { operand, .. } => hit(operand, facts) is Some,
        Rvalue::Aggregate { fields, .. } => operands_hit(fields@, facts),
        Rvalue::StrOp { args, .. } => operands_hit(args@, facts),
        Rvalue::HeapOp { args, .. } => operands_hit(args@, facts),
        _ => false,
    }
}

/// `t` is `s` with tracked copies forwarded into the operands it reads.
pub open spec fn statement_fwd(s: Statement, t: Statement, facts: Seq<(u32, SourceM)>) -> bool {
    match (s, t) {
        (Statement::Assign { place, rvalue }, Statement::Assign { place: p2, rvalue: r2 }) => place == p2 && rvalue_fwd(
            rvalue,
            r2,
            facts,
        ),
        (Statement::Call { dest, callee, args }, Statement::Call { dest: d2, callee: c2, args: a2 }) => dest == d2
            && callee == c2 && args_fwd(args@, a2@, facts),
        (Statement::Effect { op, args, dest }, Statement::Effect { op: op2, args: a2, dest: d2 }) => op == op2
            && dest == d2 && args_fwd(args@, a2@, facts),
        (
            Statement::HeapMutate { op, target, args, dest },
            Statement::HeapMutate { op: op2, target: t2, args: a2, dest: d2 },
        ) => op == op2 && target == t2 && dest == d2 && operands_fwd(args@, a2@, facts),
        (Statement::Drop { .. }, _) => t == s,
        _ => false,
    }
}

/// Whether a statement reads a tracked local through an operand.
pub open spec fn statement_hit(s: Statement, facts: Seq<(u32, SourceM)>) -> bool {
    match s {
        Statement::Assign { rvalue, .. } => rvalue_hit(rvalue, facts),
        Statement::Call { args, .. } => args_hit(args@, facts),
        Statement::Effect { args, .. } => args_hit(args@, facts),
        Statement::HeapMutate { args, .. } => operands_hit(args@, facts),
        Statement::Drop { .. } => false,
    }
}

/// `u` is `t` with tracked copies forwarded into its operand.
pub open spec fn terminator_fwd(t: Terminator, u: Terminator, facts: Seq<(u32, SourceM)>) -> bool {
    match (t, u) {
        (Terminator::Return(a), Terminator::Return(b)) => operand_fwd(a, b, facts),
        (
            Terminator::Branch { cond, then_block, else_block },
            Terminator::Branch { cond: c2, then_block: t2, else_block: e2 },
        ) => operand_fwd(cond, c2, facts) && then_block == t2 && else_block == e2,
        (Terminator::Switch { discr, arms, otherwise }, Terminator::Switch { discr: d2, arms: a2, otherwise: o2 }) => {
            operand_fwd(discr, d2, facts) && arms == a2 && otherwise == o2
        },
        (Terminator::Assert { cond, trap, target }, Terminator::Assert { cond: c2, trap: t2, target: g2 }) => {
            operand_fwd(cond, c2, facts) && trap == t2 && target == g2
        },
        (Terminator::Goto(_), _) => u == t,
        (Terminator::Trap(_), _) => u == t,
        _ => false,
    }
}

/// Whether a terminator reads a tracked local through its operand.
pub open spec fn terminator_hit(t: Terminator, facts: Seq<(u32, SourceM)>) -> bool {
    match t {
        Terminator::Return(a) => hit(a, facts) is Some,
        Terminator::Branch { cond, .. } => hit(cond, facts) is Some,
        Terminator::Switch { discr, .. } => hit(discr, facts) is Some,
        Terminator::Assert { cond, .. } => hit(cond, facts) is Some,
        _ => false,
    }
}

// ---------------------------------------------------------------------------
// The pass.
// ---------------------------------------------------------------------------

/// The position of the first fact about `x`.
fn find_fact(table: &Vec<(u32, Source)>, x: u32) -> (r: Option<usize>)
    ensures
        match r {
            Some(i) => i < table@.len() && fact_of(facts_m(table@), x) == Some(table@[i as int].1.m()),
            None => fact_of(facts_m(table@), x) is None,
        },
{
    let ghost fs = facts_m(table@);
    let mut k: usize = 0;
    assert(fs.skip(0) =~= fs);
    while k < table.len()
        invariant
            k <= table@.len(),
            fs == facts_m(table@),
            fact_of(fs, x) == fact_of(fs.skip(k as int), x),
        decreases table.len() - k,
    {
        assert(fs.skip(k as int)[0] == fs[k as int]);
        if table[k].0 == x {
            return Some(k);
        }
        assert(fs.skip(k as int).drop_first() =~= fs.skip(k + 1));
        k = k + 1;
    }
    None
}

/// An operand that reads source `f`.
fn source_operand(f: &Source) -> (q: Operand)
    ensures
        reads_source(q, f.m()),
{
    match f {
        Source::Local(y) => Operand::Copy(Place::local(LocalId(*y))),
        Source::Konst(c) => Operand::Const(copy_const(c)),
    }
}

/// Forward a tracked copy into one operand; report whether it did.
fn fwd_operand(o: &mut Operand, table: &Vec<(u32, Source)>) -> (r: bool)
    ensures
        operand_fwd(*old(o), *final(o), facts_m(table@)),
        r == (hit(*old(o), facts_m(table@)) is Some),
{
    let local: Option<u32> = match &*o {
        Operand::Copy(p) => if p.projection.len() == 0 {
            Some(p.local.0)
        } else {
            None
        },
        Operand::Move(p) => if p.projection.len() == 0 {
            Some(p.local.0)
        } else {
            None
        },
        Operand::Const(_) => None,
    };
    match local {
        Some(x) => match find_fact(table, x) {
            Some(i) => {
                *o = source_operand(&table[i].1);
                true
            },
            None => false,
        },
        None => false,
    }
}

fn fwd_operands(v: &mut Vec<Operand>, table: &Vec<(u32, Source)>) -> (r: bool)
    ensures
        operands_fwd(old(v)@, final(v)@, facts_m(table@)),
        r == operands_hit(old(v)@, facts_m(table@)),
{
    let ghost before = v@;
    let ghost fs = facts_m(table@);
    let mut any = false;
    let mut i: usize = 0;
    while i < v.len()
        invariant
            i <= v@.len(),
            v@.len() == before.len(),
            fs == facts_m(table@),
            forall|j: int| 0 <= j < i ==> operand_fwd(#[trigger] before[j], v@[j], fs),
            forall|j: int| i <= j < before.len() ==> #[trigger] v@[j] == before[j],
            any == exists|j: int| 0 <= j < i && hit(#[trigger] before[j], fs) is Some,
        decreases v.len() - i,
    {
        let mut x = v.remove(i);
        let h = fwd_operand(&mut x, table);
        v.insert(i, x);
        let ghost prev = any;
        if h {
            any = true;
        }
        proof {
            if prev {
                let j0 = choose|j: int| 0 <= j < i && hit(#[trigger] before[j], fs) is Some;
                assert(0 <= j0 < i + 1);
            }
            if !any {
                assert forall|j: int| 0 <= j < i + 1 implies !(hit(#[trigger] before[j], fs) is Some) by {}
            }
        }
        i = i + 1;
    }
    any
}

fn fwd_arg(a: &mut Arg, table: &Vec<(u32, Source)>) -> (r: bool)
    ensures
        match *old(a) {
            Arg::Value(o) => *final(a) matches Arg::Value(q) && operand_fwd(o, q, facts_m(table@)),
            _ => *final(a) == *old(a),
        },
        r == (*old(a) matches Arg::Value(o) && hit(o, facts_m(table@)) is Some),
{
    match a {
        Arg::Value(o) => fwd_operand(o, table),
        _ => false,
    }
}

fn fwd_args(v: &mut Vec<Arg>, table: &Vec<(u32, Source)>) -> (r: bool)
    ensures
        args_fwd(old(v)@, final(v)@, facts_m(table@)),
        r == args_hit(old(v)@, facts_m(table@)),
{
    let ghost before = v@;
    let ghost fs = facts_m(table@);
    let mut any = false;
    let mut i: usize = 0;
    while i < v.len()
        invariant
            i <= v@.len(),
            v@.len() == before.len(),
            fs == facts_m(table@),
            forall|j: int|
                0 <= j < i ==> match #[trigger] before[j] {
                    Arg::Value(o) => v@[j] matches Arg::Value(q) && operand_fwd(o, q, fs),
                    _ => v@[j] == before[j],
                },
            forall|j: int| i <= j < before.len() ==> #[trigger] v@[j] == before[j],
            any == exists|j: int| 0 <= j < i && (#[trigger] before[j] matches Arg::Value(o) && hit(o, fs) is Some),
        decreases v.len() - i,
    {
        let mut x = v.remove(i);
        let h = fwd_arg(&mut x, table);
        v.insert(i, x);
        let ghost prev = any;
        if h {
            any = true;
        }
        proof {
            if prev {
                let j0 = choose|j: int| 0 <= j < i && (#[trigger] before[j] matches Arg::Value(o) && hit(o, fs) is Some);
                assert(0 <= j0 < i + 1);
            }
            if !any {
                assert forall|j: int| 0 <= j < i + 1 implies !(#[trigger] before[j] matches Arg::Value(o) && hit(
                    o,
                    fs,
                ) is Some) by {}
            }
        }
        i = i + 1;
    }
    any
}

fn fwd_rvalue(r: &mut Rvalue, table: &Vec<(u32, Source)>) -> (h: bool)
    ensures
        rvalue_fwd(*old(r), *final(r), facts_m(table@)),
        h == rvalue_hit(*old(r), facts_m(table@)),
{
    match r {
        Rvalue::Use(o) => fwd_operand(o, table),
        Rvalue::Unary { operand, .. } => fwd_operand(operand, table),
        Rvalue::Binary { lhs: left, rhs: right, .. } => {
            let a = fwd_operand(left, table);
            let b = fwd_operand(right, table);
            a || b
        },
        Rvalue::Cast { operand, .. } => fwd_operand(operand, table),
        Rvalue::Aggregate { fields, .. } => fwd_operands(fields, table),
        Rvalue::StrOp { args, .. } => fwd_operands(args, table),
        Rvalue::HeapOp { args, .. } => fwd_operands(args, table),
        _ => false,
    }
}

fn fwd_statement(s: &mut Statement, table: &Vec<(u32, Source)>) -> (h: bool)
    ensures
        statement_fwd(*old(s), *final(s), facts_m(table@)),
        h == statement_hit(*old(s), facts_m(table@)),
{
    match s {
        Statement::Assign { rvalue, .. } => fwd_rvalue(rvalue, table),
        Statement::Call { args, .. } => fwd_args(args, table),
        Statement::Effect { args, .. } => fwd_args(args, table),
        Statement::HeapMutate { args, .. } => fwd_operands(args, table),
        Statement::Drop { .. } => false,
    }
}

fn fwd_terminator(t: &mut Terminator, table: &Vec<(u32, Source)>) -> (h: bool)
    ensures
        terminator_fwd(*old(t), *final(t), facts_m(table@)),
        h == terminator_hit(*old(t), facts_m(table@)),
{
    match t {
        Terminator::Return(o) => fwd_operand(o, table),
        Terminator::Branch { cond, .. } => fwd_operand(cond, table),
        Terminator::Switch { discr, .. } => fwd_operand(discr, table),
        Terminator::Assert { cond, .. } => fwd_operand(cond, table),
        _ => false,
    }
}

/// Drop every fact about `l` or reading `l`.
fn drop_facts_touching(table: &mut Vec<(u32, Source)>, l: u32)
    ensures
        facts_m(final(table)@) == drop_touching(facts_m(old(table)@), l),
{
    let ghost fs = facts_m(table@);
    let ghost orig = table@;
    let mut rest: Vec<(u32, Source)> = Vec::new();
    std::mem::swap(&mut rest, table);
    let n = rest.len();
    let mut kept: Vec<(u32, Source)> = Vec::new();
    let mut i: usize = 0;
    assert(orig.skip(0) =~= orig);
    assert(fs.take(0) =~= Seq::<(u32, SourceM)>::empty());
    while i < n
        invariant
            n == orig.len(),
            fs == facts_m(orig),
            i <= n,
            rest@ == orig.skip(i as int),
            facts_m(kept@) == drop_touching(fs.take(i as int), l),
        decreases n - i,
    {
        let e = rest.remove(0);
        assert(e == orig[i as int]);
        assert(rest@ =~= orig.skip(i + 1));
        assert(fs.take(i + 1).drop_last() =~= fs.take(i as int));
        assert(fs.take(i + 1).last() == fs[i as int]);
        let reads_l = match &e.1 {
            Source::Local(y) => *y == l,
            Source::Konst(_) => false,
        };
        if e.0 == l || reads_l {
            assert(facts_m(kept@) =~= drop_touching(fs.take(i + 1), l));
        } else {
            let ghost k0 = kept@;
            kept.push(e);
            assert(facts_m(kept@) =~= facts_m(k0).push(fs[i as int]));
            assert(facts_m(kept@) =~= drop_touching(fs.take(i + 1), l));
        }
        i = i + 1;
    }
    assert(fs.take(n as int) =~= fs);
    *table = kept;
}

/// The locals whose facts a statement makes stale.
fn touched_locals(s: &Statement) -> (r: Vec<u32>)
    ensures
        r@ == touched(*s),
{
    let mut out: Vec<u32> = Vec::new();
    match s {
        Statement::Assign { place, .. } => out.push(place.local.0),
        Statement::Call { dest, args, .. } => {
            out.push(dest.local.0);
            push_borrowed(args, &mut out);
        },
        Statement::Effect { args, dest, .. } => {
            out.push(dest.local.0);
            push_borrowed(args, &mut out);
        },
        Statement::HeapMutate { target, dest, .. } => {
            out.push(target.local.0);
            out.push(dest.local.0);
        },
        Statement::Drop { place } => out.push(place.local.0),
    }
    assert(out@ =~= touched(*s));
    out
}

fn push_borrowed(args: &Vec<Arg>, out: &mut Vec<u32>)
    ensures
        final(out)@ == old(out)@ + borrowed(args@),
{
    let ghost start = out@;
    let mut i: usize = 0;
    assert(args@.take(0) =~= Seq::<Arg>::empty());
    assert(start + borrowed(args@.take(0)) =~= start);
    while i < args.len()
        invariant
            i <= args@.len(),
            out@ == start + borrowed(args@.take(i as int)),
        decreases args.len() - i,
    {
        assert(args@.take(i + 1).drop_last() =~= args@.take(i as int));
        assert(args@.take(i + 1).last() == args@[i as int]);
        match &args[i] {
            Arg::Borrow(p) => out.push(p.local.0),
            Arg::BorrowMut(p) => out.push(p.local.0),
            Arg::Value(_) => {},
        }
        assert(out@ =~= start + borrowed(args@.take(i + 1)));
        i = i + 1;
    }
    assert(args@.take(i as int) =~= args@);
}

/// Update the fact table for a statement: drop the facts it makes stale,
/// then record the copy it establishes.
fn update_facts(table: &mut Vec<(u32, Source)>, s: &Statement)
    ensures
        facts_m(final(table)@) == update(facts_m(old(table)@), *s),
{
    let ghost f0 = facts_m(table@);
    let ts = touched_locals(s);
    let mut k: usize = 0;
    assert(ts@.take(0) =~= Seq::<u32>::empty());
    while k < ts.len()
        invariant
            k <= ts@.len(),
            facts_m(table@) == drop_all(f0, ts@.take(k as int)),
        decreases ts.len() - k,
    {
        assert(ts@.take(k + 1).drop_last() =~= ts@.take(k as int));
        assert(ts@.take(k + 1).last() == ts@[k as int]);
        drop_facts_touching(table, ts[k]);
        k = k + 1;
    }
    assert(ts@.take(k as int) =~= ts@);
    let fact: Option<(u32, Source)> = match s {
        Statement::Assign { place, rvalue } => {
            if place.projection.len() == 0 {
                match rvalue {
                    Rvalue::Use(o) => match o {
                        Operand::Const(c) => Some((place.local.0, Source::Konst(copy_const(c)))),
                        Operand::Copy(p) => if p.projection.len() == 0 && p.local.0 != place.local.0 {
                            Some((place.local.0, Source::Local(p.local.0)))
                        } else {
                            None
                        },
                        Operand::Move(_) => None,
                    },
                    _ => None,
                }
            } else {
                None
            }
        },
        _ => None,
    };
    match fact {
        Some(e) => {
            let ghost t0 = table@;
            table.push(e);
            assert(facts_m(table@) =~= facts_m(t0).push((e.0, e.1.m())));
        },
        None => {},
    }
}

/// Propagate copies within one block; report whether a read was rewritten.
fn prop_block(block: BasicBlock<Statement>) -> (r: (BasicBlock<Statement>, bool))
    ensures
        r.0.statements@.len() == block.statements@.len(),
        terminator_fwd(block.terminator, r.0.terminator, facts_before(r.0.statements@, r.0.statements@.len() as int)),
        forall|i: int|
            0 <= i < block.statements@.len() ==> statement_fwd(
                block.statements@[i],
                #[trigger] r.0.statements@[i],
                facts_before(r.0.statements@, i),
            ),
        r.1 == block_hit(block, r.0),
{
        let BasicBlock { statements, terminator } = block;
    let ghost ss = statements@;
    let mut pending = statements;
    let mut done: Vec<Statement> = Vec::new();
    let mut table: Vec<(u32, Source)> = Vec::new();
    let mut any = false;
    let m = pending.len();
    let mut i: usize = 0;
    assert(ss.skip(0) =~= ss);
    assert(facts_m(table@) =~= facts_before(done@, 0));
    while i < m
        invariant
            m == ss.len(),
            i <= m,
            pending@ == ss.skip(i as int),
            done@.len() == i,
            facts_m(table@) == facts_before(done@, i as int),
            forall|k: int| 0 <= k < i ==> statement_fwd(ss[k], #[trigger] done@[k], facts_before(done@, k)),
            any == exists|k: int| 0 <= k < i && statement_hit(#[trigger] ss[k], facts_before(done@, k)),
        decreases m - i,
    {
        let mut s = pending.remove(0);
        assert(s == ss[i as int]);
        assert(pending@ =~= ss.skip(i + 1));
        let ghost d0 = done@;
        let h = fwd_statement(&mut s, &table);
        update_facts(&mut table, &s);
        done.push(s);
        proof {
            lemma_facts_prefix(d0, done@, i as int + 1);
            assert forall|k: int| 0 <= k <= i implies facts_before(done@, k) == facts_before(d0, k) by {
                lemma_facts_prefix(d0, done@, k);
            }
        }
        let ghost prev = any;
        if h {
            any = true;
        }
        proof {
            assert(facts_before(done@, i + 1) == update(facts_before(done@, i as int), done@[i as int]));
            if prev {
                let k0 = choose|k: int| 0 <= k < i && statement_hit(#[trigger] ss[k], facts_before(d0, k));
                assert(statement_hit(ss[k0], facts_before(done@, k0)));
            }
            if !any {
                assert forall|k: int| 0 <= k < i + 1 implies !statement_hit(
                    #[trigger] ss[k],
                    facts_before(done@, k),
                ) by {
                    if k < i {
                        assert(!statement_hit(ss[k], facts_before(d0, k)));
                    }
                }
            }
        }
        i = i + 1;
    }
    let mut term = terminator;
    let th = fwd_terminator(&mut term, &table);
    let nb = BasicBlock { statements: done, terminator: term };
    assert(nb.statements@ == done@);
    (nb, any || th)
}

/// The copy-propagation pass: within each block, forward each tracked copy
/// into the later reads of its whole local, with the facts kept as
/// [`update`] says over the rewritten statements; report whether any read
/// was rewritten.
pub fn copy_prop(blocks: &mut Vec<BasicBlock<Statement>>) -> (changed: bool)
    ensures
        final(blocks)@.len() == old(blocks)@.len(),
        forall|b: int|
            0 <= b < old(blocks)@.len() ==> (#[trigger] final(blocks)@[b]).statements@.len()
                == old(blocks)@[b].statements@.len() && terminator_fwd(
                old(blocks)@[b].terminator,
                final(blocks)@[b].terminator,
                facts_before(final(blocks)@[b].statements@, final(blocks)@[b].statements@.len() as int),
            ),
        forall|b: int, i: int|
            0 <= b < old(blocks)@.len() && 0 <= i < old(blocks)@[b].statements@.len() ==> statement_fwd(
                old(blocks)@[b].statements@[i],
                #[trigger] final(blocks)@[b].statements@[i],
                facts_before(final(blocks)@[b].statements@, i),
            ),
        changed == exists|b: int|
            0 <= b < old(blocks)@.len() && block_hit(old(blocks)@[b], #[trigger] final(blocks)@[b]),
{
    let ghost orig = blocks@;
    let mut rest: Vec<BasicBlock<Statement>> = Vec::new();
    std::mem::swap(&mut rest, blocks);
    let n = rest.len();
    let mut out: Vec<BasicBlock<Statement>> = Vec::new();
    let mut changed = false;
    let mut b: usize = 0;
    assert(orig.skip(0) =~= orig);
    while b < n
        invariant
            n == orig.len(),
            b <= n,
            rest@ == orig.skip(b as int),
            out@.len() == b,
            forall|c: int|
                0 <= c < b ==> (#[trigger] out@[c]).statements@.len() == orig[c].statements@.len() && terminator_fwd(
                    orig[c].terminator,
                    out@[c].terminator,
                    facts_before(out@[c].statements@, out@[c].statements@.len() as int),
                ),
            forall|c: int, i: int|
                0 <= c < b && 0 <= i < orig[c].statements@.len() ==> statement_fwd(
                    orig[c].statements@[i],
                    #[trigger] out@[c].statements@[i],
                    facts_before(out@[c].statements@, i),
                ),
            changed == exists|c: int| 0 <= c < b && block_hit(orig[c], #[trigger] out@[c]),
        decreases n - b,
    {
        let block = rest.remove(0);
        assert(block == orig[b as int]);
        assert(rest@ =~= orig.skip(b + 1));
        let (nb, hit) = prop_block(block);
        let ghost prevc = changed;
        let ghost o0 = out@;
        out.push(nb);
        if hit {
            changed = true;
        }
        proof {
            assert forall|c: int| 0 <= c < b implies out@[c] == o0[c] by {}
            if prevc {
                let c0 = choose|c: int| 0 <= c < b && block_hit(orig[c], #[trigger] o0[c]);
                assert(out@[c0] == o0[c0]);
                assert(block_hit(orig[c0], out@[c0]));
            }
            if hit {
                assert(block_hit(orig[b as int], out@[b as int]));
            }
            if !changed {
                assert forall|c: int| 0 <= c < b + 1 implies !block_hit(orig[c], #[trigger] out@[c]) by {
                    if c < b {
                        assert(out@[c] == o0[c]);
                    }
                }
            }
        }
        b = b + 1;
    }
    *blocks = out;
    changed
}

/// Whether the pass rewrote a read of block `old`, given what it made of
/// it, `new`: some statement or the terminator read a tracked local.
pub open spec fn block_hit(old: BasicBlock<Statement>, new: BasicBlock<Statement>) -> bool {
    (exists|k: int|
        0 <= k < old.statements@.len() && statement_hit(#[trigger] old.statements@[k], facts_before(new.statements@, k)))
        || terminator_hit(old.terminator, facts_before(new.statements@, new.statements@.len() as int))
}

/// The facts before statement `k` depend only on the statements before it.
proof fn lemma_facts_prefix(a: Seq<Statement>, b: Seq<Statement>, k: int)
    requires
        0 <= k,
        k <= a.len() + 1,
        k <= b.len(),
        forall|j: int| 0 <= j < k && j < a.len() ==> a[j] == b[j],
        k <= a.len() || k == a.len() + 1,
    ensures
        k <= a.len() ==> facts_before(a, k) == facts_before(b, k),
    decreases k,
{
    if k > 0 && k <= a.len() {
        lemma_facts_prefix(a, b, k - 1);
    }
}

// ---------------------------------------------------------------------------
// Laws of the fact table.
// ---------------------------------------------------------------------------

/// The facts kept after dropping those touching `l` are among the facts
/// before, and none of them is about `l` or copies `l`.
proof fn lemma_drop_touching(facts: Seq<(u32, SourceM)>, l: u32)
    ensures
        forall|k: int|
            0 <= k < drop_touching(facts, l).len() ==> facts.contains(#[trigger] drop_touching(facts, l)[k])
                && drop_touching(facts, l)[k].0 != l && source_local(drop_touching(facts, l)[k].1) != Some(l),
    decreases facts.len(),
{
    if facts.len() > 0 {
        let init = facts.drop_last();
        lemma_drop_touching(init, l);
        let d = drop_touching(facts, l);
        let di = drop_touching(init, l);
        assert forall|k: int| 0 <= k < d.len() implies facts.contains(#[trigger] d[k]) && d[k].0 != l
            && source_local(d[k].1) != Some(l) by {
            if k < di.len() {
                assert(d[k] == di[k]);
                let j = init.index_of(di[k]);
                assert(facts[j] == init[j]);
            } else {
                assert(d[k] == facts.last());
                assert(facts[facts.len() - 1] == facts.last());
            }
        }
    }
}

/// After dropping the facts touching each of `ls`, the facts left are
/// among the facts before and none is about, or copies, a local of `ls`.
proof fn lemma_drop_all(facts: Seq<(u32, SourceM)>, ls: Seq<u32>)
    ensures
        forall|k: int|
            0 <= k < drop_all(facts, ls).len() ==> facts.contains(#[trigger] drop_all(facts, ls)[k])
                && !ls.contains(drop_all(facts, ls)[k].0) && !(source_local(drop_all(facts, ls)[k].1) matches Some(
                y,
            ) && ls.contains(y)),
    decreases ls.len(),
{
    if ls.len() > 0 {
        let prev = drop_all(facts, ls.drop_last());
        lemma_drop_all(facts, ls.drop_last());
        lemma_drop_touching(prev, ls.last());
        let d = drop_all(facts, ls);
        assert forall|k: int| 0 <= k < d.len() implies facts.contains(#[trigger] d[k]) && !ls.contains(d[k].0)
            && !(source_local(d[k].1) matches Some(y) && ls.contains(y)) by {
            let j = prev.index_of(d[k]);
            assert(prev[j] == d[k]);
            if ls.contains(d[k].0) {
                let m = ls.index_of(d[k].0);
                if m < ls.len() - 1 {
                    assert(ls.drop_last()[m] == d[k].0);
                }
            }
            if let Some(y) = source_local(d[k].1) {
                if ls.contains(y) {
                    let m = ls.index_of(y);
                    if m < ls.len() - 1 {
                        assert(ls.drop_last()[m] == y);
                    }
                }
            }
        }
    }
}

/// The roots of borrowed arguments are among the borrowed locals.
proof fn lemma_borrowed(args: Seq<Arg>, j: int)
    requires
        0 <= j < args.len(),
    ensures
        args[j] matches Arg::Borrow(p) ==> borrowed(args).contains(p.local.0),
        args[j] matches Arg::BorrowMut(p) ==> borrowed(args).contains(p.local.0),
    decreases args.len(),
{
    let init = borrowed(args.drop_last());
    let last = borrowed(args).subrange(init.len() as int, borrowed(args).len() as int);
    if j < args.len() - 1 {
        assert(args.drop_last()[j] == args[j]);
        lemma_borrowed(args.drop_last(), j);
        if init.len() > 0 {
            assert forall|x: u32| init.contains(x) implies borrowed(args).contains(x) by {
                let i = init.index_of(x);
                assert(borrowed(args)[i] == x);
            }
        }
    } else {
        if let Arg::Borrow(p) = args[j] {
            assert(borrowed(args)[init.len() as int] == p.local.0);
        }
        if let Arg::BorrowMut(p) = args[j] {
            assert(borrowed(args)[init.len() as int] == p.local.0);
        }
    }
}

/// The arguments of a call or effect.
pub open spec fn statement_args(s: Statement) -> Seq<Arg> {
    match s {
        Statement::Call { args, .. } => args@,
        Statement::Effect { args, .. } => args@,
        _ => seq![],
    }
}

/// The local an argument borrows, if it borrows one.
pub open spec fn borrowed_root(a: Arg) -> Option<u32> {
    match a {
        Arg::Borrow(p) => Some(p.local.0),
        Arg::BorrowMut(p) => Some(p.local.0),
        Arg::Value(_) => None,
    }
}

/// What a statement writes, borrows or drops makes its facts stale: the
/// destination of an assignment, call, effect or heap mutation, the target
/// of a heap mutation, every borrowed argument, and a dropped place.
pub proof fn law_writes_and_borrows_are_touched(s: Statement, j: int, x: u32)
    ensures
        s matches Statement::Assign { place, .. } ==> touched(s).contains(place.local.0),
        s matches Statement::Call { dest, .. } ==> touched(s).contains(dest.local.0),
        s matches Statement::Effect { dest, .. } ==> touched(s).contains(dest.local.0),
        s matches Statement::HeapMutate { target, dest, .. } ==> touched(s).contains(target.local.0) && touched(
            s,
        ).contains(dest.local.0),
        s matches Statement::Drop { place } ==> touched(s).contains(place.local.0),
        0 <= j < statement_args(s).len() && borrowed_root(statement_args(s)[j]) == Some(x) ==> touched(s).contains(x),
{
    match s {
        Statement::Assign { place, .. } => {
            assert(touched(s)[0] == place.local.0);
        },
        Statement::Call { dest, args, .. } => {
            assert(touched(s)[0] == dest.local.0);
            if 0 <= j < args@.len() {
                lemma_borrowed(args@, j);
                let b = borrowed(args@);
                assert forall|x: u32| b.contains(x) implies touched(s).contains(x) by {
                    let i = b.index_of(x);
                    assert(touched(s)[1 + i] == x);
                }
            }
        },
        Statement::Effect { dest, args, .. } => {
            assert(touched(s)[0] == dest.local.0);
            if 0 <= j < args@.len() {
                lemma_borrowed(args@, j);
                let b = borrowed(args@);
                assert forall|x: u32| b.contains(x) implies touched(s).contains(x) by {
                    let i = b.index_of(x);
                    assert(touched(s)[1 + i] == x);
                }
            }
        },
        Statement::HeapMutate { target, dest, .. } => {
            assert(touched(s)[0] == target.local.0);
            assert(touched(s)[1] == dest.local.0);
        },
        Statement::Drop { place } => {
            assert(touched(s)[0] == place.local.0);
        },
    }
}

/// After a statement, no fact copies a local the statement wrote, borrowed
/// or dropped, and the only fact about such a local is the one the
/// statement itself establishes; every other fact was known before.
pub proof fn law_stale_facts_are_dropped(facts: Seq<(u32, SourceM)>, s: Statement)
    ensures
        forall|k: int|
            0 <= k < update(facts, s).len() ==> !(source_local((#[trigger] update(facts, s)[k]).1) matches Some(y)
                && touched(s).contains(y)),
        forall|k: int|
            0 <= k < update(facts, s).len() && touched(s).contains((#[trigger] update(facts, s)[k]).0) ==> new_fact(s)
                == Some(update(facts, s)[k]),
        forall|k: int|
            0 <= k < update(facts, s).len() ==> facts.contains(#[trigger] update(facts, s)[k]) || new_fact(s) == Some(
                update(facts, s)[k],
            ),
{
    let kept = drop_all(facts, touched(s));
    lemma_drop_all(facts, touched(s));
    let u = update(facts, s);
    match new_fact(s) {
        Some(e) => {
            assert(u == kept.push(e));
            if let Statement::Assign { place, .. } = s {
                assert(touched(s) =~= seq![place.local.0]);
                assert(e.0 == place.local.0);
                assert(source_local(e.1) != Some(place.local.0));
                assert forall|k: int| 0 <= k < u.len() implies !(source_local((#[trigger] u[k]).1) matches Some(y)
                    && touched(s).contains(y)) by {
                    if k == kept.len() {
                        if let Some(y) = source_local(u[k].1) {
                            if touched(s).contains(y) {
                                assert(touched(s)[touched(s).index_of(y)] == y);
                            }
                        }
                    } else {
                        assert(u[k] == kept[k]);
                    }
                }
                assert forall|k: int| 0 <= k < u.len() && touched(s).contains((#[trigger] u[k]).0) implies new_fact(s)
                    == Some(u[k]) by {
                    if k < kept.len() {
                        assert(u[k] == kept[k]);
                    }
                }
                assert forall|k: int| 0 <= k < u.len() implies facts.contains(#[trigger] u[k]) || new_fact(s) == Some(
                    u[k],
                ) by {
                    if k < kept.len() {
                        assert(u[k] == kept[k]);
                    }
                }
            }
        },
        None => {
            assert(u == kept);
        },
    }
}

/// In facts with no entry about `x` before the last, the fact about `x` is
/// the last one when it is about `x`.
proof fn lemma_fact_of_last(facts: Seq<(u32, SourceM)>, x: u32)
    requires
        facts.len() > 0,
        facts.last().0 == x,
        forall|k: int| 0 <= k < facts.len() - 1 ==> (#[trigger] facts[k]).0 != x,
    ensures
        fact_of(facts, x) == Some(facts.last().1),
    decreases facts.len(),
{
    if facts.len() > 1 {
        let rest = facts.drop_first();
        assert forall|k: int| 0 <= k < rest.len() - 1 implies (#[trigger] rest[k]).0 != x by {
            assert(rest[k] == facts[k + 1]);
        }
        assert(rest.last() == facts.last());
        lemma_fact_of_last(rest, x);
    }
}

/// After `_x = const c`, `_x` is known to hold `c`; after `_x = copy _y`
/// of another whole local, `_x` is known to be a copy of `_y`.
pub proof fn law_copies_are_recorded(facts: Seq<(u32, SourceM)>, s: Statement)
    ensures
        (s matches Statement::Assign { place, rvalue: Rvalue::Use(Operand::Const(c)) } && place.projection@.len() == 0)
            ==> fact_of(update(facts, s), s->Assign_place.local.0) == Some(SourceM::Konst(s->Assign_rvalue->Use_0->Const_0.model())),
        (s matches Statement::Assign { place, rvalue: Rvalue::Use(Operand::Copy(q)) } && place.projection@.len() == 0
            && q.projection@.len() == 0 && q.local.0 != place.local.0) ==> fact_of(
            update(facts, s),
            s->Assign_place.local.0,
        ) == Some(SourceM::Local(s->Assign_rvalue->Use_0->Copy_0.local.0)),
{
    if let Some(e) = new_fact(s) {
        law_stale_facts_are_dropped(facts, s);
        let u = update(facts, s);
        let kept = drop_all(facts, touched(s));
        lemma_drop_all(facts, touched(s));
        assert(u == kept.push(e));
        if let Statement::Assign { place, .. } = s {
            assert(touched(s) =~= seq![place.local.0]);
            assert(touched(s)[0] == place.local.0);
            assert forall|k: int| 0 <= k < u.len() - 1 implies (#[trigger] u[k]).0 != place.local.0 by {
                assert(u[k] == kept[k]);
            }
            lemma_fact_of_last(u, place.local.0);
        }
    }
}

} // verus!
