//! Definite initialization: which locals hold a value on entry to each
//! block.
//!
//! Execution starts at block 0 with the parameters initialized and every
//! other local uninitialized. A move of a whole local or a `Drop` ends its
//! initialization; an assignment, a call or effect destination, a `mut`
//! borrow argument, and a heap mutation's target (re)initialize a local.
//! The entry set of a block is what every path into it leaves initialized:
//! the intersection of its reachable predecessors' exit sets (and the
//! parameters, for block 0). It is computed as the greatest fixed point of
//! those equations, starting every reachable block but the entry at "all
//! locals" and shrinking until nothing changes.
//!
//! Sets of locals are bitsets: `v[x]` says whether local `x` is in the set.

use vstd::prelude::*;
use crate::mir::{Arg, BasicBlock, Callee, LocalId, Operand, Place, Rvalue, Statement, Terminator};
use crate::text::{decimal, push_decimal, push_str};
use crate::opt::unreachable_blocks::{
    is_path, reach_flags, reachable, reachable_blocks, succs, targets, targets_in_range, terminator_targets,
};

verus! {

// ---------------------------------------------------------------------------
// What a statement consumes and defines.
// ---------------------------------------------------------------------------

/// The locals a bitset holds.
pub open spec fn members(v: Seq<bool>) -> Set<u32> {
    Set::new(|x: u32| (x as int) < v.len() && v[x as int])
}

/// The root of a place, when the place is the whole local.
pub open spec fn whole(p: Place) -> Seq<u32> {
    if p.projection@.len() == 0 {
        seq![p.local.0]
    } else {
        seq![]
    }
}

/// The local a whole-local move in the operand consumes.
pub open spec fn operand_consumed(o: Operand) -> Seq<u32> {
    match o {
        Operand::Move(p) => whole(p),
        _ => seq![],
    }
}

/// The locals whole-local moves in the operands consume, in order.
pub open spec fn operands_consumed(os: Seq<Operand>) -> Seq<u32>
    decreases os.len(),
{
    if os.len() == 0 {
        seq![]
    } else {
        operands_consumed(os.drop_last()) + operand_consumed(os.last())
    }
}

/// The locals whole-local moves in an rvalue consume. A heap operation's
/// subject and the place of `Discriminant`/`Len` are only read.
pub open spec fn rvalue_consumed(r: Rvalue) -> Seq<u32> {
    match r {
        Rvalue::Use(o) => operand_consumed(o),
        Rvalue::Unary { operand, .. } => operand_consumed(operand),
        Rvalue::Cast { operand, .. } => operand_consumed(operand),
        Rvalue::Binary { lhs, rhs, .. } => operand_consumed(lhs) + operand_consumed(rhs),
        Rvalue::Aggregate { fields, .. } => operands_consumed(fields@),
        Rvalue::StrOp { args, .. } => operands_consumed(args@),
        Rvalue::HeapOp { args, .. } => operands_consumed(args@),
        Rvalue::Discriminant(_) => seq![],
        Rvalue::Len(_) => seq![],
    }
}

/// The local a call argument consumes: a `take` argument's whole-local move.
pub open spec fn arg_consumed(a: Arg) -> Seq<u32> {
    match a {
        Arg::Value(o) => operand_consumed(o),
        _ => seq![],
    }
}

/// The local a call argument (re)initializes: a `mut` borrow of a whole local.
pub open spec fn arg_defined(a: Arg) -> Seq<u32> {
    match a {
        Arg::BorrowMut(p) => whole(p),
        _ => seq![],
    }
}

/// The locals the arguments consume, in order.
pub open spec fn args_consumed(args: Seq<Arg>) -> Seq<u32>
    decreases args.len(),
{
    if args.len() == 0 {
        seq![]
    } else {
        args_consumed(args.drop_last()) + arg_consumed(args.last())
    }
}

/// The locals the arguments (re)initialize, in order.
pub open spec fn args_defined(args: Seq<Arg>) -> Seq<u32>
    decreases args.len(),
{
    if args.len() == 0 {
        seq![]
    } else {
        args_defined(args.drop_last()) + arg_defined(args.last())
    }
}

/// The locals a statement de-initializes.
pub open spec fn statement_consumed(s: Statement) -> Seq<u32> {
    match s {
        Statement::Assign { rvalue, .. } => rvalue_consumed(rvalue),
        Statement::Call { callee, args, .. } => match callee {
            Callee::Indirect(o) => operand_consumed(o) + args_consumed(args@),
            Callee::Direct(_) => args_consumed(args@),
        },
        Statement::Effect { args, .. } => args_consumed(args@),
        Statement::HeapMutate { args, .. } => operands_consumed(args@),
        Statement::Drop { place } => whole(place),
    }
}

/// The locals a statement (re)initializes.
pub open spec fn statement_defined(s: Statement) -> Seq<u32> {
    match s {
        Statement::Assign { place, .. } => whole(place),
        Statement::Call { dest, args, .. } => args_defined(args@) + whole(dest),
        Statement::Effect { args, dest, .. } => args_defined(args@) + whole(dest),
        Statement::HeapMutate { target, dest, .. } => whole(target) + whole(dest),
        Statement::Drop { .. } => seq![],
    }
}

/// Every local the statement consumes or defines is below `n`.
pub open spec fn statement_in_range(s: Statement, n: nat) -> bool {
    &&& forall|k: int| 0 <= k < statement_consumed(s).len() ==> (#[trigger] statement_consumed(s)[k]) < n
    &&& forall|k: int| 0 <= k < statement_defined(s).len() ==> (#[trigger] statement_defined(s)[k]) < n
}

/// Every statement of every block consumes and defines only locals below `n`.
pub open spec fn blocks_in_range(blocks: Seq<BasicBlock<Statement>>, n: nat) -> bool {
    forall|b: int, i: int|
        0 <= b < blocks.len() && 0 <= i < blocks[b].statements@.len() ==> statement_in_range(
            #[trigger] blocks[b].statements@[i],
            n,
        )
}

/// The initialized set after a statement: what it consumes leaves, then
/// what it defines joins.
pub open spec fn apply_spec(s: Statement, init: Set<u32>) -> Set<u32> {
    init.difference(statement_consumed(s).to_set()).union(statement_defined(s).to_set())
}

/// The initialized set after a statement sequence.
pub open spec fn exit_spec(stmts: Seq<Statement>, init: Set<u32>) -> Set<u32>
    decreases stmts.len(),
{
    if stmts.len() == 0 {
        init
    } else {
        apply_spec(stmts.last(), exit_spec(stmts.drop_last(), init))
    }
}

// ---------------------------------------------------------------------------
// Collecting.
// ---------------------------------------------------------------------------

/// Record the local a whole-local move in `operand` consumes.
pub fn collect_consumed_operand(operand: &Operand, out: &mut Vec<u32>)
    ensures
        final(out)@ == old(out)@ + operand_consumed(*operand),
{
    if let Operand::Move(place) = operand {
        if place.projection.len() == 0 {
            out.push(place.local.0);
        }
    }
}

/// Record the locals whole-local moves in `operands` consume.
fn collect_consumed_operands(operands: &Vec<Operand>, out: &mut Vec<u32>)
    ensures
        final(out)@ == old(out)@ + operands_consumed(operands@),
{
    let ghost start = out@;
    let mut i: usize = 0;
    assert(operands@.take(0) =~= Seq::<Operand>::empty());
    while i < operands.len()
        invariant
            i <= operands@.len(),
            out@ == start + operands_consumed(operands@.take(i as int)),
        decreases operands.len() - i,
    {
        collect_consumed_operand(&operands[i], out);
        assert(operands@.take(i + 1).drop_last() =~= operands@.take(i as int));
        assert(out@ =~= start + operands_consumed(operands@.take(i + 1)));
        i = i + 1;
    }
    assert(operands@.take(i as int) =~= operands@);
}

/// Record the roots whole-local moves in `rvalue` consume. Only a move of
/// the entire local de-initializes it; a field move leaves it partly live.
pub fn collect_rvalue_move_roots(rvalue: &Rvalue, out: &mut Vec<u32>)
    ensures
        final(out)@ == old(out)@ + rvalue_consumed(*rvalue),
{
    match rvalue {
        Rvalue::Use(operand) => collect_consumed_operand(operand, out),
        Rvalue::Unary { operand, .. } => collect_consumed_operand(operand, out),
        Rvalue::Cast { operand, .. } => collect_consumed_operand(operand, out),
        Rvalue::Binary { lhs, rhs, .. } => {
            let ghost start = out@;
            collect_consumed_operand(lhs, out);
            collect_consumed_operand(rhs, out);
            assert(out@ =~= start + (operand_consumed(*lhs) + operand_consumed(*rhs)));
        },
        Rvalue::Aggregate { fields, .. } => collect_consumed_operands(fields, out),
        Rvalue::StrOp { args, .. } => collect_consumed_operands(args, out),
        Rvalue::HeapOp { args, .. } => collect_consumed_operands(args, out),
        Rvalue::Discriminant(_) => {
            assert(out@ =~= out@ + Seq::<u32>::empty());
        },
        Rvalue::Len(_) => {
            assert(out@ =~= out@ + Seq::<u32>::empty());
        },
    }
}

/// Record the locals an rvalue consumes.
pub fn collect_consumed_rvalue(rvalue: &Rvalue, out: &mut Vec<u32>)
    ensures
        final(out)@ == old(out)@ + rvalue_consumed(*rvalue),
{
    let mut reads: Vec<u32> = Vec::new();
    collect_rvalue_move_roots(rvalue, &mut reads);
    let ghost start = out@;
    let mut i: usize = 0;
    while i < reads.len()
        invariant
            i <= reads@.len(),
            reads@ == rvalue_consumed(*rvalue),
            out@ == start + reads@.take(i as int),
        decreases reads.len() - i,
    {
        out.push(reads[i]);
        assert(reads@.take(i + 1) =~= reads@.take(i as int).push(reads@[i as int]));
        i = i + 1;
    }
    assert(reads@.take(i as int) =~= reads@);
}

/// Record what the arguments consume and what they (re)initialize.
fn collect_args(args: &Vec<Arg>, consumed: &mut Vec<u32>, defined: &mut Vec<u32>)
    ensures
        final(consumed)@ == old(consumed)@ + args_consumed(args@),
        final(defined)@ == old(defined)@ + args_defined(args@),
{
    let ghost c0 = consumed@;
    let ghost d0 = defined@;
    let mut i: usize = 0;
    assert(args@.take(0) =~= Seq::<Arg>::empty());
    while i < args.len()
        invariant
            i <= args@.len(),
            consumed@ == c0 + args_consumed(args@.take(i as int)),
            defined@ == d0 + args_defined(args@.take(i as int)),
        decreases args.len() - i,
    {
        match &args[i] {
            Arg::Value(operand) => collect_consumed_operand(operand, consumed),
            Arg::BorrowMut(place) => {
                if place.projection.len() == 0 {
                    defined.push(place.local.0);
                }
            },
            Arg::Borrow(_) => {},
        }
        assert(args@.take(i + 1).drop_last() =~= args@.take(i as int));
        assert(consumed@ =~= c0 + args_consumed(args@.take(i + 1)));
        assert(defined@ =~= d0 + args_defined(args@.take(i + 1)));
        i = i + 1;
    }
    assert(args@.take(i as int) =~= args@);
}

/// Record the root of `place` when it is the whole local.
fn push_whole(place: &Place, out: &mut Vec<u32>)
    ensures
        final(out)@ == old(out)@ + whole(*place),
{
    if place.projection.len() == 0 {
        out.push(place.local.0);
    } else {
        assert(old(out)@ + whole(*place) =~= old(out)@);
    }
}

/// Record what a statement consumes and what it (re)initializes.
fn collect_effects(statement: &Statement, consumed: &mut Vec<u32>, defined: &mut Vec<u32>)
    ensures
        final(consumed)@ == old(consumed)@ + statement_consumed(*statement),
        final(defined)@ == old(defined)@ + statement_defined(*statement),
{
    let ghost c0 = consumed@;
    let ghost d0 = defined@;
    match statement {
        Statement::Assign { place, rvalue } => {
            collect_consumed_rvalue(rvalue, consumed);
            push_whole(place, defined);
        },
        Statement::Call { dest, callee, args } => {
            if let Callee::Indirect(operand) = callee {
                collect_consumed_operand(operand, consumed);
            }
            collect_args(args, consumed, defined);
            push_whole(dest, defined);
        },
        Statement::Effect { args, dest, .. } => {
            collect_args(args, consumed, defined);
            push_whole(dest, defined);
        },
        Statement::HeapMutate { target, args, dest, .. } => {
            collect_consumed_operands(args, consumed);
            push_whole(target, defined);
            push_whole(dest, defined);
        },
        Statement::Drop { place } => {
            push_whole(place, consumed);
        },
    }
    assert(consumed@ =~= c0 + statement_consumed(*statement));
    assert(defined@ =~= d0 + statement_defined(*statement));
}

// ---------------------------------------------------------------------------
// Applying statements.
// ---------------------------------------------------------------------------

/// Apply a statement's effect to the initialized set: reads by move and
/// drops de-initialize; assignments, call and effect destinations, `mut`
/// borrows and mutated heap targets initialize.
pub fn apply_statement(statement: &Statement, init: &mut Vec<bool>)
    requires
        statement_in_range(*statement, old(init)@.len()),
    ensures
        final(init)@.len() == old(init)@.len(),
        members(final(init)@) == apply_spec(*statement, members(old(init)@)),
{
    let mut consumed: Vec<u32> = Vec::new();
    let mut defined: Vec<u32> = Vec::new();
    collect_effects(statement, &mut consumed, &mut defined);
    assert(consumed@ =~= statement_consumed(*statement));
    assert(defined@ =~= statement_defined(*statement));
    let ghost before = init@;
    let n = init.len();
    let mut k: usize = 0;
    while k < consumed.len()
        invariant
            k <= consumed@.len(),
            init@.len() == n,
            n == before.len(),
            consumed@ == statement_consumed(*statement),
            statement_in_range(*statement, n as nat),
            forall|x: u32| (x as int) < n ==> #[trigger] init@[x as int] == (before[x as int] && !consumed@.take(k as int).contains(x)),
        decreases consumed.len() - k,
    {
        let c = consumed[k];
        assert(consumed@[k as int] == statement_consumed(*statement)[k as int]);
        init.set(c as usize, false);
        assert forall|x: u32| (x as int) < n implies #[trigger] init@[x as int] == (before[x as int] && !consumed@.take(k + 1).contains(x)) by {
            assert(consumed@.take(k + 1) =~= consumed@.take(k as int).push(c));
            if x == c {
                assert(consumed@.take(k + 1)[k as int] == c);
            } else if consumed@.take(k + 1).contains(x) {
                let m = consumed@.take(k + 1).index_of(x);
                assert(consumed@.take(k as int)[m] == x);
            }
        }
        k = k + 1;
    }
    assert(consumed@.take(k as int) =~= consumed@);
    let ghost mid = init@;
    let mut j: usize = 0;
    while j < defined.len()
        invariant
            j <= defined@.len(),
            init@.len() == n,
            mid.len() == n,
            defined@ == statement_defined(*statement),
            statement_in_range(*statement, n as nat),
            forall|x: u32| (x as int) < n ==> #[trigger] init@[x as int] == (mid[x as int] || defined@.take(j as int).contains(x)),
        decreases defined.len() - j,
    {
        let d = defined[j];
        assert(defined@[j as int] == statement_defined(*statement)[j as int]);
        init.set(d as usize, true);
        assert forall|x: u32| (x as int) < n implies #[trigger] init@[x as int] == (mid[x as int] || defined@.take(j + 1).contains(x)) by {
            assert(defined@.take(j + 1) =~= defined@.take(j as int).push(d));
            if x == d {
                assert(defined@.take(j + 1)[j as int] == d);
            } else if defined@.take(j + 1).contains(x) {
                let m = defined@.take(j + 1).index_of(x);
                assert(defined@.take(j as int)[m] == x);
            }
        }
        j = j + 1;
    }
    assert(defined@.take(j as int) =~= defined@);
    proof {
        let sc = statement_consumed(*statement);
        let sd = statement_defined(*statement);
        assert forall|x: u32| members(init@).contains(x) == apply_spec(*statement, members(before)).contains(x) by {
            if sd.contains(x) {
                let m = sd.index_of(x);
                assert(sd[m] < n);
            }
            if sc.contains(x) {
                let m = sc.index_of(x);
                assert(sc[m] < n);
            }
        }
        assert(members(init@) =~= apply_spec(*statement, members(before)));
    }
}

/// The initialized set at the end of a block, given its entry set.
pub fn exit_set(block: &BasicBlock<Statement>, entry: &Vec<bool>) -> (r: Vec<bool>)
    requires
        forall|i: int| 0 <= i < block.statements@.len() ==> statement_in_range(#[trigger] block.statements@[i], entry@.len()),
    ensures
        r@.len() == entry@.len(),
        members(r@) == exit_spec(block.statements@, members(entry@)),
{
    let mut init: Vec<bool> = Vec::new();
    let mut c: usize = 0;
    while c < entry.len()
        invariant
            c <= entry@.len(),
            init@ == entry@.take(c as int),
        decreases entry.len() - c,
    {
        init.push(entry[c]);
        assert(entry@.take(c + 1) =~= entry@.take(c as int).push(entry@[c as int]));
        c = c + 1;
    }
    assert(entry@.take(c as int) =~= entry@);
    let stmts = &block.statements;
    let mut i: usize = 0;
    assert(stmts@.take(0) =~= Seq::<Statement>::empty());
    while i < stmts.len()
        invariant
            i <= stmts@.len(),
            init@.len() == entry@.len(),
            forall|k: int| 0 <= k < stmts@.len() ==> statement_in_range(#[trigger] stmts@[k], entry@.len()),
            members(init@) == exit_spec(stmts@.take(i as int), members(entry@)),
        decreases stmts.len() - i,
    {
        apply_statement(&stmts[i], &mut init);
        assert(stmts@.take(i + 1).drop_last() =~= stmts@.take(i as int));
        assert(stmts@.take(i + 1).last() == stmts@[i as int]);
        i = i + 1;
    }
    assert(stmts@.take(i as int) =~= stmts@);
    init
}

// ---------------------------------------------------------------------------
// Locals ever defined.
// ---------------------------------------------------------------------------

/// The parameters and every local some statement (re)initializes.
pub open spec fn ever_spec(blocks: Seq<BasicBlock<Statement>>, param_count: u32) -> Set<u32> {
    Set::new(
        |x: u32|
            x < param_count || exists|b: int, i: int|
                0 <= b < blocks.len() && 0 <= i < blocks[b].statements@.len() && statement_defined(
                    #[trigger] blocks[b].statements@[i],
                ).contains(x),
    )
}

/// The larger of two counts.
pub open spec fn max_count(a: u32, b: u32) -> u32 {
    if a < b {
        b
    } else {
        a
    }
}

/// Every local that is a parameter or that some statement ever
/// (re)initializes, as a bitset over the parameters and locals.
pub fn ever_defined(blocks: &Vec<BasicBlock<Statement>>, param_count: u32, local_count: u32) -> (r: Vec<bool>)
    requires
        blocks_in_range(blocks@, local_count as nat),
    ensures
        r@.len() == max_count(param_count, local_count),
        members(r@) == ever_spec(blocks@, param_count),
{
    let size: u32 = if param_count < local_count {
        local_count
    } else {
        param_count
    };
    let mut ever: Vec<bool> = Vec::new();
    while ever.len() < size as usize
        invariant
            ever@.len() <= size,
            forall|x: int| 0 <= x < ever@.len() ==> #[trigger] ever@[x] == (x < param_count),
        decreases size - ever.len(),
    {
        let x = ever.len();
        ever.push((x as u32) < param_count);
    }
    let mut b: usize = 0;
    while b < blocks.len()
        invariant
            b <= blocks@.len(),
            ever@.len() == size,
            size == max_count(param_count, local_count),
            blocks_in_range(blocks@, local_count as nat),
            forall|x: u32|
                (x as int) < size ==> #[trigger] ever@[x as int] == (x < param_count || exists|bb: int, i: int|
                    0 <= bb < b && 0 <= i < blocks@[bb].statements@.len() && statement_defined(
                        #[trigger] blocks@[bb].statements@[i],
                    ).contains(x)),
        decreases blocks.len() - b,
    {
        let stmts = &blocks[b].statements;
        let mut i: usize = 0;
        while i < stmts.len()
            invariant
                b < blocks@.len(),
                i <= stmts@.len(),
                *stmts == blocks@[b as int].statements,
                ever@.len() == size,
                size == max_count(param_count, local_count),
                blocks_in_range(blocks@, local_count as nat),
                forall|x: u32|
                    (x as int) < size ==> #[trigger] ever@[x as int] == (x < param_count || exists|bb: int, ii: int|
                        (0 <= bb < b && 0 <= ii < blocks@[bb].statements@.len() || bb == b && 0 <= ii < i)
                            && statement_defined(#[trigger] blocks@[bb].statements@[ii]).contains(x)),
            decreases stmts.len() - i,
        {
            let mut consumed: Vec<u32> = Vec::new();
            let mut defined: Vec<u32> = Vec::new();
            collect_effects(&stmts[i], &mut consumed, &mut defined);
            assert(defined@ =~= statement_defined(stmts@[i as int]));
            assert(statement_in_range(blocks@[b as int].statements@[i as int], local_count as nat));
            let ghost before = ever@;
            let mut j: usize = 0;
            while j < defined.len()
                invariant
                    j <= defined@.len(),
                    ever@.len() == size,
                    size == max_count(param_count, local_count),
                    defined@ == statement_defined(stmts@[i as int]),
                    statement_in_range(stmts@[i as int], local_count as nat),
                    forall|x: u32| (x as int) < size ==> #[trigger] ever@[x as int] == (before[x as int] || defined@.take(j as int).contains(x)),
                decreases defined.len() - j,
            {
                let d = defined[j];
                assert(defined@[j as int] == statement_defined(stmts@[i as int])[j as int]);
                ever.set(d as usize, true);
                assert forall|x: u32| (x as int) < size implies #[trigger] ever@[x as int] == (before[x as int] || defined@.take(j + 1).contains(x)) by {
                    assert(defined@.take(j + 1) =~= defined@.take(j as int).push(d));
                    if x == d {
                        assert(defined@.take(j + 1)[j as int] == d);
                    } else if defined@.take(j + 1).contains(x) {
                        let m = defined@.take(j + 1).index_of(x);
                        assert(defined@.take(j as int)[m] == x);
                    }
                }
                j = j + 1;
            }
            assert(defined@.take(j as int) =~= defined@);
            proof {
                assert forall|x: u32| (x as int) < size implies #[trigger] ever@[x as int] == (x < param_count || exists|bb: int, ii: int|
                    (0 <= bb < b && 0 <= ii < blocks@[bb].statements@.len() || bb == b && 0 <= ii < i + 1)
                        && statement_defined(#[trigger] blocks@[bb].statements@[ii]).contains(x)) by {
                    if defined@.contains(x) && !before[x as int] {
                        assert(stmts@[i as int] == blocks@[b as int].statements@[i as int]);
                    }
                }
            }
            i = i + 1;
        }
        b = b + 1;
    }
    proof {
        assert forall|x: u32| members(ever@).contains(x) == ever_spec(blocks@, param_count).contains(x) by {
            if ever_spec(blocks@, param_count).contains(x) && x >= param_count {
                let (bb, ii) = choose|bb: int, ii: int|
                    0 <= bb < blocks@.len() && 0 <= ii < blocks@[bb].statements@.len() && statement_defined(
                        #[trigger] blocks@[bb].statements@[ii],
                    ).contains(x);
                let sd = statement_defined(blocks@[bb].statements@[ii]);
                assert(statement_in_range(blocks@[bb].statements@[ii], local_count as nat));
                let m = sd.index_of(x);
                assert(sd[m] < local_count);
            }
        }
        assert(members(ever@) =~= ever_spec(blocks@, param_count));
    }
    ever
}

// ---------------------------------------------------------------------------
// Predecessors and the flow equations.
// ---------------------------------------------------------------------------

/// A target list names block `b`.
pub open spec fn names(ts: Seq<u32>, b: int) -> bool {
    exists|k: int| 0 <= k < ts.len() && ts[k] as int == b
}

/// The blocks among the first `k` whose terminators name block `b`, in order.
pub open spec fn preds_spec(g: Seq<Seq<u32>>, b: int, k: int) -> Seq<int>
    decreases k,
{
    if k <= 0 {
        seq![]
    } else if names(g[k - 1], b) {
        preds_spec(g, b, k - 1).push(k - 1)
    } else {
        preds_spec(g, b, k - 1)
    }
}

/// The predecessor candidates are blocks below `k`, in increasing order.
proof fn lemma_preds_range(g: Seq<Seq<u32>>, b: int, k: int)
    ensures
        forall|j: int| 0 <= j < preds_spec(g, b, k).len() ==> 0 <= #[trigger] preds_spec(g, b, k)[j] < k,
    decreases k,
{
    if k > 0 {
        lemma_preds_range(g, b, k - 1);
        let s = preds_spec(g, b, k - 1);
        if names(g[k - 1], b) {
            assert forall|j: int| 0 <= j < s.push(k - 1).len() implies 0 <= #[trigger] s.push(k - 1)[j] < k by {
                if j < s.len() {
                    assert(s.push(k - 1)[j] == s[j]);
                }
            }
        }
    }
}

/// The predecessors of block `index`: every block whose terminator names it.
pub fn predecessors(blocks: &Vec<BasicBlock<Statement>>, index: usize) -> (r: Vec<usize>)
    ensures
        r@.len() == preds_spec(succs(blocks@), index as int, blocks@.len() as int).len(),
        forall|j: int| 0 <= j < r@.len() ==> r@[j] as int == #[trigger] preds_spec(succs(blocks@), index as int, blocks@.len() as int)[j],
{
    let ghost g = succs(blocks@);
    let mut preds: Vec<usize> = Vec::new();
    let mut candidate: usize = 0;
    while candidate < blocks.len()
        invariant
            candidate <= blocks@.len(),
            g == succs(blocks@),
            preds@.len() == preds_spec(g, index as int, candidate as int).len(),
            forall|j: int| 0 <= j < preds@.len() ==> preds@[j] as int == #[trigger] preds_spec(g, index as int, candidate as int)[j],
        decreases blocks.len() - candidate,
    {
        let ts = terminator_targets(&blocks[candidate].terminator);
        assert(ts@ == g[candidate as int]);
        let mut found = false;
        let mut k: usize = 0;
        while k < ts.len()
            invariant
                k <= ts@.len(),
                found == exists|m: int| 0 <= m < k && ts@[m] as int == index as int,
            decreases ts.len() - k,
        {
            if ts[k] as usize == index {
                found = true;
            }
            k = k + 1;
        }
        let ghost before = preds@;
        if found {
            preds.push(candidate);
        }
        assert forall|j: int| 0 <= j < preds@.len() implies preds@[j] as int == #[trigger] preds_spec(
            g,
            index as int,
            candidate + 1,
        )[j] by {
            if j < before.len() {
                assert(preds@[j] == before[j]);
            }
        }
        candidate = candidate + 1;
    }
    preds
}

/// The flow into a block from the predecessors `ps`, starting from `acc`:
/// each reachable predecessor's exit set, intersected.
pub open spec fn incoming_spec(
    blocks: Seq<BasicBlock<Statement>>,
    reach: Seq<bool>,
    e: Seq<Set<u32>>,
    acc: Option<Set<u32>>,
    ps: Seq<int>,
) -> Option<Set<u32>>
    decreases ps.len(),
{
    if ps.len() == 0 {
        acc
    } else {
        let prev = incoming_spec(blocks, reach, e, acc, ps.drop_last());
        let p = ps.last();
        if reach[p] {
            let x = exit_spec(blocks[p].statements@, e[p]);
            Some(
                match prev {
                    Some(a) => a.intersect(x),
                    None => x,
                },
            )
        } else {
            prev
        }
    }
}

/// The locals below `n`.
pub open spec fn below(n: u32) -> Set<u32> {
    Set::new(|x: u32| x < n)
}

/// The entry set the flow equations give block `b`, from the entry sets `e`
/// of the other blocks: the parameters (for block 0) intersected with every
/// reachable predecessor's exit set; empty for a block with neither.
pub open spec fn flow(
    blocks: Seq<BasicBlock<Statement>>,
    reach: Seq<bool>,
    e: Seq<Set<u32>>,
    param_count: u32,
    b: int,
) -> Set<u32> {
    let start = if b == 0 {
        Some(below(param_count))
    } else {
        None
    };
    match incoming_spec(blocks, reach, e, start, preds_spec(succs(blocks), b, blocks.len() as int)) {
        Some(s) => s,
        None => Set::empty(),
    }
}

/// The largest entry set a block can have: the parameters for block 0, all
/// locals for the others.
pub open spec fn top(b: int, param_count: u32, local_count: u32) -> Set<u32> {
    if b == 0 {
        below(param_count)
    } else {
        below(local_count)
    }
}

/// Entry sets `x` no larger than `top` that the flow equations can only
/// grow: every such assignment lies below the greatest solution.
pub open spec fn post_fixed(
    blocks: Seq<BasicBlock<Statement>>,
    reach: Seq<bool>,
    x: Seq<Set<u32>>,
    param_count: u32,
    local_count: u32,
) -> bool {
    &&& x.len() == blocks.len()
    &&& forall|b: int|
        0 <= b < blocks.len() && reach[b] ==> (#[trigger] x[b]).subset_of(top(b, param_count, local_count))
            && x[b].subset_of(flow(blocks, reach, x, param_count, b))
}

/// A larger initialized set stays larger through a statement sequence.
proof fn lemma_exit_mono(stmts: Seq<Statement>, a: Set<u32>, b: Set<u32>)
    requires
        a.subset_of(b),
    ensures
        exit_spec(stmts, a).subset_of(exit_spec(stmts, b)),
    decreases stmts.len(),
{
    if stmts.len() > 0 {
        lemma_exit_mono(stmts.drop_last(), a, b);
    }
}

/// Statements over locals below `n` keep a set of locals below `n` there.
proof fn lemma_exit_bound(stmts: Seq<Statement>, a: Set<u32>, n: u32)
    requires
        a.subset_of(below(n)),
        forall|i: int| 0 <= i < stmts.len() ==> statement_in_range(#[trigger] stmts[i], n as nat),
    ensures
        exit_spec(stmts, a).subset_of(below(n)),
    decreases stmts.len(),
{
    if stmts.len() > 0 {
        assert forall|i: int| 0 <= i < stmts.drop_last().len() implies statement_in_range(
            #[trigger] stmts.drop_last()[i],
            n as nat,
        ) by {
            assert(stmts.drop_last()[i] == stmts[i]);
        }
        lemma_exit_bound(stmts.drop_last(), a, n);
        let s = stmts.last();
        assert(statement_in_range(stmts[stmts.len() - 1], n as nat));
        assert forall|x: u32| #[trigger] statement_defined(s).to_set().contains(x) implies x < n by {
            let m = statement_defined(s).index_of(x);
            assert(statement_defined(s)[m] < n);
        }
    }
}

/// The flow from smaller entry sets is smaller.
proof fn lemma_incoming_mono(
    blocks: Seq<BasicBlock<Statement>>,
    reach: Seq<bool>,
    e1: Seq<Set<u32>>,
    e2: Seq<Set<u32>>,
    acc1: Option<Set<u32>>,
    acc2: Option<Set<u32>>,
    ps: Seq<int>,
)
    requires
        acc1 is Some == acc2 is Some,
        acc1 is Some ==> acc1->Some_0.subset_of(acc2->Some_0),
        forall|j: int| 0 <= j < ps.len() && reach[ps[j]] ==> (#[trigger] e1[ps[j]]).subset_of(e2[ps[j]]),
    ensures
        incoming_spec(blocks, reach, e1, acc1, ps) is Some == incoming_spec(blocks, reach, e2, acc2, ps) is Some,
        incoming_spec(blocks, reach, e1, acc1, ps) is Some ==> incoming_spec(blocks, reach, e1, acc1, ps)->Some_0.subset_of(
            incoming_spec(blocks, reach, e2, acc2, ps)->Some_0,
        ),
    decreases ps.len(),
{
    if ps.len() > 0 {
        assert forall|j: int| 0 <= j < ps.drop_last().len() && reach[ps.drop_last()[j]] implies (#[trigger] e1[ps.drop_last()[j]]).subset_of(
            e2[ps.drop_last()[j]],
        ) by {
            assert(ps.drop_last()[j] == ps[j]);
        }
        lemma_incoming_mono(blocks, reach, e1, e2, acc1, acc2, ps.drop_last());
        let p = ps.last();
        if reach[p] {
            assert(e1[ps[ps.len() - 1]].subset_of(e2[ps[ps.len() - 1]]));
            lemma_exit_mono(blocks[p].statements@, e1[p], e2[p]);
        }
    }
}

/// The flow from a starting set stays inside it; the flow from entry sets
/// of locals below `n` stays below `n`.
proof fn lemma_incoming_bound(
    blocks: Seq<BasicBlock<Statement>>,
    reach: Seq<bool>,
    e: Seq<Set<u32>>,
    acc: Option<Set<u32>>,
    ps: Seq<int>,
    n: u32,
)
    requires
        blocks_in_range(blocks, n as nat),
        forall|j: int| 0 <= j < ps.len() ==> 0 <= #[trigger] ps[j] < blocks.len(),
        forall|j: int| 0 <= j < ps.len() && reach[ps[j]] ==> (#[trigger] e[ps[j]]).subset_of(below(n)),
    ensures
        acc is Some ==> incoming_spec(blocks, reach, e, acc, ps) is Some && incoming_spec(blocks, reach, e, acc, ps)->Some_0.subset_of(
            acc->Some_0,
        ),
        (acc is Some ==> acc->Some_0.subset_of(below(n))) ==> (incoming_spec(blocks, reach, e, acc, ps) is Some
            ==> incoming_spec(blocks, reach, e, acc, ps)->Some_0.subset_of(below(n))),
    decreases ps.len(),
{
    if ps.len() > 0 {
        assert forall|j: int| 0 <= j < ps.drop_last().len() implies 0 <= #[trigger] ps.drop_last()[j] < blocks.len() by {
            assert(ps.drop_last()[j] == ps[j]);
        }
        assert forall|j: int| 0 <= j < ps.drop_last().len() && reach[ps.drop_last()[j]] implies (#[trigger] e[ps.drop_last()[j]]).subset_of(
            below(n),
        ) by {
            assert(ps.drop_last()[j] == ps[j]);
        }
        lemma_incoming_bound(blocks, reach, e, acc, ps.drop_last(), n);
        let p = ps.last();
        assert(0 <= ps[ps.len() - 1] < blocks.len());
        if reach[p] {
            assert(e[ps[ps.len() - 1]].subset_of(below(n)));
            assert forall|i: int| 0 <= i < blocks[p].statements@.len() implies statement_in_range(
                #[trigger] blocks[p].statements@[i],
                n as nat,
            ) by {}
            lemma_exit_bound(blocks[p].statements@, e[p], n);
        }
    }
}

/// Smaller entry sets give a smaller flow.
proof fn lemma_flow_mono(
    blocks: Seq<BasicBlock<Statement>>,
    reach: Seq<bool>,
    e1: Seq<Set<u32>>,
    e2: Seq<Set<u32>>,
    param_count: u32,
    b: int,
)
    requires
        forall|p: int| 0 <= p < blocks.len() && reach[p] ==> (#[trigger] e1[p]).subset_of(e2[p]),
    ensures
        flow(blocks, reach, e1, param_count, b).subset_of(flow(blocks, reach, e2, param_count, b)),
{
    let ps = preds_spec(succs(blocks), b, blocks.len() as int);
    lemma_preds_range(succs(blocks), b, blocks.len() as int);
    let start = if b == 0 {
        Some(below(param_count))
    } else {
        None
    };
    assert forall|j: int| 0 <= j < ps.len() && reach[ps[j]] implies (#[trigger] e1[ps[j]]).subset_of(e2[ps[j]]) by {
        assert(0 <= ps[j] < blocks.len());
    }
    lemma_incoming_mono(blocks, reach, e1, e2, start, start, ps);
}

/// The flow into a block never exceeds its `top`, when every reachable
/// block's entry set is within all locals.
proof fn lemma_flow_bound(
    blocks: Seq<BasicBlock<Statement>>,
    reach: Seq<bool>,
    e: Seq<Set<u32>>,
    param_count: u32,
    local_count: u32,
    b: int,
)
    requires
        param_count <= local_count,
        blocks_in_range(blocks, local_count as nat),
        forall|p: int| 0 <= p < blocks.len() && reach[p] ==> (#[trigger] e[p]).subset_of(below(local_count)),
    ensures
        flow(blocks, reach, e, param_count, b).subset_of(top(b, param_count, local_count)),
{
    let ps = preds_spec(succs(blocks), b, blocks.len() as int);
    lemma_preds_range(succs(blocks), b, blocks.len() as int);
    let start = if b == 0 {
        Some(below(param_count))
    } else {
        None
    };
    assert forall|j: int| 0 <= j < ps.len() && reach[ps[j]] implies (#[trigger] e[ps[j]]).subset_of(below(local_count)) by {
        assert(0 <= ps[j] < blocks.len());
    }
    assert(below(param_count).subset_of(below(local_count)));
    lemma_incoming_bound(blocks, reach, e, start, ps, local_count);
}

// ---------------------------------------------------------------------------
// Bitsets.
// ---------------------------------------------------------------------------

/// The number of set bits.
pub open spec fn count(v: Seq<bool>) -> nat
    decreases v.len(),
{
    if v.len() == 0 {
        0
    } else {
        count(v.drop_last()) + if v.last() {
            1nat
        } else {
            0nat
        }
    }
}

/// The set bits of all present entries.
pub open spec fn total(e: Seq<Option<Vec<bool>>>) -> nat
    decreases e.len(),
{
    if e.len() == 0 {
        0
    } else {
        total(e.drop_last()) + match e.last() {
            Some(v) => count(v@),
            None => 0,
        }
    }
}

/// The sets a vector of optional bitsets holds; empty where absent.
pub open spec fn entry_sets(e: Seq<Option<Vec<bool>>>) -> Seq<Set<u32>> {
    Seq::new(
        e.len(),
        |b: int|
            match e[b] {
                Some(v) => members(v@),
                None => Set::empty(),
            },
    )
}

/// Clearing bits lowers the count; clearing a set bit lowers it strictly.
proof fn lemma_count_sub(v: Seq<bool>, w: Seq<bool>)
    requires
        v.len() == w.len(),
        forall|i: int| 0 <= i < w.len() && #[trigger] w[i] ==> v[i],
    ensures
        count(w) <= count(v),
        (exists|i: int| 0 <= i < v.len() && v[i] && !w[i]) ==> count(w) < count(v),
    decreases v.len(),
{
    if v.len() > 0 {
        assert forall|i: int| 0 <= i < w.drop_last().len() && #[trigger] w.drop_last()[i] implies v.drop_last()[i] by {
            assert(w[i]);
        }
        lemma_count_sub(v.drop_last(), w.drop_last());
        if exists|i: int| 0 <= i < v.len() && v[i] && !w[i] {
            let i = choose|i: int| 0 <= i < v.len() && v[i] && !w[i];
            if i < v.len() - 1 {
                assert(v.drop_last()[i] && !w.drop_last()[i]);
            }
        }
    }
}

/// Replacing one present entry changes the total by the difference.
proof fn lemma_total_update(e: Seq<Option<Vec<bool>>>, i: int, w: Vec<bool>)
    requires
        0 <= i < e.len(),
        e[i] is Some,
    ensures
        total(e.update(i, Some(w))) + count(e[i]->Some_0@) == total(e) + count(w@),
    decreases e.len(),
{
    let u = e.update(i, Some(w));
    if i < e.len() - 1 {
        assert(u.drop_last() =~= e.drop_last().update(i, Some(w)));
        lemma_total_update(e.drop_last(), i, w);
        assert(u.last() == e.last());
    } else {
        assert(u.drop_last() =~= e.drop_last());
    }
}

/// A bitset of `n` bits holding the locals below `k`.
fn bits_below(k: u32, n: u32) -> (r: Vec<bool>)
    requires
        k <= n,
    ensures
        r@.len() == n,
        members(r@) == below(k),
{
    let mut v: Vec<bool> = Vec::new();
    while v.len() < n as usize
        invariant
            v@.len() <= n,
            k <= n,
            forall|x: int| 0 <= x < v@.len() ==> #[trigger] v@[x] == (x < k),
        decreases n - v.len(),
    {
        let x = v.len();
        v.push((x as u32) < k);
    }
    assert(members(v@) =~= below(k));
    v
}

/// A copy of a bitset.
fn copy_bits(a: &Vec<bool>) -> (r: Vec<bool>)
    ensures
        r@ == a@,
{
    let mut v: Vec<bool> = Vec::new();
    let mut i: usize = 0;
    while i < a.len()
        invariant
            i <= a@.len(),
            v@ == a@.take(i as int),
        decreases a.len() - i,
    {
        v.push(a[i]);
        assert(a@.take(i + 1) =~= a@.take(i as int).push(a@[i as int]));
        i = i + 1;
    }
    assert(a@.take(i as int) =~= a@);
    v
}

/// The intersection of two bitsets of one length.
fn and_bits(a: &Vec<bool>, b: &Vec<bool>) -> (r: Vec<bool>)
    requires
        a@.len() == b@.len(),
    ensures
        r@.len() == a@.len(),
        members(r@) == members(a@).intersect(members(b@)),
{
    let mut v: Vec<bool> = Vec::new();
    let mut i: usize = 0;
    while i < a.len()
        invariant
            i <= a@.len(),
            a@.len() == b@.len(),
            v@.len() == i,
            forall|x: int| 0 <= x < i ==> #[trigger] v@[x] == (a@[x] && b@[x]),
        decreases a.len() - i,
    {
        v.push(a[i] && b[i]);
        i = i + 1;
    }
    assert(members(v@) =~= members(a@).intersect(members(b@)));
    v
}

/// Whether two bitsets are equal.
fn same_bits(a: &Vec<bool>, b: &Vec<bool>) -> (r: bool)
    ensures
        r == (a@ == b@),
{
    if a.len() != b.len() {
        return false;
    }
    let mut i: usize = 0;
    while i < a.len()
        invariant
            i <= a@.len(),
            a@.len() == b@.len(),
            forall|x: int| 0 <= x < i ==> a@[x] == b@[x],
        decreases a.len() - i,
    {
        if a[i] != b[i] {
            return false;
        }
        i = i + 1;
    }
    assert(a@ =~= b@);
    true
}

// ---------------------------------------------------------------------------
// Solving the flow equations.
// ---------------------------------------------------------------------------

/// Every reachable block's entry set is within its `top`.
pub open spec fn bounded(
    blocks: Seq<BasicBlock<Statement>>,
    reach: Seq<bool>,
    e: Seq<Set<u32>>,
    param_count: u32,
    local_count: u32,
) -> bool {
    forall|b: int| 0 <= b < blocks.len() && reach[b] ==> (#[trigger] e[b]).subset_of(top(b, param_count, local_count))
}

/// The flow equations can only shrink the entry sets.
pub open spec fn shrinking(blocks: Seq<BasicBlock<Statement>>, reach: Seq<bool>, e: Seq<Set<u32>>, param_count: u32) -> bool {
    forall|b: int| 0 <= b < blocks.len() && reach[b] ==> #[trigger] flow(blocks, reach, e, param_count, b).subset_of(e[b])
}

/// The entry sets hold every assignment the flow equations can only grow.
pub open spec fn above_post_fixed(
    blocks: Seq<BasicBlock<Statement>>,
    reach: Seq<bool>,
    e: Seq<Set<u32>>,
    param_count: u32,
    local_count: u32,
) -> bool {
    forall|x: Seq<Set<u32>>, b: int|
        #![trigger post_fixed(blocks, reach, x, param_count, local_count), x[b]]
        post_fixed(blocks, reach, x, param_count, local_count) && 0 <= b < blocks.len() && reach[b]
            ==> x[b].subset_of(e[b])
}

/// Every reachable block's entry set is what the flow equations give it.
pub open spec fn solved(blocks: Seq<BasicBlock<Statement>>, reach: Seq<bool>, e: Seq<Set<u32>>, param_count: u32) -> bool {
    forall|b: int| 0 <= b < blocks.len() && reach[b] ==> #[trigger] e[b] == flow(blocks, reach, e, param_count, b)
}

/// Replacing a reachable block's entry set by its flow keeps the entry sets
/// bounded, shrinking, and above every post-fixed assignment, and does not
/// grow it.
proof fn lemma_update_step(
    blocks: Seq<BasicBlock<Statement>>,
    reach: Seq<bool>,
    e: Seq<Set<u32>>,
    param_count: u32,
    local_count: u32,
    index: int,
)
    requires
        param_count <= local_count,
        blocks_in_range(blocks, local_count as nat),
        e.len() == blocks.len(),
        0 <= index < blocks.len(),
        reach[index],
        bounded(blocks, reach, e, param_count, local_count),
        shrinking(blocks, reach, e, param_count),
        above_post_fixed(blocks, reach, e, param_count, local_count),
    ensures
        flow(blocks, reach, e, param_count, index).subset_of(e[index]),
        bounded(blocks, reach, e.update(index, flow(blocks, reach, e, param_count, index)), param_count, local_count),
        shrinking(blocks, reach, e.update(index, flow(blocks, reach, e, param_count, index)), param_count),
        above_post_fixed(
            blocks,
            reach,
            e.update(index, flow(blocks, reach, e, param_count, index)),
            param_count,
            local_count,
        ),
{
    let new = flow(blocks, reach, e, param_count, index);
    let e2 = e.update(index, new);
    assert(new.subset_of(e[index]));
    assert forall|p: int| 0 <= p < blocks.len() && reach[p] implies (#[trigger] e[p]).subset_of(below(local_count)) by {
        assert(e[p].subset_of(top(p, param_count, local_count)));
        assert(below(param_count).subset_of(below(local_count)));
    }
    lemma_flow_bound(blocks, reach, e, param_count, local_count, index);
    assert forall|p: int| 0 <= p < blocks.len() && reach[p] implies (#[trigger] e2[p]).subset_of(e[p]) by {}
    assert forall|b: int| 0 <= b < blocks.len() && reach[b] implies #[trigger] flow(blocks, reach, e2, param_count, b).subset_of(
        e2[b],
    ) by {
        lemma_flow_mono(blocks, reach, e2, e, param_count, b);
        assert(flow(blocks, reach, e, param_count, b).subset_of(e[b]));
    }
    assert forall|x: Seq<Set<u32>>, b: int|
        #![trigger post_fixed(blocks, reach, x, param_count, local_count), x[b]]
        post_fixed(blocks, reach, x, param_count, local_count) && 0 <= b < blocks.len() && reach[b] implies x[b].subset_of(
            e2[b],
        ) by {
        if b == index {
            assert forall|p: int| 0 <= p < blocks.len() && reach[p] implies (#[trigger] x[p]).subset_of(e[p]) by {
                assert(post_fixed(blocks, reach, x, param_count, local_count) && 0 <= p < blocks.len() && reach[p]);
            }
            lemma_flow_mono(blocks, reach, x, e, param_count, index);
            assert(x[index].subset_of(flow(blocks, reach, x, param_count, index)));
        } else {
            assert(x[b].subset_of(e[b]));
        }
    }
}

/// Entry sets that solve the flow equations, lie within `top`, hold every
/// assignment the equations can only grow, and are empty for unreachable
/// blocks.
pub open spec fn is_solution(blocks: Seq<BasicBlock<Statement>>, param_count: u32, local_count: u32, e: Seq<Set<u32>>) -> bool {
    let reach = reach_flags(succs(blocks));
    &&& e.len() == blocks.len()
    &&& forall|b: int| 0 <= b < blocks.len() && !reach[b] ==> #[trigger] e[b] == Set::<u32>::empty()
    &&& solved(blocks, reach, e, param_count)
    &&& bounded(blocks, reach, e, param_count, local_count)
    &&& above_post_fixed(blocks, reach, e, param_count, local_count)
}

/// The entry sets of the definite-initialization analysis: the greatest
/// solution of the flow equations below `top`.
pub open spec fn init_solution(blocks: Seq<BasicBlock<Statement>>, param_count: u32, local_count: u32) -> Seq<Set<u32>> {
    choose|e: Seq<Set<u32>>| is_solution(blocks, param_count, local_count, e)
}

/// The greatest solution is unique.
pub proof fn lemma_solution_unique(
    blocks: Seq<BasicBlock<Statement>>,
    param_count: u32,
    local_count: u32,
    e1: Seq<Set<u32>>,
    e2: Seq<Set<u32>>,
)
    requires
        is_solution(blocks, param_count, local_count, e1),
        is_solution(blocks, param_count, local_count, e2),
    ensures
        e1 == e2,
{
    let reach = reach_flags(succs(blocks));
    assert(post_fixed(blocks, reach, e1, param_count, local_count));
    assert(post_fixed(blocks, reach, e2, param_count, local_count));
    assert forall|b: int| 0 <= b < e1.len() implies e1[b] == e2[b] by {
        if reach[b] {
            assert(post_fixed(blocks, reach, e1, param_count, local_count) && 0 <= b < blocks.len() && reach[b]);
            assert(e1[b].subset_of(e2[b]));
            assert(post_fixed(blocks, reach, e2, param_count, local_count) && 0 <= b < blocks.len() && reach[b]);
            assert(e2[b].subset_of(e1[b]));
            assert(e1[b] =~= e2[b]);
        }
    }
    assert(e1 =~= e2);
}

/// The definitely-initialized set on entry to each block: `None` for a
/// block the entry cannot reach, otherwise the greatest solution of the
/// flow equations below `top`, as a bitset over the locals.
///
/// Every reachable block but the entry starts at all locals, the entry at
/// the parameters; sweeping the reachable blocks in order, each is replaced
/// by its flow until a sweep changes nothing. The updates only ever shrink
/// the sets, so the sweeps end.
pub fn solve_init(blocks: &Vec<BasicBlock<Statement>>, param_count: u32, local_count: u32) -> (r: Vec<Option<Vec<bool>>>)
    requires
        param_count <= local_count,
        blocks@.len() <= u32::MAX,
        targets_in_range(succs(blocks@)),
        blocks_in_range(blocks@, local_count as nat),
    ensures
        r@.len() == blocks@.len(),
        forall|b: int| 0 <= b < blocks@.len() ==> (#[trigger] r@[b] is Some) == reach_flags(succs(blocks@))[b],
        forall|b: int| 0 <= b < blocks@.len() && r@[b] is Some ==> (#[trigger] r@[b])->Some_0@.len() == local_count,
        solved(blocks@, reach_flags(succs(blocks@)), entry_sets(r@), param_count),
        bounded(blocks@, reach_flags(succs(blocks@)), entry_sets(r@), param_count, local_count),
        above_post_fixed(blocks@, reach_flags(succs(blocks@)), entry_sets(r@), param_count, local_count),
        entry_sets(r@) == init_solution(blocks@, param_count, local_count),
{
    let n = blocks.len();
    if n == 0 {
        let r: Vec<Option<Vec<bool>>> = Vec::new();
        proof {
            assert(is_solution(blocks@, param_count, local_count, entry_sets(r@)));
            lemma_solution_unique(blocks@, param_count, local_count, entry_sets(r@), init_solution(blocks@, param_count, local_count));
        }
        return r;
    }
    let ghost bs = blocks@;
    let ghost reach = reach_flags(succs(blocks@));
    let params = bits_below(param_count, local_count);
    let all = bits_below(local_count, local_count);
    let reachable = reachable_blocks(blocks);
    let mut entry: Vec<Option<Vec<bool>>> = Vec::new();
    let mut b: usize = 0;
    while b < n
        invariant
            b <= n,
            n == bs.len(),
            reachable@ == reach,
            reach.len() == n,
            params@.len() == local_count,
            all@.len() == local_count,
            members(params@) == below(param_count),
            members(all@) == below(local_count),
            entry@.len() == b,
            forall|c: int| 0 <= c < b ==> (#[trigger] entry@[c] is Some) == reach[c],
            forall|c: int| 0 <= c < b && entry@[c] is Some ==> (#[trigger] entry@[c])->Some_0@.len() == local_count,
            forall|c: int| 0 <= c < b && reach[c] ==> #[trigger] entry_sets(entry@)[c] == top(c, param_count, local_count),
        decreases n - b,
    {
        let ghost before = entry@;
        if reachable[b] {
            let seed = if b == 0 {
                copy_bits(&params)
            } else {
                copy_bits(&all)
            };
            assert(members(seed@) == top(b as int, param_count, local_count));
            entry.push(Some(seed));
            assert(entry_sets(entry@)[b as int] == members(seed@));
        } else {
            entry.push(None);
        }
        assert forall|c: int| 0 <= c < b + 1 && reach[c] implies #[trigger] entry_sets(entry@)[c] == top(c, param_count, local_count) by {
            if c < b {
                assert(entry@[c] == before[c]);
                assert(entry_sets(before)[c] == top(c, param_count, local_count));
                assert(entry_sets(entry@)[c] == members(entry@[c]->Some_0@));
            }
        }
        b = b + 1;
    }
    proof {
        let e = entry_sets(entry@);
        assert forall|c: int| 0 <= c < bs.len() && reach[c] implies (#[trigger] e[c]).subset_of(below(local_count)) by {
            assert(below(param_count).subset_of(below(local_count)));
        }
        assert forall|c: int| 0 <= c < bs.len() && reach[c] implies #[trigger] flow(bs, reach, e, param_count, c).subset_of(
            e[c],
        ) by {
            lemma_flow_bound(bs, reach, e, param_count, local_count, c);
        }
        assert forall|x: Seq<Set<u32>>, c: int|
            #![trigger post_fixed(bs, reach, x, param_count, local_count), x[c]]
            post_fixed(bs, reach, x, param_count, local_count) && 0 <= c < bs.len() && reach[c] implies x[c].subset_of(
                e[c],
            ) by {}
    }
    let mut changed = true;
    while changed
        invariant
            n == bs.len(),
            bs == blocks@,
            0 < n <= u32::MAX,
            param_count <= local_count,
            targets_in_range(succs(bs)),
            blocks_in_range(bs, local_count as nat),
            reachable@ == reach,
            reach == reach_flags(succs(bs)),
            reach.len() == n,
            params@.len() == local_count,
            members(params@) == below(param_count),
            entry@.len() == n,
            forall|c: int| 0 <= c < n ==> (#[trigger] entry@[c] is Some) == reach[c],
            forall|c: int| 0 <= c < n && entry@[c] is Some ==> (#[trigger] entry@[c])->Some_0@.len() == local_count,
            bounded(bs, reach, entry_sets(entry@), param_count, local_count),
            shrinking(bs, reach, entry_sets(entry@), param_count),
            above_post_fixed(bs, reach, entry_sets(entry@), param_count, local_count),
            !changed ==> solved(bs, reach, entry_sets(entry@), param_count),
        decreases total(entry@), (if changed { 1int } else { 0int }),
    {
        changed = false;
        let ghost start = entry@;
        let mut index: usize = 0;
        while index < n
            invariant
                index <= n,
                n == bs.len(),
                bs == blocks@,
                param_count <= local_count,
                targets_in_range(succs(bs)),
                blocks_in_range(bs, local_count as nat),
                reachable@ == reach,
                reach == reach_flags(succs(bs)),
                reach.len() == n,
                params@.len() == local_count,
                members(params@) == below(param_count),
                entry@.len() == n,
                forall|c: int| 0 <= c < n ==> (#[trigger] entry@[c] is Some) == reach[c],
                forall|c: int| 0 <= c < n && entry@[c] is Some ==> (#[trigger] entry@[c])->Some_0@.len() == local_count,
                bounded(bs, reach, entry_sets(entry@), param_count, local_count),
                shrinking(bs, reach, entry_sets(entry@), param_count),
                above_post_fixed(bs, reach, entry_sets(entry@), param_count, local_count),
                total(entry@) <= total(start),
                changed ==> total(entry@) < total(start),
                !changed ==> entry@ == start,
                !changed ==> forall|c: int| 0 <= c < index && reach[c] ==> #[trigger] entry_sets(entry@)[c] == flow(
                    bs,
                    reach,
                    entry_sets(entry@),
                    param_count,
                    c,
                ),
            decreases n - index,
        {
            if reachable[index] {
                let ghost e = entry_sets(entry@);
                let ghost ps = preds_spec(succs(bs), index as int, n as int);
                let ghost start_acc = if index == 0 {
                    Some(below(param_count))
                } else {
                    None
                };
                let mut incoming: Option<Vec<bool>> = if index == 0 {
                    Some(copy_bits(&params))
                } else {
                    None
                };
                let preds = predecessors(blocks, index);
                proof {
                    lemma_preds_range(succs(bs), index as int, n as int);
                }
                let mut j: usize = 0;
                assert(ps.take(0) =~= Seq::<int>::empty());
                while j < preds.len()
                    invariant
                        j <= preds@.len(),
                        n == bs.len(),
                        bs == blocks@,
                        preds@.len() == ps.len(),
                        forall|k: int| 0 <= k < preds@.len() ==> preds@[k] as int == #[trigger] ps[k],
                        forall|k: int| 0 <= k < ps.len() ==> 0 <= #[trigger] ps[k] < n,
                        blocks_in_range(bs, local_count as nat),
                        entry@.len() == n,
                        e == entry_sets(entry@),
                        forall|c: int| 0 <= c < n ==> (#[trigger] entry@[c] is Some) == reach[c],
                        forall|c: int| 0 <= c < n && entry@[c] is Some ==> (#[trigger] entry@[c])->Some_0@.len() == local_count,
                        incoming is Some ==> incoming->Some_0@.len() == local_count,
                        match incoming {
                            Some(v) => incoming_spec(bs, reach, e, start_acc, ps.take(j as int)) == Some(members(v@)),
                            None => incoming_spec(bs, reach, e, start_acc, ps.take(j as int)) is None,
                        },
                    decreases preds.len() - j,
                {
                    let pred = preds[j];
                    assert(pred as int == ps[j as int]);
                    assert(ps.take(j + 1).drop_last() =~= ps.take(j as int));
                    assert(ps.take(j + 1).last() == ps[j as int]);
                    match &entry[pred] {
                        None => {},
                        Some(pe) => {
                            proof {
                                assert forall|i: int| 0 <= i < blocks@[pred as int].statements@.len() implies statement_in_range(
                                    #[trigger] blocks@[pred as int].statements@[i],
                                    pe@.len(),
                                ) by {
                                    assert(pe@.len() == local_count);
                                }
                            }
                            let exit = exit_set(&blocks[pred], pe);
                            assert(e[pred as int] == members(pe@));
                            incoming = match incoming {
                                Some(acc) => Some(and_bits(&acc, &exit)),
                                None => Some(exit),
                            };
                        },
                    }
                    j = j + 1;
                }
                assert(ps.take(j as int) =~= ps);
                let new = match incoming {
                    Some(v) => v,
                    None => bits_below(0, local_count),
                };
                proof {
                    assert(members(new@) == flow(bs, reach, e, param_count, index as int)) by {
                        assert(below(0) =~= Set::<u32>::empty());
                    }
                    lemma_update_step(bs, reach, e, param_count, local_count, index as int);
                }
                let differs = match &entry[index] {
                    Some(cur) => !same_bits(cur, &new),
                    None => true,
                };
                if differs {
                    let ghost old_entry = entry@;
                    let ghost cur = entry@[index as int]->Some_0;
                    proof {
                        assert(members(new@).subset_of(members(cur@)));
                        assert forall|i: int| 0 <= i < new@.len() && #[trigger] new@[i] implies cur@[i] by {
                            assert(members(new@).contains(i as u32));
                        }
                        assert(cur@.len() == new@.len());
                        assert(cur@ != new@);
                        if forall|i: int| 0 <= i < cur@.len() ==> cur@[i] == new@[i] {
                            assert(cur@ =~= new@);
                        }
                        let i = choose|i: int| 0 <= i < cur@.len() && cur@[i] != new@[i];
                        assert(cur@[i] && !new@[i]);
                        lemma_count_sub(cur@, new@);
                        lemma_total_update(old_entry, index as int, new);
                    }
                    entry.set(index, Some(new));
                    changed = true;
                    proof {
                        assert(entry_sets(entry@) =~= e.update(index as int, flow(bs, reach, e, param_count, index as int)));
                    }
                } else {
                    proof {
                        let cur = entry@[index as int]->Some_0;
                        assert(cur@ == new@);
                        if !changed {
                            assert(entry_sets(entry@)[index as int] == flow(bs, reach, entry_sets(entry@), param_count, index as int));
                        }
                    }
                }
            }
            index = index + 1;
        }
    }
    proof {
        let e = entry_sets(entry@);
        assert forall|c: int| 0 <= c < bs.len() && !reach[c] implies #[trigger] e[c] == Set::<u32>::empty() by {
            assert(entry@[c] is None);
        }
        assert(is_solution(bs, param_count, local_count, e));
        lemma_solution_unique(bs, param_count, local_count, e, init_solution(bs, param_count, local_count));
    }
    entry
}

// ---------------------------------------------------------------------------
// Reads.
// ---------------------------------------------------------------------------

/// How a read uses the local it names.
#[derive(Clone, Copy, PartialEq, Eq, Structural, Debug)]
pub enum ReadKind {
    /// A `Copy` read leaves the local initialized.
    Copy,
    /// A `Move` or `Drop` ends the local's initialization.
    Consume,
    /// A borrow reads without consuming.
    Borrow,
}

/// The read an operand makes, if it names a place.
pub open spec fn operand_reads(o: Operand) -> Seq<(u32, ReadKind)> {
    match o {
        Operand::Copy(p) => seq![(p.local.0, ReadKind::Copy)],
        Operand::Move(p) => seq![(p.local.0, ReadKind::Consume)],
        Operand::Const(_) => seq![],
    }
}

/// The reads of the operands, in order.
pub open spec fn operands_reads(os: Seq<Operand>) -> Seq<(u32, ReadKind)>
    decreases os.len(),
{
    if os.len() == 0 {
        seq![]
    } else {
        operands_reads(os.drop_last()) + operand_reads(os.last())
    }
}

/// The read a call argument makes.
pub open spec fn arg_reads(a: Arg) -> Seq<(u32, ReadKind)> {
    match a {
        Arg::Value(o) => operand_reads(o),
        Arg::Borrow(p) => seq![(p.local.0, ReadKind::Borrow)],
        Arg::BorrowMut(p) => seq![(p.local.0, ReadKind::Borrow)],
    }
}

/// The reads of the arguments, in order.
pub open spec fn args_reads(args: Seq<Arg>) -> Seq<(u32, ReadKind)>
    decreases args.len(),
{
    if args.len() == 0 {
        seq![]
    } else {
        args_reads(args.drop_last()) + arg_reads(args.last())
    }
}

/// The reads an rvalue makes, in order.
pub open spec fn rvalue_reads(r: Rvalue) -> Seq<(u32, ReadKind)> {
    match r {
        Rvalue::Use(o) => operand_reads(o),
        Rvalue::Unary { operand, .. } => operand_reads(operand),
        Rvalue::Cast { operand, .. } => operand_reads(operand),
        Rvalue::Binary { lhs, rhs, .. } => operand_reads(lhs) + operand_reads(rhs),
        Rvalue::Aggregate { fields, .. } => operands_reads(fields@),
        Rvalue::StrOp { args, .. } => operands_reads(args@),
        Rvalue::HeapOp { subject, args, .. } => match subject {
            Some(p) => seq![(p.local.0, ReadKind::Borrow)] + operands_reads(args@),
            None => operands_reads(args@),
        },
        Rvalue::Discriminant(p) => seq![(p.local.0, ReadKind::Borrow)],
        Rvalue::Len(p) => seq![(p.local.0, ReadKind::Borrow)],
    }
}

/// The reads a statement makes, in order.
pub open spec fn statement_reads(s: Statement) -> Seq<(u32, ReadKind)> {
    match s {
        Statement::Assign { rvalue, .. } => rvalue_reads(rvalue),
        Statement::Call { callee, args, .. } => match callee {
            Callee::Indirect(o) => operand_reads(o) + args_reads(args@),
            Callee::Direct(_) => args_reads(args@),
        },
        Statement::Effect { args, .. } => args_reads(args@),
        Statement::HeapMutate { target, args, .. } => seq![(target.local.0, ReadKind::Borrow)] + operands_reads(
            args@,
        ),
        Statement::Drop { place } => seq![(place.local.0, ReadKind::Consume)],
    }
}

/// The reads a terminator makes.
pub open spec fn terminator_reads(t: Terminator) -> Seq<(u32, ReadKind)> {
    match t {
        Terminator::Return(o) => operand_reads(o),
        Terminator::Branch { cond, .. } => operand_reads(cond),
        Terminator::Assert { cond, .. } => operand_reads(cond),
        Terminator::Switch { discr, .. } => operand_reads(discr),
        Terminator::Goto(_) => seq![],
        Terminator::Trap(_) => seq![],
    }
}

/// The locals and kinds of recorded reads.
pub open spec fn reads_view(v: Seq<(LocalId, ReadKind)>) -> Seq<(u32, ReadKind)> {
    Seq::new(v.len(), |k: int| (v[k].0.0, v[k].1))
}

/// Recording one more read extends the view by it.
proof fn lemma_reads_push(v: Seq<(LocalId, ReadKind)>, x: (LocalId, ReadKind))
    ensures
        reads_view(v.push(x)) == reads_view(v) + seq![(x.0.0, x.1)],
{
    assert(reads_view(v.push(x)) =~= reads_view(v) + seq![(x.0.0, x.1)]);
}

/// Record the read an operand makes.
pub fn collect_operand_read(operand: &Operand, out: &mut Vec<(LocalId, ReadKind)>)
    ensures
        reads_view(final(out)@) == reads_view(old(out)@) + operand_reads(*operand),
{
    match operand {
        Operand::Copy(place) => {
            proof {
                lemma_reads_push(out@, (place.local, ReadKind::Copy));
            }
            out.push((place.local, ReadKind::Copy));
        },
        Operand::Move(place) => {
            proof {
                lemma_reads_push(out@, (place.local, ReadKind::Consume));
            }
            out.push((place.local, ReadKind::Consume));
        },
        Operand::Const(_) => {
            assert(reads_view(out@) =~= reads_view(out@) + Seq::<(u32, ReadKind)>::empty());
        },
    }
}

/// Record the reads the operands make.
fn collect_operand_reads(operands: &Vec<Operand>, out: &mut Vec<(LocalId, ReadKind)>)
    ensures
        reads_view(final(out)@) == reads_view(old(out)@) + operands_reads(operands@),
{
    let ghost start = reads_view(out@);
    let mut i: usize = 0;
    assert(operands@.take(0) =~= Seq::<Operand>::empty());
    while i < operands.len()
        invariant
            i <= operands@.len(),
            reads_view(out@) == start + operands_reads(operands@.take(i as int)),
        decreases operands.len() - i,
    {
        collect_operand_read(&operands[i], out);
        assert(operands@.take(i + 1).drop_last() =~= operands@.take(i as int));
        assert(reads_view(out@) =~= start + operands_reads(operands@.take(i + 1)));
        i = i + 1;
    }
    assert(operands@.take(i as int) =~= operands@);
}

/// Record a borrow read of `place`.
fn push_borrow_read(place: &Place, out: &mut Vec<(LocalId, ReadKind)>)
    ensures
        reads_view(final(out)@) == reads_view(old(out)@) + seq![(place.local.0, ReadKind::Borrow)],
{
    proof {
        lemma_reads_push(out@, (place.local, ReadKind::Borrow));
    }
    out.push((place.local, ReadKind::Borrow));
}

/// Record the read a call argument makes.
pub fn collect_arg_reads(arg: &Arg, out: &mut Vec<(LocalId, ReadKind)>)
    ensures
        reads_view(final(out)@) == reads_view(old(out)@) + arg_reads(*arg),
{
    match arg {
        Arg::Value(operand) => collect_operand_read(operand, out),
        Arg::Borrow(place) => push_borrow_read(place, out),
        Arg::BorrowMut(place) => push_borrow_read(place, out),
    }
}

/// Record the reads the arguments make.
fn collect_args_reads(args: &Vec<Arg>, out: &mut Vec<(LocalId, ReadKind)>)
    ensures
        reads_view(final(out)@) == reads_view(old(out)@) + args_reads(args@),
{
    let ghost start = reads_view(out@);
    let mut i: usize = 0;
    assert(args@.take(0) =~= Seq::<Arg>::empty());
    while i < args.len()
        invariant
            i <= args@.len(),
            reads_view(out@) == start + args_reads(args@.take(i as int)),
        decreases args.len() - i,
    {
        collect_arg_reads(&args[i], out);
        assert(args@.take(i + 1).drop_last() =~= args@.take(i as int));
        assert(reads_view(out@) =~= start + args_reads(args@.take(i + 1)));
        i = i + 1;
    }
    assert(args@.take(i as int) =~= args@);
}

/// Record the reads an rvalue makes.
pub fn collect_rvalue_reads(rvalue: &Rvalue, out: &mut Vec<(LocalId, ReadKind)>)
    ensures
        reads_view(final(out)@) == reads_view(old(out)@) + rvalue_reads(*rvalue),
{
    let ghost start = reads_view(out@);
    match rvalue {
        Rvalue::Use(operand) => collect_operand_read(operand, out),
        Rvalue::Unary { operand, .. } => collect_operand_read(operand, out),
        Rvalue::Cast { operand, .. } => collect_operand_read(operand, out),
        Rvalue::Binary { lhs, rhs, .. } => {
            collect_operand_read(lhs, out);
            collect_operand_read(rhs, out);
            assert(reads_view(out@) =~= start + (operand_reads(*lhs) + operand_reads(*rhs)));
        },
        Rvalue::Aggregate { fields, .. } => collect_operand_reads(fields, out),
        Rvalue::StrOp { args, .. } => collect_operand_reads(args, out),
        Rvalue::HeapOp { subject, args, .. } => {
            if let Some(place) = subject {
                push_borrow_read(place, out);
            }
            collect_operand_reads(args, out);
            assert(reads_view(out@) =~= start + rvalue_reads(*rvalue));
        },
        Rvalue::Discriminant(place) => push_borrow_read(place, out),
        Rvalue::Len(place) => push_borrow_read(place, out),
    }
}

/// The reads a statement makes.
fn statement_reads_of(statement: &Statement) -> (r: Vec<(LocalId, ReadKind)>)
    ensures
        reads_view(r@) == statement_reads(*statement),
{
    let mut reads: Vec<(LocalId, ReadKind)> = Vec::new();
    assert(reads_view(reads@) =~= Seq::<(u32, ReadKind)>::empty());
    match statement {
        Statement::Assign { rvalue, .. } => collect_rvalue_reads(rvalue, &mut reads),
        Statement::Call { callee, args, .. } => {
            if let Callee::Indirect(operand) = callee {
                collect_operand_read(operand, &mut reads);
            }
            collect_args_reads(args, &mut reads);
        },
        Statement::Effect { args, .. } => collect_args_reads(args, &mut reads),
        Statement::HeapMutate { target, args, .. } => {
            push_borrow_read(target, &mut reads);
            collect_operand_reads(args, &mut reads);
        },
        Statement::Drop { place } => {
            proof {
                lemma_reads_push(reads@, (place.local, ReadKind::Consume));
            }
            reads.push((place.local, ReadKind::Consume));
        },
    }
    assert(reads_view(reads@) =~= statement_reads(*statement));
    reads
}

/// The reads a terminator makes.
fn terminator_reads_of(terminator: &Terminator) -> (r: Vec<(LocalId, ReadKind)>)
    ensures
        reads_view(r@) == terminator_reads(*terminator),
{
    let mut reads: Vec<(LocalId, ReadKind)> = Vec::new();
    assert(reads_view(reads@) =~= Seq::<(u32, ReadKind)>::empty());
    match terminator {
        Terminator::Return(operand) => collect_operand_read(operand, &mut reads),
        Terminator::Branch { cond, .. } => collect_operand_read(cond, &mut reads),
        Terminator::Assert { cond, .. } => collect_operand_read(cond, &mut reads),
        Terminator::Switch { discr, .. } => collect_operand_read(discr, &mut reads),
        Terminator::Goto(_) => {},
        Terminator::Trap(_) => {},
    }
    assert(reads_view(reads@) =~= terminator_reads(*terminator));
    reads
}

// ---------------------------------------------------------------------------
// Faults.
// ---------------------------------------------------------------------------

/// A fault the initialization check finds.
#[derive(Clone, Copy, PartialEq, Eq, Structural, Debug)]
pub enum FlowFault {
    /// A call lends the local by borrow and moves it out by value at once.
    BorrowAndMove {
        /// The block of the call.
        block: usize,
        /// The local.
        local: u32,
    },
    /// A read observes a local after it was moved out: the local is defined
    /// somewhere, but not on every path to the read.
    UseMoved {
        /// The block of the read.
        block: usize,
        /// The local.
        local: u32,
    },
    /// A read observes a local that is never initialized on some path to it.
    UseUninit {
        /// The block of the read.
        block: usize,
        /// The local.
        local: u32,
    },
}

impl FlowFault {
    /// The fault's number in the MIR diagnostic namespace.
    pub fn code(&self) -> (r: u16)
        ensures
            r == match *self {
                FlowFault::BorrowAndMove { .. } => 9u16,
                FlowFault::UseMoved { .. } => 5u16,
                FlowFault::UseUninit { .. } => 4u16,
            },
    {
        match self {
            FlowFault::BorrowAndMove { .. } => 9,
            FlowFault::UseMoved { .. } => 5,
            FlowFault::UseUninit { .. } => 4,
        }
    }

    /// The fault's message, for the function named `fn_name`.
    pub fn message(&self, fn_name: &str) -> (r: String)
        ensures
            r@ == match *self {
                FlowFault::BorrowAndMove { block, local } => "fn `"@ + fn_name@ + "`: bb"@ + decimal(block as nat)
                    + " both borrows and moves _"@ + decimal(local as nat) + " in one call"@,
                FlowFault::UseMoved { block, local } => "fn `"@ + fn_name@ + "`: bb"@ + decimal(block as nat)
                    + " reads _"@ + decimal(local as nat) + " after it was moved out"@,
                FlowFault::UseUninit { block, local } => "fn `"@ + fn_name@ + "`: bb"@ + decimal(block as nat)
                    + " reads _"@ + decimal(local as nat) + " which is not initialized on every path"@,
            },
    {
        let mut out = String::new();
        proof {
            assert(out@ =~= Seq::<char>::empty());
        }
        push_str(&mut out, "fn `");
        push_str(&mut out, fn_name);
        push_str(&mut out, "`: bb");
        match self {
            FlowFault::BorrowAndMove { block, local } => {
                push_decimal(&mut out, *block as u64);
                push_str(&mut out, " both borrows and moves _");
                push_decimal(&mut out, *local as u64);
                push_str(&mut out, " in one call");
            },
            FlowFault::UseMoved { block, local } => {
                push_decimal(&mut out, *block as u64);
                push_str(&mut out, " reads _");
                push_decimal(&mut out, *local as u64);
                push_str(&mut out, " after it was moved out");
            },
            FlowFault::UseUninit { block, local } => {
                push_decimal(&mut out, *block as u64);
                push_str(&mut out, " reads _");
                push_decimal(&mut out, *local as u64);
                push_str(&mut out, " which is not initialized on every path");
            },
        }
        out
    }
}

/// Strictly increasing.
pub open spec fn ascending(q: Seq<u32>) -> bool {
    forall|i: int, j: int| 0 <= i < j < q.len() ==> q[i] < q[j]
}

/// The elements of a finite set of locals in increasing order.
pub open spec fn in_order(s: Set<u32>) -> Seq<u32> {
    choose|q: Seq<u32>| ascending(q) && q.to_set() == s
}

/// Two increasing sequences with the same elements are equal.
proof fn lemma_ascending_unique(a: Seq<u32>, b: Seq<u32>)
    requires
        ascending(a),
        ascending(b),
        a.to_set() == b.to_set(),
    ensures
        a == b,
    decreases a.len(),
{
    if a.len() == 0 {
        if b.len() > 0 {
            assert(b.to_set().contains(b[0]));
        }
        assert(a =~= b);
    } else {
        assert(a.to_set().contains(a[0]));
        assert(b.len() > 0);
        assert(b.to_set().contains(b[0]));
        let ia = a.index_of(b[0]);
        let ib = b.index_of(a[0]);
        assert(a[ia] == b[0] && b[ib] == a[0]);
        assert(a[0] <= a[ia]);
        assert(b[0] <= b[ib]);
        assert(a[0] == b[0]);
        let ta = a.drop_first();
        let tb = b.drop_first();
        assert forall|i: int, j: int| 0 <= i < j < ta.len() implies ta[i] < ta[j] by {
            assert(ta[i] == a[i + 1] && ta[j] == a[j + 1]);
        }
        assert forall|i: int, j: int| 0 <= i < j < tb.len() implies tb[i] < tb[j] by {
            assert(tb[i] == b[i + 1] && tb[j] == b[j + 1]);
        }
        assert forall|x: u32| ta.to_set().contains(x) == tb.to_set().contains(x) by {
            if ta.to_set().contains(x) {
                let i = ta.index_of(x);
                assert(a[i + 1] == x);
                assert(a.to_set().contains(x));
                let j = b.index_of(x);
                assert(x != a[0]);
                assert(j != 0);
                assert(tb[j - 1] == x);
            }
            if tb.to_set().contains(x) {
                let i = tb.index_of(x);
                assert(b[i + 1] == x);
                assert(b.to_set().contains(x));
                let j = a.index_of(x);
                assert(x != b[0]);
                assert(j != 0);
                assert(ta[j - 1] == x);
            }
        }
        assert(ta.to_set() =~= tb.to_set());
        lemma_ascending_unique(ta, tb);
        assert(a =~= seq![a[0]] + ta);
        assert(b =~= seq![b[0]] + tb);
    }
}

/// The locals the arguments lend by borrow.
pub open spec fn borrowed_locals(args: Seq<Arg>) -> Set<u32> {
    Set::new(
        |x: u32|
            exists|k: int|
                0 <= k < args.len() && match #[trigger] args[k] {
                    Arg::Borrow(p) => p.local.0 == x,
                    Arg::BorrowMut(p) => p.local.0 == x,
                    Arg::Value(_) => false,
                },
    )
}

/// The locals the arguments move out by value.
pub open spec fn moved_locals(args: Seq<Arg>) -> Set<u32> {
    Set::new(
        |x: u32|
            exists|k: int|
                0 <= k < args.len() && match #[trigger] args[k] {
                    Arg::Value(Operand::Move(p)) => p.local.0 == x,
                    _ => false,
                },
    )
}

/// The faults of a statement's ownership check: for a call, every local it
/// both lends and moves, in increasing order.
pub open spec fn ownership_faults(b: usize, s: Statement) -> Seq<FlowFault> {
    match s {
        Statement::Call { args, .. } => in_order(borrowed_locals(args@).intersect(moved_locals(args@))).map_values(
            |x: u32| FlowFault::BorrowAndMove { block: b, local: x },
        ),
        _ => seq![],
    }
}

/// Whether some argument moves `x` out by value.
fn moves_local(args: &Vec<Arg>, x: u32) -> (r: bool)
    ensures
        r == moved_locals(args@).contains(x),
{
    let mut i: usize = 0;
    while i < args.len()
        invariant
            i <= args@.len(),
            forall|k: int|
                0 <= k < i ==> !match #[trigger] args@[k] {
                    Arg::Value(Operand::Move(p)) => p.local.0 == x,
                    _ => false,
                },
        decreases args.len() - i,
    {
        if let Arg::Value(Operand::Move(p)) = &args[i] {
            if p.local.0 == x {
                return true;
            }
        }
        i = i + 1;
    }
    false
}

/// The borrowed-and-moved locals of a call's arguments, in increasing order.
fn borrowed_and_moved(args: &Vec<Arg>) -> (r: Vec<u32>)
    ensures
        r@ == in_order(borrowed_locals(args@).intersect(moved_locals(args@))),
{
    let ghost both = borrowed_locals(args@).intersect(moved_locals(args@));
    let mut found: Vec<u32> = Vec::new();
    let mut last: u32 = 0;
    let mut started = false;
    loop
        invariant
            ascending(found@),
            both == borrowed_locals(args@).intersect(moved_locals(args@)),
            found@.to_set() == both.filter(|x: u32| started && x <= last),
            started ==> found@.len() > 0 && found@.last() == last,
            !started ==> found@.len() == 0,
        ensures
            found@ == in_order(both),
        decreases (if started { u32::MAX - last } else { u32::MAX + 1 }),
    {
        let mut best: Option<u32> = None;
        let mut i: usize = 0;
        while i < args.len()
            invariant
                i <= args@.len(),
                both == borrowed_locals(args@).intersect(moved_locals(args@)),
                match best {
                    None => forall|y: u32|
                        #![trigger both.contains(y)]
                        both.contains(y) && (!started || y > last) ==> !exists|k: int|
                            0 <= k < i && match #[trigger] args@[k] {
                                Arg::Borrow(p) => p.local.0 == y,
                                Arg::BorrowMut(p) => p.local.0 == y,
                                Arg::Value(_) => false,
                            },
                    Some(x) => both.contains(x) && (!started || x > last) && forall|y: u32|
                        #![trigger both.contains(y)]
                        both.contains(y) && (!started || y > last) && (exists|k: int|
                            0 <= k < i && match #[trigger] args@[k] {
                                Arg::Borrow(p) => p.local.0 == y,
                                Arg::BorrowMut(p) => p.local.0 == y,
                                Arg::Value(_) => false,
                            }) ==> x <= y,
                },
            decreases args.len() - i,
        {
            let candidate: Option<u32> = match &args[i] {
                Arg::Borrow(p) => Some(p.local.0),
                Arg::BorrowMut(p) => Some(p.local.0),
                Arg::Value(_) => None,
            };
            if let Some(x) = candidate {
                if (!started || x > last) && moves_local(args, x) {
                    let better = match best {
                        None => true,
                        Some(b) => x < b,
                    };
                    if better {
                        proof {
                            assert(borrowed_locals(args@).contains(x));
                        }
                        best = Some(x);
                    }
                }
            }
            i = i + 1;
        }
        match best {
            None => {
                proof {
                    assert forall|y: u32| #[trigger] both.contains(y) implies started && y <= last by {
                        if !started || y > last {
                            assert(borrowed_locals(args@).contains(y));
                            let k = choose|k: int|
                                0 <= k < args@.len() && match #[trigger] args@[k] {
                                    Arg::Borrow(p) => p.local.0 == y,
                                    Arg::BorrowMut(p) => p.local.0 == y,
                                    Arg::Value(_) => false,
                                };
                        }
                    }
                    assert(found@.to_set() =~= both);
                    lemma_ascending_unique(found@, in_order(both));
                }
                break;
            },
            Some(x) => {
                let ghost before = found@;
                found.push(x);
                proof {
                    assert forall|i: int, j: int| 0 <= i < j < found@.len() implies found@[i] < found@[j] by {
                        if j == found@.len() - 1 && i < j {
                            if started {
                                assert(before[i] <= before.last());
                            }
                        }
                    }
                    assert forall|y: u32| found@.to_set().contains(y) == both.filter(|z: u32| true && z <= x).contains(y) by {
                        if found@.to_set().contains(y) {
                            let k = found@.index_of(y);
                            if k < before.len() {
                                assert(before.to_set().contains(y));
                            }
                        }
                        if both.contains(y) && y <= x {
                            if started && y <= last {
                                assert(before.to_set().contains(y));
                                let k = before.index_of(y);
                                assert(found@[k] == y);
                            } else if y == x {
                                assert(found@[found@.len() - 1] == y);
                            } else {
                                assert(borrowed_locals(args@).contains(y));
                                let k = choose|k: int|
                                    0 <= k < args@.len() && match #[trigger] args@[k] {
                                        Arg::Borrow(p) => p.local.0 == y,
                                        Arg::BorrowMut(p) => p.local.0 == y,
                                        Arg::Value(_) => false,
                                    };
                            }
                        }
                    }
                    assert(found@.to_set() =~= both.filter(|z: u32| true && z <= x));
                }
                last = x;
                started = true;
            },
        }
    }
    found
}

/// The fault a read makes: none for a local out of range or initialized
/// here; a use after move for a local defined somewhere; a use before
/// initialization otherwise.
pub open spec fn read_fault(b: usize, r: (u32, ReadKind), init: Set<u32>, ever: Set<u32>, local_count: u32) -> Seq<FlowFault> {
    if r.0 >= local_count || init.contains(r.0) {
        seq![]
    } else if ever.contains(r.0) {
        seq![FlowFault::UseMoved { block: b, local: r.0 }]
    } else {
        seq![FlowFault::UseUninit { block: b, local: r.0 }]
    }
}

/// The faults of the reads, in order.
pub open spec fn read_faults(b: usize, rs: Seq<(u32, ReadKind)>, init: Set<u32>, ever: Set<u32>, local_count: u32) -> Seq<FlowFault>
    decreases rs.len(),
{
    if rs.len() == 0 {
        seq![]
    } else {
        read_faults(b, rs.drop_last(), init, ever, local_count) + read_fault(b, rs.last(), init, ever, local_count)
    }
}

/// Report the reads that observe a local not initialized here.
fn report_reads(
    block: usize,
    reads: &Vec<(LocalId, ReadKind)>,
    init: &Vec<bool>,
    ever: &Vec<bool>,
    local_count: u32,
    out: &mut Vec<FlowFault>,
)
    requires
        init@.len() == local_count,
        ever@.len() >= local_count,
    ensures
        final(out)@ == old(out)@ + read_faults(block, reads_view(reads@), members(init@), members(ever@), local_count),
{
    let ghost start = out@;
    let ghost rv = reads_view(reads@);
    let mut i: usize = 0;
    assert(rv.take(0) =~= Seq::<(u32, ReadKind)>::empty());
    while i < reads.len()
        invariant
            i <= reads@.len(),
            rv == reads_view(reads@),
            init@.len() == local_count,
            ever@.len() >= local_count,
            out@ == start + read_faults(block, rv.take(i as int), members(init@), members(ever@), local_count),
        decreases reads.len() - i,
    {
        let local = reads[i].0.0;
        assert(rv.take(i + 1).drop_last() =~= rv.take(i as int));
        assert(rv.take(i + 1).last() == rv[i as int]);
        assert(rv[i as int].0 == local);
        if local >= local_count || init[local as usize] {
            assert(out@ =~= start + read_faults(block, rv.take(i + 1), members(init@), members(ever@), local_count));
        } else if ever[local as usize] {
            out.push(FlowFault::UseMoved { block, local });
            assert(out@ =~= start + read_faults(block, rv.take(i + 1), members(init@), members(ever@), local_count));
        } else {
            out.push(FlowFault::UseUninit { block, local });
            assert(out@ =~= start + read_faults(block, rv.take(i + 1), members(init@), members(ever@), local_count));
        }
        i = i + 1;
    }
    assert(rv.take(i as int) =~= rv);
}

/// Report every local a call both lends and moves.
fn check_call_ownership(block: usize, args: &Vec<Arg>, out: &mut Vec<FlowFault>)
    ensures
        final(out)@ == old(out)@ + in_order(borrowed_locals(args@).intersect(moved_locals(args@))).map_values(
            |x: u32| FlowFault::BorrowAndMove { block: block, local: x },
        ),
{
    let both = borrowed_and_moved(args);
    let ghost start = out@;
    let mut i: usize = 0;
    while i < both.len()
        invariant
            i <= both@.len(),
            out@ == start + both@.take(i as int).map_values(|x: u32| FlowFault::BorrowAndMove { block: block, local: x }),
        decreases both.len() - i,
    {
        out.push(FlowFault::BorrowAndMove { block, local: both[i] });
        assert(both@.take(i + 1).map_values(|x: u32| FlowFault::BorrowAndMove { block: block, local: x })
            =~= both@.take(i as int).map_values(|x: u32| FlowFault::BorrowAndMove { block: block, local: x }).push(
            FlowFault::BorrowAndMove { block, local: both@[i as int] },
        ));
        i = i + 1;
    }
    assert(both@.take(i as int) =~= both@);
}

/// Report the faults of a statement: its ownership check, then its reads.
fn audit_reads(
    block: usize,
    statement: &Statement,
    init: &Vec<bool>,
    ever: &Vec<bool>,
    local_count: u32,
    out: &mut Vec<FlowFault>,
)
    requires
        init@.len() == local_count,
        ever@.len() >= local_count,
    ensures
        final(out)@ == old(out)@ + ownership_faults(block, *statement) + read_faults(
            block,
            statement_reads(*statement),
            members(init@),
            members(ever@),
            local_count,
        ),
{
    let reads = statement_reads_of(statement);
    let ghost start = out@;
    if let Statement::Call { args, .. } = statement {
        check_call_ownership(block, args, out);
    }
    assert(out@ =~= start + ownership_faults(block, *statement));
    report_reads(block, &reads, init, ever, local_count, out);
}

/// Report the faults of a terminator's reads.
fn audit_terminator_reads(
    block: usize,
    terminator: &Terminator,
    init: &Vec<bool>,
    ever: &Vec<bool>,
    local_count: u32,
    out: &mut Vec<FlowFault>,
)
    requires
        init@.len() == local_count,
        ever@.len() >= local_count,
    ensures
        final(out)@ == old(out)@ + read_faults(
            block,
            terminator_reads(*terminator),
            members(init@),
            members(ever@),
            local_count,
        ),
{
    let reads = terminator_reads_of(terminator);
    report_reads(block, &reads, init, ever, local_count, out);
}

/// The locals some statement of the sequence (re)initializes.
pub open spec fn defined_in(stmts: Seq<Statement>) -> Set<u32> {
    Set::new(|x: u32| exists|i: int| 0 <= i < stmts.len() && statement_defined(#[trigger] stmts[i]).contains(x))
}

/// A statement sequence adds to the initialized set only what it defines.
proof fn lemma_exit_within(stmts: Seq<Statement>, init: Set<u32>)
    ensures
        exit_spec(stmts, init).subset_of(init.union(defined_in(stmts))),
    decreases stmts.len(),
{
    if stmts.len() > 0 {
        let init_part = stmts.drop_last();
        lemma_exit_within(init_part, init);
        assert forall|x: u32| exit_spec(stmts, init).contains(x) implies init.union(defined_in(stmts)).contains(x) by {
            let s = stmts.last();
            if statement_defined(s).contains(x) {
                assert(statement_defined(stmts[stmts.len() - 1]).contains(x));
            } else if defined_in(init_part).contains(x) {
                let i = choose|i: int| 0 <= i < init_part.len() && statement_defined(#[trigger] init_part[i]).contains(x);
                assert(init_part[i] == stmts[i]);
            }
        }
    }
}

/// A block whose terminator names `b` is among `b`'s predecessor candidates.
proof fn lemma_pred_listed(g: Seq<Seq<u32>>, b: int, p: int, k: int)
    requires
        0 <= p < k,
        names(g[p], b),
    ensures
        preds_spec(g, b, k).contains(p),
    decreases k,
{
    if p < k - 1 {
        lemma_pred_listed(g, b, p, k - 1);
        let s = preds_spec(g, b, k - 1);
        let m = s.index_of(p);
        if names(g[k - 1], b) {
            assert(s.push(k - 1)[m] == p);
        }
    } else {
        let s = preds_spec(g, b, k - 1);
        assert(s.push(k - 1)[s.len() as int] == p);
    }
}

/// The flow from a list holding a reachable predecessor is within that
/// predecessor's exit set.
proof fn lemma_incoming_within(
    blocks: Seq<BasicBlock<Statement>>,
    reach: Seq<bool>,
    e: Seq<Set<u32>>,
    acc: Option<Set<u32>>,
    ps: Seq<int>,
    j: int,
)
    requires
        0 <= j < ps.len(),
        reach[ps[j]],
    ensures
        incoming_spec(blocks, reach, e, acc, ps) is Some,
        incoming_spec(blocks, reach, e, acc, ps)->Some_0.subset_of(exit_spec(blocks[ps[j]].statements@, e[ps[j]])),
    decreases ps.len(),
{
    let init_part = ps.drop_last();
    if j < ps.len() - 1 {
        assert(init_part[j] == ps[j]);
        lemma_incoming_within(blocks, reach, e, acc, init_part, j);
    }
}

/// Along a path from the entry, each block's entry set holds only
/// parameters and locals some statement defines.
proof fn lemma_path_within(
    blocks: Seq<BasicBlock<Statement>>,
    param_count: u32,
    local_count: u32,
    e: Seq<Set<u32>>,
    path: Seq<int>,
    i: int,
)
    requires
        blocks.len() <= u32::MAX,
        is_solution(blocks, param_count, local_count, e),
        is_path(succs(blocks), path),
        0 <= i < path.len(),
    ensures
        e[path[i]].subset_of(ever_spec(blocks, param_count)),
    decreases i,
{
    let g = succs(blocks);
    let reach = reach_flags(g);
    let b = path[i];
    let ever = ever_spec(blocks, param_count);
    assert(reachable(g, b)) by {
        let q = path.take(i + 1);
        assert(is_path(g, q)) by {
            assert forall|k: int| 1 <= k < q.len() implies g[q[k - 1]].contains(#[trigger] q[k] as u32) by {
                assert(q[k - 1] == path[k - 1] && q[k] == path[k]);
            }
        }
        assert(q.last() == b);
    }
    assert(reach[b]);
    if i == 0 {
        assert(e[0].subset_of(top(0, param_count, local_count)));
    } else {
        let p = path[i - 1];
        lemma_path_within(blocks, param_count, local_count, e, path, i - 1);
        assert(reachable(g, p)) by {
            let q = path.take(i);
            assert(is_path(g, q)) by {
                assert forall|k: int| 1 <= k < q.len() implies g[q[k - 1]].contains(#[trigger] q[k] as u32) by {
                    assert(q[k - 1] == path[k - 1] && q[k] == path[k]);
                }
            }
            assert(q.last() == p);
        }
        assert(g[p].contains(b as u32));
        let m = g[p].index_of(b as u32);
        assert(0 <= b < blocks.len());
        assert(g[p][m] as int == b);
        assert(names(g[p], b));
        lemma_pred_listed(g, b, p, blocks.len() as int);
        let ps = preds_spec(g, b, blocks.len() as int);
        let j = ps.index_of(p);
        let start = if b == 0 {
            Some(below(param_count))
        } else {
            None
        };
        lemma_incoming_within(blocks, reach, e, start, ps, j);
        assert(e[b] == flow(blocks, reach, e, param_count, b));
        let stmts = blocks[p].statements@;
        lemma_exit_within(stmts, e[p]);
        assert forall|x: u32| defined_in(stmts).contains(x) implies ever.contains(x) by {
            let k = choose|k: int| 0 <= k < stmts.len() && statement_defined(#[trigger] stmts[k]).contains(x);
            assert(statement_defined(blocks[p].statements@[k]).contains(x));
        }
    }
}

/// Every local definitely initialized on entry to a reachable block is a
/// parameter or is (re)initialized by some statement of the body: so a
/// local read where it is not initialized, and defined nowhere, was never
/// initialized on any path.
pub proof fn law_initialized_locals_are_defined(
    blocks: Seq<BasicBlock<Statement>>,
    param_count: u32,
    local_count: u32,
    e: Seq<Set<u32>>,
)
    requires
        blocks.len() <= u32::MAX,
        is_solution(blocks, param_count, local_count, e),
    ensures
        forall|b: int|
            0 <= b < blocks.len() && #[trigger] reach_flags(succs(blocks))[b] ==> e[b].subset_of(
                ever_spec(blocks, param_count),
            ),
{
    let g = succs(blocks);
    assert forall|b: int| 0 <= b < blocks.len() && #[trigger] reach_flags(g)[b] implies e[b].subset_of(
        ever_spec(blocks, param_count),
    ) by {
        assert(reachable(g, b));
        let path = choose|p: Seq<int>| #[trigger] is_path(g, p) && p.last() == b;
        lemma_path_within(blocks, param_count, local_count, e, path, path.len() - 1);
    }
}

// ---------------------------------------------------------------------------
// The initialization check.
// ---------------------------------------------------------------------------

/// The faults of the first `i` statements of a block entered with `init0`,
/// each checked against what the statements before it leave initialized.
pub open spec fn stmt_faults(
    b: usize,
    stmts: Seq<Statement>,
    init0: Set<u32>,
    ever: Set<u32>,
    local_count: u32,
    i: int,
) -> Seq<FlowFault>
    decreases i,
{
    if i <= 0 {
        seq![]
    } else {
        stmt_faults(b, stmts, init0, ever, local_count, i - 1) + ownership_faults(b, stmts[i - 1]) + read_faults(
            b,
            statement_reads(stmts[i - 1]),
            exit_spec(stmts.take(i - 1), init0),
            ever,
            local_count,
        )
    }
}

/// The faults of a block entered with `init0`: its statements', then its
/// terminator's.
pub open spec fn block_faults(b: usize, blk: BasicBlock<Statement>, init0: Set<u32>, ever: Set<u32>, local_count: u32) -> Seq<FlowFault> {
    stmt_faults(b, blk.statements@, init0, ever, local_count, blk.statements@.len() as int) + read_faults(
        b,
        terminator_reads(blk.terminator),
        exit_spec(blk.statements@, init0),
        ever,
        local_count,
    )
}

/// The faults of the reachable blocks among the first `k`, in block order.
pub open spec fn faults_upto(
    blocks: Seq<BasicBlock<Statement>>,
    e: Seq<Set<u32>>,
    reach: Seq<bool>,
    ever: Set<u32>,
    local_count: u32,
    k: int,
) -> Seq<FlowFault>
    decreases k,
{
    if k <= 0 {
        seq![]
    } else {
        faults_upto(blocks, e, reach, ever, local_count, k - 1) + if reach[k - 1] {
            block_faults((k - 1) as usize, blocks[k - 1], e[k - 1], ever, local_count)
        } else {
            seq![]
        }
    }
}

/// Every fault of the initialization check, in block and statement order.
pub open spec fn dataflow_faults(blocks: Seq<BasicBlock<Statement>>, param_count: u32, local_count: u32) -> Seq<FlowFault> {
    faults_upto(
        blocks,
        init_solution(blocks, param_count, local_count),
        reach_flags(succs(blocks)),
        ever_spec(blocks, param_count),
        local_count,
        blocks.len() as int,
    )
}

/// The initialization check: walk each reachable block from its entry set,
/// report every read of a local not initialized there (a use after move if
/// the local is ever defined, a use before initialization otherwise) and
/// every call that both lends and moves a local, and apply each statement.
pub fn check_dataflow(blocks: &Vec<BasicBlock<Statement>>, param_count: u32, local_count: u32) -> (r: Vec<FlowFault>)
    requires
        param_count <= local_count,
        blocks@.len() <= u32::MAX,
        targets_in_range(succs(blocks@)),
        blocks_in_range(blocks@, local_count as nat),
    ensures
        r@ == dataflow_faults(blocks@, param_count, local_count),
{
    let entry_init = solve_init(blocks, param_count, local_count);
    let ever = ever_defined(blocks, param_count, local_count);
    let ghost e = init_solution(blocks@, param_count, local_count);
    let ghost reach = reach_flags(succs(blocks@));
    let ghost everset = ever_spec(blocks@, param_count);
    let mut out: Vec<FlowFault> = Vec::new();
    let mut index: usize = 0;
    while index < blocks.len()
        invariant
            index <= blocks@.len(),
            entry_init@.len() == blocks@.len(),
            forall|b: int| 0 <= b < blocks@.len() ==> (#[trigger] entry_init@[b] is Some) == reach[b],
            forall|b: int| 0 <= b < blocks@.len() && entry_init@[b] is Some ==> (#[trigger] entry_init@[b])->Some_0@.len() == local_count,
            entry_sets(entry_init@) == e,
            ever@.len() == max_count(param_count, local_count),
            members(ever@) == everset,
            blocks_in_range(blocks@, local_count as nat),
            out@ == faults_upto(blocks@, e, reach, everset, local_count, index as int),
        decreases blocks.len() - index,
    {
        match &entry_init[index] {
            None => {
                assert(out@ =~= faults_upto(blocks@, e, reach, everset, local_count, index + 1));
            },
            Some(entry) => {
                let ghost blk = blocks@[index as int];
                let ghost start = out@;
                assert(e[index as int] == members(entry@));
                let mut init = copy_bits(entry);
                let stmts = &blocks[index].statements;
                let mut i: usize = 0;
                assert(stmts@.take(0) =~= Seq::<Statement>::empty());
                while i < stmts.len()
                    invariant
                        i <= stmts@.len(),
                        *stmts == blk.statements,
                        blk == blocks@[index as int],
                        index < blocks@.len(),
                        init@.len() == local_count,
                        ever@.len() == max_count(param_count, local_count),
                        members(ever@) == everset,
                        blocks_in_range(blocks@, local_count as nat),
                        members(init@) == exit_spec(stmts@.take(i as int), e[index as int]),
                        out@ == start + stmt_faults(index, stmts@, e[index as int], everset, local_count, i as int),
                    decreases stmts.len() - i,
                {
                    audit_reads(index, &stmts[i], &init, &ever, local_count, &mut out);
                    assert(statement_in_range(blocks@[index as int].statements@[i as int], local_count as nat));
                    apply_statement(&stmts[i], &mut init);
                    assert(stmts@.take(i + 1).drop_last() =~= stmts@.take(i as int));
                    assert(stmts@.take(i + 1).last() == stmts@[i as int]);
                    assert(out@ =~= start + stmt_faults(index, stmts@, e[index as int], everset, local_count, i + 1));
                    i = i + 1;
                }
                assert(stmts@.take(i as int) =~= stmts@);
                audit_terminator_reads(index, &blocks[index].terminator, &init, &ever, local_count, &mut out);
                assert(out@ =~= faults_upto(blocks@, e, reach, everset, local_count, index + 1));
            },
        }
        index = index + 1;
    }
    out
}

// ---------------------------------------------------------------------------
// The conditions the initialization check needs, tested.
// ---------------------------------------------------------------------------

/// Whether every local in `xs` is below `n`.
fn all_below(xs: &Vec<u32>, n: u32) -> (r: bool)
    ensures
        r == forall|k: int| 0 <= k < xs@.len() ==> (#[trigger] xs@[k]) < n,
{
    let mut k: usize = 0;
    while k < xs.len()
        invariant
            k <= xs@.len(),
            forall|j: int| 0 <= j < k ==> (#[trigger] xs@[j]) < n,
        decreases xs.len() - k,
    {
        if xs[k] >= n {
            return false;
        }
        k = k + 1;
    }
    true
}

/// Whether every local a statement consumes or defines is declared: below
/// `local_count`.
pub fn statement_locals_in_range(statement: &Statement, local_count: u32) -> (r: bool)
    ensures
        r == statement_in_range(*statement, local_count as nat),
{
    let mut consumed: Vec<u32> = Vec::new();
    let mut defined: Vec<u32> = Vec::new();
    collect_effects(statement, &mut consumed, &mut defined);
    assert(consumed@ =~= statement_consumed(*statement));
    assert(defined@ =~= statement_defined(*statement));
    all_below(&consumed, local_count) && all_below(&defined, local_count)
}

/// Whether every statement of every block consumes and defines only
/// declared locals.
pub fn locals_in_range(blocks: &Vec<BasicBlock<Statement>>, local_count: u32) -> (r: bool)
    ensures
        r == blocks_in_range(blocks@, local_count as nat),
{
    let mut b: usize = 0;
    while b < blocks.len()
        invariant
            b <= blocks@.len(),
            forall|c: int, i: int|
                0 <= c < b && 0 <= i < blocks@[c].statements@.len() ==> statement_in_range(
                    #[trigger] blocks@[c].statements@[i],
                    local_count as nat,
                ),
        decreases blocks.len() - b,
    {
        let stmts = &blocks[b].statements;
        let mut i: usize = 0;
        while i < stmts.len()
            invariant
                b < blocks@.len(),
                *stmts == blocks@[b as int].statements,
                i <= stmts@.len(),
                forall|c: int, j: int|
                    0 <= c < b && 0 <= j < blocks@[c].statements@.len() ==> statement_in_range(
                        #[trigger] blocks@[c].statements@[j],
                        local_count as nat,
                    ),
                forall|j: int| 0 <= j < i ==> statement_in_range(#[trigger] stmts@[j], local_count as nat),
            decreases stmts.len() - i,
        {
            if !statement_locals_in_range(&stmts[i], local_count) {
                return false;
            }
            i = i + 1;
        }
        b = b + 1;
    }
    true
}

/// Whether every terminator names only existing blocks.
pub fn targets_exist(blocks: &Vec<BasicBlock<Statement>>) -> (r: bool)
    ensures
        r == targets_in_range(succs(blocks@)),
{
    let n = blocks.len();
    let mut b: usize = 0;
    while b < n
        invariant
            n == blocks@.len(),
            b <= n,
            forall|c: int, k: int|
                0 <= c < b && 0 <= k < succs(blocks@)[c].len() ==> #[trigger] succs(blocks@)[c][k] < n,
        decreases n - b,
    {
        let ts = terminator_targets(&blocks[b].terminator);
        assert(ts@ == succs(blocks@)[b as int]);
        let mut k: usize = 0;
        while k < ts.len()
            invariant
                n == blocks@.len(),
                b < n,
                ts@ == succs(blocks@)[b as int],
                k <= ts@.len(),
                forall|c: int, j: int|
                    0 <= c < b && 0 <= j < succs(blocks@)[c].len() ==> #[trigger] succs(blocks@)[c][j] < n,
                forall|j: int| 0 <= j < k ==> (#[trigger] ts@[j] as int) < n,
            decreases ts.len() - k,
        {
            if ts[k] as usize >= n {
                return false;
            }
            k = k + 1;
        }
        b = b + 1;
    }
    true
}

/// The initialization check on any body: `None` unless there are no more
/// parameters than locals, at most `u32::MAX` blocks, every terminator names
/// an existing block and every statement only declared locals; otherwise
/// the faults [`check_dataflow`] finds.
pub fn dataflow_if_sound(blocks: &Vec<BasicBlock<Statement>>, param_count: u32, local_count: u32) -> (r: Option<
    Vec<FlowFault>,
>)
    ensures
        r is Some == (param_count <= local_count && blocks@.len() <= u32::MAX && targets_in_range(succs(blocks@))
            && blocks_in_range(blocks@, local_count as nat)),
        r matches Some(f) ==> f@ == dataflow_faults(blocks@, param_count, local_count),
{
    if param_count > local_count || blocks.len() > 4294967295usize {
        return None;
    }
    if !targets_exist(blocks) || !locals_in_range(blocks, local_count) {
        return None;
    }
    Some(check_dataflow(blocks, param_count, local_count))
}

// ---------------------------------------------------------------------------
// Laws of the transfer function.
// ---------------------------------------------------------------------------

/// The whole local a by-value argument moves, if it moves one.
pub open spec fn moved_by_value(a: Arg) -> Option<u32> {
    match a {
        Arg::Value(Operand::Move(p)) => if p.projection@.len() == 0 {
            Some(p.local.0)
        } else {
            None
        },
        _ => None,
    }
}

/// The whole local a statement writes as its destination, if any.
pub open spec fn whole_dest(s: Statement) -> Option<u32> {
    let d = match s {
        Statement::Assign { place, .. } => Some(place),
        Statement::Call { dest, .. } => Some(dest),
        Statement::Effect { dest, .. } => Some(dest),
        Statement::HeapMutate { dest, .. } => Some(dest),
        Statement::Drop { .. } => None,
    };
    match d {
        Some(p) => if p.projection@.len() == 0 {
            Some(p.local.0)
        } else {
            None
        },
        None => None,
    }
}

proof fn lemma_in_concat(a: Seq<u32>, b: Seq<u32>, x: u32)
    requires
        a.contains(x) || b.contains(x),
    ensures
        (a + b).contains(x),
{
    if a.contains(x) {
        let i = a.index_of(x);
        assert((a + b)[i] == x);
    } else {
        let i = b.index_of(x);
        assert((a + b)[a.len() + i] == x);
    }
}

proof fn lemma_args_consumed(args: Seq<Arg>, j: int, x: u32)
    requires
        0 <= j < args.len(),
        moved_by_value(args[j]) == Some(x),
    ensures
        args_consumed(args).contains(x),
    decreases args.len(),
{
    if j == args.len() - 1 {
        assert(arg_consumed(args.last())[0] == x);
        lemma_in_concat(args_consumed(args.drop_last()), arg_consumed(args.last()), x);
    } else {
        assert(args.drop_last()[j] == args[j]);
        lemma_args_consumed(args.drop_last(), j, x);
        lemma_in_concat(args_consumed(args.drop_last()), arg_consumed(args.last()), x);
    }
}

proof fn lemma_operands_consumed(os: Seq<Operand>, j: int, x: u32)
    requires
        0 <= j < os.len(),
        os[j] matches Operand::Move(p) && p.projection@.len() == 0 && p.local.0 == x,
    ensures
        operands_consumed(os).contains(x),
    decreases os.len(),
{
    if j == os.len() - 1 {
        assert(operand_consumed(os.last())[0] == x);
        lemma_in_concat(operands_consumed(os.drop_last()), operand_consumed(os.last()), x);
    } else {
        assert(os.drop_last()[j] == os[j]);
        lemma_operands_consumed(os.drop_last(), j, x);
        lemma_in_concat(operands_consumed(os.drop_last()), operand_consumed(os.last()), x);
    }
}

/// A whole local moved into a call or an effect by a value argument, moved
/// into a heap mutation as an operand, or moved by an assignment's `Use`,
/// leaves the initialized set, unless the statement initializes it again
/// (as its destination or through a `mut` borrow). A statement's whole
/// destination is initialized after it.
pub proof fn law_moves_consume_and_destinations_define(s: Statement, j: int, x: u32, init: Set<u32>)
    requires
        match s {
            Statement::Call { args, .. } => 0 <= j < args@.len() && moved_by_value(args@[j]) == Some(x),
            Statement::Effect { args, .. } => 0 <= j < args@.len() && moved_by_value(args@[j]) == Some(x),
            Statement::HeapMutate { args, .. } => 0 <= j < args@.len() && (args@[j] matches Operand::Move(p)
                && p.projection@.len() == 0 && p.local.0 == x),
            Statement::Assign { rvalue, .. } => rvalue matches Rvalue::Use(Operand::Move(p)) && p.projection@.len()
                == 0 && p.local.0 == x,
            Statement::Drop { place } => place.projection@.len() == 0 && place.local.0 == x,
        },
    ensures
        statement_consumed(s).contains(x),
        !statement_defined(s).contains(x) ==> !apply_spec(s, init).contains(x),
        whole_dest(s) matches Some(d) ==> apply_spec(s, init).contains(d),
{
    match s {
        Statement::Call { callee, args, dest } => {
            lemma_args_consumed(args@, j, x);
            match callee {
                Callee::Indirect(o) => lemma_in_concat(operand_consumed(o), args_consumed(args@), x),
                Callee::Direct(_) => {
                    assert(statement_consumed(s) =~= args_consumed(args@));
                },
            }
            if dest.projection@.len() == 0 {
                assert(whole(dest)[0] == dest.local.0);
                lemma_in_concat(args_defined(args@), whole(dest), dest.local.0);
            }
        },
        Statement::Effect { args, dest, .. } => {
            lemma_args_consumed(args@, j, x);
            if dest.projection@.len() == 0 {
                assert(whole(dest)[0] == dest.local.0);
                lemma_in_concat(args_defined(args@), whole(dest), dest.local.0);
            }
        },
        Statement::HeapMutate { args, target, dest, .. } => {
            lemma_operands_consumed(args@, j, x);
            if dest.projection@.len() == 0 {
                assert(whole(dest)[0] == dest.local.0);
                lemma_in_concat(whole(target), whole(dest), dest.local.0);
            }
        },
        Statement::Assign { place, rvalue } => {
            assert(statement_consumed(s)[0] == x);
            if place.projection@.len() == 0 {
                assert(statement_defined(s)[0] == place.local.0);
            }
        },
        Statement::Drop { place } => {
            assert(statement_consumed(s)[0] == x);
        },
    }
    assert(statement_consumed(s).to_set().contains(x));
    if let Some(d) = whole_dest(s) {
        assert(statement_defined(s).contains(d));
        assert(statement_defined(s).to_set().contains(d));
    }
}

} // verus!
