//! Unreachable block removal: drop basic blocks no edge reaches.
//!
//! A block that no control-flow edge from the entry can reach is dead: it
//! never executes, so deleting it cannot change what the program does. This
//! pass computes the set of blocks reachable from the entry (`bb0`) by
//! following every terminator edge, drops the rest, and **renumbers** the
//! survivors so the block vector stays dense (a [`BlockId`] is an index into
//! the blocks), rewriting every terminator target through the renumbering.
//!
//! The pass is purely structural: it moves no statement and rewrites no
//! operand, so it works over blocks of any statement type.

use vstd::prelude::*;
use crate::mir::{BasicBlock, BlockId, Operand, Terminator, Trap};

verus! {

/// The block targets a terminator names, in order.
pub open spec fn targets(t: Terminator) -> Seq<u32> {
    match t {
        Terminator::Return(_) | Terminator::Trap(_) => seq![],
        Terminator::Goto(b) => seq![b.0],
        Terminator::Branch { then_block, else_block, .. } => seq![then_block.0, else_block.0],
        Terminator::Switch { arms, otherwise, .. } => Seq::new(arms@.len(), |k: int| arms@[k].1.0).push(
            otherwise.0,
        ),
        Terminator::Assert { target, .. } => seq![target.0],
    }
}

/// The successor lists of a sequence of blocks.
pub open spec fn succs<S>(blocks: Seq<BasicBlock<S>>) -> Seq<Seq<u32>> {
    Seq::new(blocks.len(), |i: int| targets(blocks[i].terminator))
}

/// Every edge names a block of the graph.
pub open spec fn targets_in_range(g: Seq<Seq<u32>>) -> bool {
    forall|i: int, k: int| 0 <= i < g.len() && 0 <= k < g[i].len() ==> #[trigger] g[i][k] < g.len()
}

/// `p` is a path through `g` starting at the entry block.
pub open spec fn is_path(g: Seq<Seq<u32>>, p: Seq<int>) -> bool {
    &&& p.len() > 0
    &&& p[0] == 0
    &&& forall|k: int| 0 <= k < p.len() ==> 0 <= #[trigger] p[k] < g.len()
    &&& forall|k: int| 1 <= k < p.len() ==> g[p[k - 1]].contains(#[trigger] p[k] as u32)
}

/// Block `b` is reachable from the entry.
pub open spec fn reachable(g: Seq<Seq<u32>>, b: int) -> bool {
    exists|p: Seq<int>| #[trigger] is_path(g, p) && p.last() == b
}

/// Which blocks are reachable.
pub open spec fn reach_flags(g: Seq<Seq<u32>>) -> Seq<bool> {
    Seq::new(g.len(), |i: int| reachable(g, i))
}

/// The number of kept blocks before `i`: block `i`'s new index.
pub open spec fn rank(flags: Seq<bool>, i: int) -> nat
    decreases i,
{
    if i <= 0 || flags.len() == 0 {
        0
    } else if i > flags.len() {
        rank(flags, flags.len() as int)
    } else {
        rank(flags, i - 1) + if flags[i - 1] {
            1nat
        } else {
            0nat
        }
    }
}

/// The indices of the kept blocks, in order.
pub open spec fn survivors(flags: Seq<bool>) -> Seq<int>
    decreases flags.len(),
{
    if flags.len() == 0 {
        seq![]
    } else if flags.last() {
        survivors(flags.drop_last()).push(flags.len() - 1)
    } else {
        survivors(flags.drop_last())
    }
}

/// A terminator's shape: its kind, its operand and trap, and its targets.
pub enum TermModel {
    Return(Operand),
    Goto(u32),
    Branch(Operand, u32, u32),
    Switch(Operand, Seq<(i128, u32)>, u32),
    Assert(Operand, Trap, u32),
    Trap(Trap),
}

/// The shape of a terminator.
pub open spec fn term_model(t: Terminator) -> TermModel {
    match t {
        Terminator::Return(o) => TermModel::Return(o),
        Terminator::Goto(b) => TermModel::Goto(b.0),
        Terminator::Branch { cond, then_block, else_block } => TermModel::Branch(
            cond,
            then_block.0,
            else_block.0,
        ),
        Terminator::Switch { discr, arms, otherwise } => TermModel::Switch(
            discr,
            Seq::new(arms@.len(), |k: int| (arms@[k].0, arms@[k].1.0)),
            otherwise.0,
        ),
        Terminator::Assert { cond, trap, target } => TermModel::Assert(cond, trap, target.0),
        Terminator::Trap(t) => TermModel::Trap(t),
    }
}

/// A terminator shape with each target `b` replaced by `f(b)`.
pub open spec fn retarget(m: TermModel, f: spec_fn(u32) -> u32) -> TermModel {
    match m {
        TermModel::Return(o) => TermModel::Return(o),
        TermModel::Goto(b) => TermModel::Goto(f(b)),
        TermModel::Branch(c, t, e) => TermModel::Branch(c, f(t), f(e)),
        TermModel::Switch(d, arms, o) => TermModel::Switch(
            d,
            Seq::new(arms.len(), |k: int| (arms[k].0, f(arms[k].1))),
            f(o),
        ),
        TermModel::Assert(c, t, b) => TermModel::Assert(c, t, f(b)),
        TermModel::Trap(t) => TermModel::Trap(t),
    }
}

/// The lookup of a target through a renumbering table: its new index where
/// the table has one that fits, the target itself otherwise.
pub open spec fn lookup(remap: Seq<Option<usize>>, b: u32) -> u32 {
    if (b as int) < remap.len() && remap[b as int] is Some && remap[b as int]->Some_0 <= u32::MAX {
        remap[b as int]->Some_0 as u32
    } else {
        b
    }
}

/// The block targets a terminator names.
pub fn terminator_targets(terminator: &Terminator) -> (r: Vec<u32>)
    ensures
        r@ == targets(*terminator),
{
    match terminator {
        Terminator::Return(_) | Terminator::Trap(_) => Vec::new(),
        Terminator::Goto(target) => vec![target.0],
        Terminator::Branch { then_block, else_block, .. } => vec![then_block.0, else_block.0],
        Terminator::Switch { arms, otherwise, .. } => {
            let mut out: Vec<u32> = Vec::new();
            let mut k: usize = 0;
            while k < arms.len()
                invariant
                    k <= arms@.len(),
                    out@ == Seq::new(k as nat, |j: int| arms@[j].1.0),
                decreases arms.len() - k,
            {
                out.push(arms[k].1.0);
                assert(out@ =~= Seq::new((k + 1) as nat, |j: int| arms@[j].1.0));
                k = k + 1;
            }
            out.push(otherwise.0);
            assert(out@ =~= Seq::new(arms@.len(), |j: int| arms@[j].1.0).push(otherwise.0));
            out
        },
        Terminator::Assert { target, .. } => vec![target.0],
    }
}

/// Rewrite one target through the renumbering.
fn remap_block(block: &mut BlockId, remap: &[Option<usize>])
    ensures
        final(block).0 == lookup(remap@, old(block).0),
{
    let index = block.0 as usize;
    if index < remap.len() {
        match remap[index] {
            Some(new_index) => {
                if new_index <= 0xffff_ffff {
                    block.0 = new_index as u32;
                }
            },
            None => {},
        }
    }
}

/// Rewrite a terminator's targets through the old-to-new block renumbering.
pub fn remap_terminator(terminator: &mut Terminator, remap: &[Option<usize>])
    ensures
        term_model(*final(terminator)) == retarget(term_model(*old(terminator)), |b: u32| lookup(remap@, b)),
{
    match terminator {
        Terminator::Return(_) | Terminator::Trap(_) => {},
        Terminator::Goto(target) => remap_block(target, remap),
        Terminator::Branch { then_block, else_block, .. } => {
            remap_block(then_block, remap);
            remap_block(else_block, remap);
        },
        Terminator::Switch { arms, otherwise, .. } => {
            let ghost before = arms@;
            let mut k: usize = 0;
            while k < arms.len()
                invariant
                    k <= arms@.len(),
                    arms@.len() == before.len(),
                    forall|j: int| 0 <= j < k ==> (#[trigger] arms@[j]).0 == before[j].0 && arms@[j].1.0
                        == lookup(remap@, before[j].1.0),
                    forall|j: int| k <= j < arms@.len() ==> #[trigger] arms@[j] == before[j],
                decreases arms.len() - k,
            {
                let (v, b) = arms[k];
                let mut nb = b;
                remap_block(&mut nb, remap);
                arms.set(k, (v, nb));
                k = k + 1;
            }
            remap_block(otherwise, remap);
            proof {
                let bm = Seq::new(before.len(), |j: int| (before[j].0, before[j].1.0));
                let f = |b: u32| lookup(remap@, b);
                assert(Seq::new(arms@.len(), |j: int| (arms@[j].0, arms@[j].1.0)) =~= Seq::new(
                    bm.len(),
                    |k: int| (bm[k].0, f(bm[k].1)),
                ));
            }
        },
        Terminator::Assert { target, .. } => remap_block(target, remap),
    }
}

/// The number of blocks not yet seen.
pub open spec fn unseen(s: Seq<bool>) -> nat
    decreases s.len(),
{
    if s.len() == 0 {
        0
    } else {
        unseen(s.drop_last()) + if s.last() {
            0nat
        } else {
            1nat
        }
    }
}

/// Seeing one more block lowers the unseen count by one.
proof fn lemma_unseen_update(s: Seq<bool>, i: int)
    requires
        0 <= i < s.len(),
        !s[i],
    ensures
        unseen(s.update(i, true)) + 1 == unseen(s),
    decreases s.len(),
{
    let t = s.update(i, true);
    if i == s.len() - 1 {
        assert(t.drop_last() =~= s.drop_last());
    } else {
        assert(t.drop_last() =~= s.drop_last().update(i, true));
        lemma_unseen_update(s.drop_last(), i);
    }
}

/// A path extended along an edge is a path.
proof fn lemma_path_extend(g: Seq<Seq<u32>>, p: Seq<int>, t: u32)
    requires
        is_path(g, p),
        g[p.last()].contains(t),
        (t as int) < g.len(),
    ensures
        is_path(g, p.push(t as int)),
        p.push(t as int).last() == t as int,
{
    let q = p.push(t as int);
    assert forall|k: int| 1 <= k < q.len() implies g[q[k - 1]].contains(#[trigger] q[k] as u32) by {
        if k < p.len() {
            assert(q[k - 1] == p[k - 1] && q[k] == p[k]);
        } else {
            assert(q[k - 1] == p.last());
        }
    }
}

/// A set of blocks that holds the entry and every successor of its members
/// holds every reachable block.
proof fn lemma_closed_covers(g: Seq<Seq<u32>>, seen: Seq<bool>, p: Seq<int>)
    requires
        seen.len() == g.len(),
        g.len() <= u32::MAX + 1,
        seen[0],
        forall|i: int, k: int| 0 <= i < g.len() && seen[i] && 0 <= k < g[i].len() ==> seen[#[trigger] g[i][k] as int],
        is_path(g, p),
    ensures
        seen[p.last()],
    decreases p.len(),
{
    if p.len() > 1 {
        let q = p.drop_last();
        assert(is_path(g, q)) by {
            assert forall|k: int| 1 <= k < q.len() implies g[q[k - 1]].contains(#[trigger] q[k] as u32) by {
                assert(q[k - 1] == p[k - 1] && q[k] == p[k]);
            }
        }
        lemma_closed_covers(g, seen, q);
        let a = q.last();
        assert(a == p[p.len() - 2]);
        assert(g[p[p.len() - 2]].contains(p[p.len() - 1] as u32));
        let k = g[a].index_of(p.last() as u32);
        assert(g[a][k] == p.last() as u32);
        assert(0 <= p.last() < g.len());
    }
}

/// The blocks reachable from the entry by following terminator edges.
pub fn reachable_blocks<S>(blocks: &Vec<BasicBlock<S>>) -> (seen: Vec<bool>)
    requires
        0 < blocks@.len() <= u32::MAX,
        targets_in_range(succs(blocks@)),
    ensures
        seen@ == reach_flags(succs(blocks@)),
{
    let ghost g = succs(blocks@);
    let n = blocks.len();
    let mut seen: Vec<bool> = Vec::new();
    while seen.len() < n
        invariant
            seen@.len() <= n,
            forall|i: int| 0 <= i < seen@.len() ==> !#[trigger] seen@[i],
        decreases n - seen.len(),
    {
        seen.push(false);
    }
    let mut stack: Vec<u32> = Vec::new();
    stack.push(0);
    proof {
        let p = seq![0int];
        assert(is_path(g, p));
        assert(reachable(g, 0));
        assert(stack@[0] == 0u32);
        assert(stack@.contains(0u32));
    }
    while stack.len() > 0
        invariant
            n == blocks@.len(),
            g == succs(blocks@),
            g.len() == n,
            0 < n <= u32::MAX,
            targets_in_range(g),
            seen@.len() == n,
            forall|i: int| 0 <= i < n && #[trigger] seen@[i] ==> reachable(g, i),
            forall|k: int| 0 <= k < stack@.len() ==> (#[trigger] stack@[k] as int) < n && reachable(g, stack@[k] as int),
            forall|i: int, k: int|
                0 <= i < n && seen@[i] && 0 <= k < g[i].len() ==> seen@[#[trigger] g[i][k] as int]
                    || stack@.contains(g[i][k]),
            seen@[0] || stack@.contains(0u32),
        decreases unseen(seen@), stack@.len(),
    {
        let ghost old_stack = stack@;
        let ghost old_seen = seen@;
        let index = stack.pop().unwrap();
        assert(stack@ == old_stack.drop_last() && index == old_stack.last());
        assert(reachable(g, index as int));
        if !seen[index as usize] {
            seen.set(index as usize, true);
            proof {
                lemma_unseen_update(old_seen, index as int);
            }
            let ts = terminator_targets(&blocks[index as usize].terminator);
            assert(ts@ == g[index as int]);
            let ghost mid = stack@;
            let mut t: usize = 0;
            while t < ts.len()
                invariant
                    t <= ts@.len(),
                    g.len() == n,
                    targets_in_range(g),
                    (index as int) < n,
                    reachable(g, index as int),
                    ts@ == g[index as int],
                    stack@ == mid + ts@.take(t as int),
                    forall|k: int| 0 <= k < stack@.len() ==> (#[trigger] stack@[k] as int) < n && reachable(
                        g,
                        stack@[k] as int,
                    ),
                decreases ts.len() - t,
            {
                proof {
                    let p = choose|p: Seq<int>| is_path(g, p) && p.last() == index as int;
                    assert(g[index as int].contains(ts@[t as int]));
                    lemma_path_extend(g, p, ts@[t as int]);
                }
                stack.push(ts[t]);
                assert(ts@.take(t + 1) =~= ts@.take(t as int).push(ts@[t as int]));
                t = t + 1;
            }
            assert(ts@.take(ts@.len() as int) =~= ts@);
            proof {
                assert forall|i: int, k: int|
                    0 <= i < n && seen@[i] && 0 <= k < g[i].len() implies seen@[#[trigger] g[i][k] as int]
                        || stack@.contains(g[i][k]) by {
                    if i == index as int {
                        assert(stack@[mid.len() + k] == g[i][k]);
                    } else if !old_seen[g[i][k] as int] {
                        assert(old_stack.contains(g[i][k]));
                        if g[i][k] != index {
                            let m = old_stack.index_of(g[i][k]);
                            assert(m < old_stack.len() - 1);
                            assert(stack@[m] == g[i][k]);
                        }
                    }
                }
                if !seen@[0] {
                    let m = old_stack.index_of(0u32);
                    assert(m < old_stack.len() - 1);
                    assert(stack@[m] == 0u32);
                }
            }
        } else {
            proof {
                assert forall|i: int, k: int|
                    0 <= i < n && seen@[i] && 0 <= k < g[i].len() implies seen@[#[trigger] g[i][k] as int]
                        || stack@.contains(g[i][k]) by {
                    if !seen@[g[i][k] as int] {
                        assert(old_stack.contains(g[i][k]));
                        let m = old_stack.index_of(g[i][k]);
                        assert(m < old_stack.len() - 1);
                        assert(stack@[m] == g[i][k]);
                    }
                }
                if !seen@[0] {
                    let m = old_stack.index_of(0u32);
                    assert(m < old_stack.len() - 1);
                    assert(stack@[m] == 0u32);
                }
            }
        }
    }
    proof {
        assert forall|i: int| 0 <= i < n implies seen@[i] == reach_flags(g)[i] by {
            if reachable(g, i) {
                let p = choose|p: Seq<int>| is_path(g, p) && p.last() == i;
                lemma_closed_covers(g, seen@, p);
            }
        }
        assert(seen@ =~= reach_flags(g));
    }
    seen
}

/// A surviving block's every successor survives too.
proof fn lemma_successor_reachable(g: Seq<Seq<u32>>, i: int, k: int)
    requires
        targets_in_range(g),
        0 <= i < g.len(),
        0 <= k < g[i].len(),
        reachable(g, i),
    ensures
        reachable(g, g[i][k] as int),
{
    let p = choose|p: Seq<int>| is_path(g, p) && p.last() == i;
    assert(g[i][k] < g.len());
    assert(g[p.last()].contains(g[i][k]));
    lemma_path_extend(g, p, g[i][k]);
}

/// Retargeting depends only on where the terminator's own targets go.
proof fn lemma_retarget_agree(t: Terminator, f1: spec_fn(u32) -> u32, f2: spec_fn(u32) -> u32)
    requires
        forall|k: int| 0 <= k < targets(t).len() ==> f1(#[trigger] targets(t)[k]) == f2(targets(t)[k]),
    ensures
        retarget(term_model(t), f1) == retarget(term_model(t), f2),
{
    match t {
        Terminator::Goto(b) => {
            assert(targets(t)[0] == b.0);
        },
        Terminator::Branch { then_block, else_block, .. } => {
            assert(targets(t)[0] == then_block.0);
            assert(targets(t)[1] == else_block.0);
        },
        Terminator::Switch { discr, arms, otherwise } => {
            let am = Seq::new(arms@.len(), |k: int| (arms@[k].0, arms@[k].1.0));
            assert forall|k: int| 0 <= k < am.len() implies f1(#[trigger] am[k].1) == f2(am[k].1) by {
                assert(targets(t)[k] == arms@[k].1.0);
            }
            assert(targets(t)[arms@.len() as int] == otherwise.0);
            assert(Seq::new(am.len(), |k: int| (am[k].0, f1(am[k].1))) =~= Seq::new(
                am.len(),
                |k: int| (am[k].0, f2(am[k].1)),
            ));
        },
        Terminator::Assert { target, .. } => {
            assert(targets(t)[0] == target.0);
        },
        _ => {},
    }
}

/// `new` holds the reachable blocks of `old`, in their former order, each
/// with its statements untouched and its targets renumbered to the targets'
/// new indices.
pub open spec fn kept_blocks<S>(new: Seq<BasicBlock<S>>, old: Seq<BasicBlock<S>>) -> bool {
    let flags = reach_flags(succs(old));
    let surv = survivors(flags);
    &&& new.len() == surv.len()
    &&& forall|k: int|
        0 <= k < new.len() ==> (#[trigger] new[k]).statements == old[surv[k]].statements && term_model(
            new[k].terminator,
        ) == retarget(term_model(old[surv[k]].terminator), |b: u32| rank(flags, b as int) as u32)
}

/// Delete the basic blocks unreachable from the entry block and renumber the
/// survivors densely, rewriting every terminator target. Returns whether any
/// block was removed; a fully reachable function is left as it is.
pub fn remove_unreachable_blocks<S>(blocks: &mut Vec<BasicBlock<S>>) -> (changed: bool)
    requires
        0 < old(blocks)@.len() <= u32::MAX,
        targets_in_range(succs(old(blocks)@)),
    ensures
        changed == exists|i: int| 0 <= i < old(blocks)@.len() && !reachable(succs(old(blocks)@), i),
        !changed ==> final(blocks)@ == old(blocks)@,
        changed ==> kept_blocks(final(blocks)@, old(blocks)@),
{
    let ghost orig = blocks@;
    let ghost g = succs(orig);
    let seen = reachable_blocks(blocks);
    let ghost flags = seen@;
    let n = blocks.len();
    let mut remap: Vec<Option<usize>> = Vec::new();
    let mut count: usize = 0;
    let mut i: usize = 0;
    while i < n
        invariant
            n == orig.len(),
            flags == seen@,
            flags.len() == n,
            i <= n,
            remap@.len() == i,
            count == rank(flags, i as int),
            count <= i,
            (count == i) == (forall|j: int| 0 <= j < i ==> #[trigger] flags[j]),
            forall|j: int|
                0 <= j < i ==> #[trigger] remap@[j] == if flags[j] {
                    Some(rank(flags, j) as usize)
                } else {
                    None
                },
        decreases n - i,
    {
        if seen[i] {
            remap.push(Some(count));
            count = count + 1;
        } else {
            remap.push(None);
        }
        i = i + 1;
    }
    if count == n {
        assert(forall|j: int| 0 <= j < n ==> #[trigger] flags[j]);
        assert forall|j: int| 0 <= j < n implies reachable(g, j) by {
            assert(flags[j] == reach_flags(g)[j]);
        }
        return false;
    }
    proof {
        let j = choose|j: int| 0 <= j < n && !#[trigger] flags[j];
        assert(reach_flags(g)[j] == flags[j]);
    }
    let mut old_blocks: Vec<BasicBlock<S>> = Vec::new();
    std::mem::swap(&mut old_blocks, blocks);
    let mut kept: Vec<BasicBlock<S>> = Vec::new();
    let mut i: usize = 0;
    assert(orig.skip(0) =~= orig);
    assert(flags.take(0) =~= Seq::<bool>::empty());
    while i < n
        invariant
            n == orig.len(),
            g == succs(orig),
            targets_in_range(g),
            flags == reach_flags(g),
            flags == seen@,
            remap@.len() == n,
            forall|j: int|
                0 <= j < n ==> #[trigger] remap@[j] == if flags[j] {
                    Some(rank(flags, j) as usize)
                } else {
                    None
                },
            i <= n,
            old_blocks@ == orig.skip(i as int),
            kept@.len() == survivors(flags.take(i as int)).len(),
            forall|k: int|
                0 <= k < kept@.len() ==> (#[trigger] kept@[k]).statements == orig[survivors(
                    flags.take(i as int),
                )[k]].statements && term_model(kept@[k].terminator) == retarget(
                    term_model(orig[survivors(flags.take(i as int))[k]].terminator),
                    |b: u32| rank(flags, b as int) as u32,
                ),
            forall|k: int| 0 <= k < survivors(flags.take(i as int)).len() ==> 0 <= #[trigger] survivors(flags.take(i as int))[k] < i,
        decreases n - i,
    {
        let ghost before = old_blocks@;
        let mut block = old_blocks.remove(0);
        assert(block == orig[i as int]);
        assert(old_blocks@ =~= orig.skip(i + 1));
        let ghost t0 = block.terminator;
        remap_terminator(&mut block.terminator, remap.as_slice());
        let ghost prev = kept@;
        let ghost sv = survivors(flags.take(i as int));
        proof {
            assert(flags.take(i + 1).drop_last() =~= flags.take(i as int));
            assert(flags.take(i + 1).last() == flags[i as int]);
        }
        if seen[i] {
            proof {
                assert(g[i as int] == targets(t0));
                assert forall|k: int| 0 <= k < targets(t0).len() implies (|b: u32| lookup(remap@, b))(
                    #[trigger] targets(t0)[k],
                ) == (|b: u32| rank(flags, b as int) as u32)(targets(t0)[k]) by {
                    lemma_successor_reachable(g, i as int, k);
                    let b = targets(t0)[k];
                    assert(b == g[i as int][k]);
                    assert((b as int) < n);
                    assert(flags[b as int]);
                    assert(remap@[b as int] == Some(rank(flags, b as int) as usize));
                    lemma_rank_bounded(flags, b as int);
                }
                lemma_retarget_agree(t0, |b: u32| lookup(remap@, b), |b: u32| rank(flags, b as int) as u32);
            }
            kept.push(block);
            proof {
                let sv2 = survivors(flags.take(i + 1));
                assert(sv2 == sv.push(i as int));
                assert forall|k: int| 0 <= k < kept@.len() implies (#[trigger] kept@[k]).statements
                    == orig[sv2[k]].statements && term_model(kept@[k].terminator) == retarget(
                    term_model(orig[sv2[k]].terminator),
                    |b: u32| rank(flags, b as int) as u32,
                ) by {
                    if k < prev.len() {
                        assert(kept@[k] == prev[k]);
                        assert(sv2[k] == sv[k]);
                    }
                }
            }
        } else {
            proof {
                assert(survivors(flags.take(i + 1)) == sv);
            }
        }
        i = i + 1;
    }
    assert(flags.take(n as int) =~= flags);
    *blocks = kept;
    true
}

/// New indices never exceed the number of blocks.
pub proof fn lemma_rank_bounded(flags: Seq<bool>, i: int)
    requires
        0 <= i <= flags.len(),
    ensures
        rank(flags, i) <= i,
    decreases i,
{
    if i > 0 {
        lemma_rank_bounded(flags, i - 1);
    }
}

// ---------------------------------------------------------------------------
// Laws of the pass.
// ---------------------------------------------------------------------------

/// The survivors are the kept indices in increasing order, and a kept
/// index's rank is its position among them.
pub proof fn lemma_survivors(flags: Seq<bool>)
    ensures
        survivors(flags).len() == rank(flags, flags.len() as int),
        forall|k: int|
            0 <= k < survivors(flags).len() ==> 0 <= #[trigger] survivors(flags)[k] < flags.len()
                && flags[survivors(flags)[k]] && rank(flags, survivors(flags)[k]) == k,
        forall|j: int|
            0 <= j < flags.len() && #[trigger] flags[j] ==> rank(flags, j) < survivors(flags).len()
                && survivors(flags)[rank(flags, j) as int] == j,
    decreases flags.len(),
{
    if flags.len() > 0 {
        let f = flags.drop_last();
        lemma_survivors(f);
        lemma_rank_prefix(flags, f.len() as int);
        assert forall|j: int| 0 <= j <= f.len() implies rank(flags, j) == rank(f, j) by {
            lemma_rank_prefix(flags, j);
        }
        let sv = survivors(flags);
        let sf = survivors(f);
        assert forall|k: int| 0 <= k < sv.len() implies 0 <= #[trigger] sv[k] < flags.len() && flags[sv[k]]
            && rank(flags, sv[k]) == k by {
            if k < sf.len() {
                assert(sv[k] == sf[k]);
                assert(f[sf[k]] == flags[sf[k]]);
            } else {
                assert(sv[k] == flags.len() - 1);
            }
        }
        assert forall|j: int| 0 <= j < flags.len() && #[trigger] flags[j] implies rank(flags, j) < sv.len()
            && sv[rank(flags, j) as int] == j by {
            if j < f.len() {
                assert(f[j] == flags[j]);
            }
        }
    }
}

/// The rank of a position depends only on the flags before it.
proof fn lemma_rank_prefix(flags: Seq<bool>, j: int)
    requires
        0 <= j < flags.len(),
    ensures
        rank(flags, j) == rank(flags.drop_last(), j),
    decreases j,
{
    if j > 0 {
        lemma_rank_prefix(flags, j - 1);
    }
}

/// A retargeted terminator's targets are the old ones, each mapped.
proof fn lemma_retarget_targets(t: Terminator, t2: Terminator, f: spec_fn(u32) -> u32)
    requires
        term_model(t2) == retarget(term_model(t), f),
    ensures
        targets(t2) == targets(t).map_values(f),
{
    match t {
        Terminator::Switch { arms, otherwise, .. } => {
            match t2 {
                Terminator::Switch { arms: arms2, otherwise: otherwise2, .. } => {
                    let am = Seq::new(arms@.len(), |k: int| (arms@[k].0, arms@[k].1.0));
                    let am2 = Seq::new(arms2@.len(), |k: int| (arms2@[k].0, arms2@[k].1.0));
                    assert(am2 == Seq::new(am.len(), |k: int| (am[k].0, f(am[k].1))));
                    assert forall|k: int| 0 <= k < arms2@.len() implies arms2@[k].1.0 == f(arms@[k].1.0) by {
                        assert(am2[k].1 == arms2@[k].1.0);
                    }
                    assert(targets(t2) =~= targets(t).map_values(f));
                },
                _ => {},
            }
        },
        _ => {
            assert(targets(t2) =~= targets(t).map_values(f));
        },
    }
}

/// After the pass the blocks form valid MIR again — the entry survives and
/// every target names a block — and every remaining block is reachable, so
/// running the pass a second time removes nothing.
pub proof fn law_removal_is_idempotent<S>(old: Seq<BasicBlock<S>>, new: Seq<BasicBlock<S>>)
    requires
        0 < old.len() <= u32::MAX,
        targets_in_range(succs(old)),
        kept_blocks(new, old),
    ensures
        new.len() > 0,
        targets_in_range(succs(new)),
        forall|k: int| 0 <= k < new.len() ==> reachable(succs(new), k),
{
    let g = succs(old);
    let flags = reach_flags(g);
    let surv = survivors(flags);
    let f = |b: u32| rank(flags, b as int) as u32;
    let g2 = succs(new);
    lemma_survivors(flags);
    // The entry is reachable, so it is kept, and first.
    assert(is_path(g, seq![0int]));
    assert(flags[0]);
    // Each kept block's successors are the ranks of its old successors.
    assert forall|k: int| 0 <= k < new.len() implies #[trigger] g2[k] == g[surv[k]].map_values(f) by {
        lemma_retarget_targets(old[surv[k]].terminator, new[k].terminator, f);
    }
    assert forall|k: int, m: int| 0 <= k < g2.len() && 0 <= m < g2[k].len() implies #[trigger] g2[k][m] < g2.len() by {
        let b = g[surv[k]][m];
        lemma_successor_reachable(g, surv[k], m);
        assert(flags[b as int]);
        lemma_rank_bounded(flags, b as int);
        assert(g2[k][m] == f(b));
    }
    assert forall|k: int| 0 <= k < new.len() implies reachable(g2, k) by {
        let s = surv[k];
        assert(flags[s]);
        let p = choose|p: Seq<int>| #[trigger] is_path(g, p) && p.last() == s;
        lemma_path_renumbered(g, g2, flags, surv, p);
    }
}

/// A path of the old graph, renumbered, is a path of the new one.
proof fn lemma_path_renumbered(
    g: Seq<Seq<u32>>,
    g2: Seq<Seq<u32>>,
    flags: Seq<bool>,
    surv: Seq<int>,
    p: Seq<int>,
)
    requires
        g.len() <= u32::MAX,
        targets_in_range(g),
        flags == reach_flags(g),
        surv == survivors(flags),
        g2.len() == surv.len(),
        forall|k: int| 0 <= k < g2.len() ==> #[trigger] g2[k] == g[surv[k]].map_values(
            |b: u32| rank(flags, b as int) as u32,
        ),
        is_path(g, p),
    ensures
        is_path(g2, p.map_values(|x: int| rank(flags, x) as int)),
        p.map_values(|x: int| rank(flags, x) as int).last() == rank(flags, p.last()),
    decreases p.len(),
{
    lemma_survivors(flags);
    let q = p.map_values(|x: int| rank(flags, x) as int);
    // Every node of a path from the entry is reachable, hence kept.
    assert forall|k: int| 0 <= k < p.len() implies #[trigger] flags[p[k]] by {
        let pre = p.take(k + 1);
        assert(is_path(g, pre)) by {
            assert forall|m: int| 1 <= m < pre.len() implies g[pre[m - 1]].contains(#[trigger] pre[m] as u32) by {
                assert(pre[m - 1] == p[m - 1] && pre[m] == p[m]);
            }
        }
        assert(pre.last() == p[k]);
        assert(reachable(g, p[k]));
    }
    assert forall|k: int| 0 <= k < q.len() implies 0 <= #[trigger] q[k] < g2.len() by {
        assert(flags[p[k]]);
    }
    assert forall|m: int| 1 <= m < q.len() implies g2[q[m - 1]].contains(#[trigger] q[m] as u32) by {
        let a = p[m - 1];
        let b = p[m];
        assert(g[a].contains(b as u32));
        let idx = g[a].index_of(b as u32);
        assert(flags[a]);
        let r = rank(flags, a) as int;
        assert(surv[r] == a);
        assert(g2[r] == g[a].map_values(|b: u32| rank(flags, b as int) as u32));
        assert(g2[r][idx] == rank(flags, b) as u32);
        lemma_rank_bounded(flags, b);
        assert(q[m] == rank(flags, b) as int);
        assert(g2[q[m - 1]].contains(q[m] as u32));
    }
    assert(q[0] == rank(flags, 0));
}

} // verus!
