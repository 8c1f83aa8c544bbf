//! The structural checks of a MIR body: its signature agrees with its
//! locals and blocks, every terminator names an existing block, and a
//! switch's arm values are pairwise distinct.

use vstd::prelude::*;
use crate::mir::{BasicBlock, Terminator};
use crate::opt::unreachable_blocks::{succs, targets, targets_in_range, terminator_targets};
use crate::text::{decimal, push_decimal, push_str};

verus! {

/// A fault the structural checks find.
#[derive(Clone, Copy, PartialEq, Eq, Structural, Debug)]
pub enum StructFault {
    /// More parameter modes than locals.
    TooManyParams {
        /// The number of parameter modes.
        params: usize,
        /// The number of locals.
        locals: usize,
    },
    /// A body without basic blocks.
    NoBlocks,
    /// A terminator names a block that does not exist.
    MissingTarget {
        /// The block whose terminator names it.
        block: usize,
        /// The named block.
        target: u32,
    },
    /// A switch repeats an arm value.
    DuplicateArm {
        /// The block of the switch.
        block: usize,
        /// The repeated value.
        value: i128,
    },
}

/// The decimal rendering of a signed value.
pub open spec fn signed_decimal(v: i128) -> Seq<char> {
    if v < 0 {
        seq!['-'] + decimal((-v) as nat)
    } else {
        decimal(v as nat)
    }
}

/// Append the decimal rendering of a signed value.
fn push_signed(out: &mut String, v: i128)
    ensures
        final(out)@ == old(out)@ + signed_decimal(v),
{
    if v < 0 {
        out.push('-');
        let m: u128 = if v == i128::MIN {
            170141183460469231731687303715884105728u128
        } else {
            (-v) as u128
        };
        push_decimal_u128(out, m);
        assert(old(out)@.push('-') + decimal(m as nat) =~= old(out)@ + signed_decimal(v));
    } else {
        push_decimal_u128(out, v as u128);
    }
}

/// Append the decimal rendering of an unsigned 128-bit value.
fn push_decimal_u128(out: &mut String, n: u128)
    ensures
        final(out)@ == old(out)@ + decimal(n as nat),
    decreases n,
{
    if n >= 10 {
        push_decimal_u128(out, n / 10);
    }
    let d = (n % 10) as u8;
    let c = (48u8 + d) as char;
    assert(c == crate::text::digit_char((n % 10) as nat));
    out.push(c);
}

impl StructFault {
    /// The fault's number in the MIR diagnostic namespace.
    pub fn code(&self) -> (r: u16)
        ensures
            r == match *self {
                StructFault::TooManyParams { .. } => 7u16,
                StructFault::NoBlocks => 7u16,
                StructFault::MissingTarget { .. } => 1u16,
                StructFault::DuplicateArm { .. } => 8u16,
            },
    {
        match self {
            StructFault::TooManyParams { .. } => 7,
            StructFault::NoBlocks => 7,
            StructFault::MissingTarget { .. } => 1,
            StructFault::DuplicateArm { .. } => 8,
        }
    }

    /// The fault's message, for the function named `fn_name`.
    pub fn message(&self, fn_name: &str) -> (r: String)
        ensures
            r@ == "fn `"@ + fn_name@ + "`: "@ + match *self {
                StructFault::TooManyParams { params, locals } => decimal(params as nat) + " parameter modes but only "@
                    + decimal(locals as nat) + " locals"@,
                StructFault::NoBlocks => "a function body has no basic blocks"@,
                StructFault::MissingTarget { block, target } => "bb"@ + decimal(block as nat)
                    + "'s terminator jumps to bb"@ + decimal(target as nat) + " which does not exist"@,
                StructFault::DuplicateArm { block, value } => "bb"@ + decimal(block as nat)
                    + "'s switch has a duplicated arm value "@ + signed_decimal(value),
            },
    {
        let mut out = String::new();
        proof {
            assert(out@ =~= Seq::<char>::empty());
        }
        push_str(&mut out, "fn `");
        push_str(&mut out, fn_name);
        push_str(&mut out, "`: ");
        match self {
            StructFault::TooManyParams { params, locals } => {
                push_decimal(&mut out, *params as u64);
                push_str(&mut out, " parameter modes but only ");
                push_decimal(&mut out, *locals as u64);
                push_str(&mut out, " locals");
            },
            StructFault::NoBlocks => {
                push_str(&mut out, "a function body has no basic blocks");
            },
            StructFault::MissingTarget { block, target } => {
                push_str(&mut out, "bb");
                push_decimal(&mut out, *block as u64);
                push_str(&mut out, "'s terminator jumps to bb");
                push_decimal(&mut out, *target as u64);
                push_str(&mut out, " which does not exist");
            },
            StructFault::DuplicateArm { block, value } => {
                push_str(&mut out, "bb");
                push_decimal(&mut out, *block as u64);
                push_str(&mut out, "'s switch has a duplicated arm value ");
                push_signed(&mut out, *value);
            },
        }
        out
    }
}

/// The signature's faults: more parameter modes than locals, and no blocks.
pub open spec fn signature_faults(params: usize, locals: usize, blocks: nat) -> Seq<StructFault> {
    (if params > locals {
        seq![StructFault::TooManyParams { params, locals }]
    } else {
        seq![]
    }) + (if blocks == 0 {
        seq![StructFault::NoBlocks]
    } else {
        seq![]
    })
}

/// Check a body's signature: the parameter modes fit in the locals, and
/// there is at least one block.
pub fn check_signature<S>(params: usize, locals: usize, blocks: &Vec<BasicBlock<S>>) -> (r: Vec<StructFault>)
    ensures
        r@ == signature_faults(params, locals, blocks@.len()),
{
    let mut out: Vec<StructFault> = Vec::new();
    if params > locals {
        out.push(StructFault::TooManyParams { params, locals });
    }
    if blocks.len() == 0 {
        out.push(StructFault::NoBlocks);
    }
    assert(out@ =~= signature_faults(params, locals, blocks@.len()));
    out
}

/// The block count as the checks compare it: the length, saturated to the
/// largest block index type value.
pub open spec fn block_count(n: nat) -> u32 {
    if n > u32::MAX {
        u32::MAX
    } else {
        n as u32
    }
}

/// The missing-target faults of a target list, in order.
pub open spec fn missing_targets(b: usize, ts: Seq<u32>, count: u32) -> Seq<StructFault>
    decreases ts.len(),
{
    if ts.len() == 0 {
        seq![]
    } else {
        missing_targets(b, ts.drop_last(), count) + if ts.last() >= count {
            seq![StructFault::MissingTarget { block: b, target: ts.last() }]
        } else {
            seq![]
        }
    }
}

/// The values of a switch's arms.
pub open spec fn arm_values(t: Terminator) -> Seq<i128> {
    match t {
        Terminator::Switch { arms, .. } => Seq::new(arms@.len(), |k: int| arms@[k].0),
        _ => seq![],
    }
}

/// The duplicate-arm faults among the first `k` arm values: each value
/// equal to an earlier one, in order.
pub open spec fn duplicate_arms(b: usize, vs: Seq<i128>, k: int) -> Seq<StructFault>
    decreases k,
{
    if k <= 0 {
        seq![]
    } else {
        duplicate_arms(b, vs, k - 1) + if vs.take(k - 1).contains(vs[k - 1]) {
            seq![StructFault::DuplicateArm { block: b, value: vs[k - 1] }]
        } else {
            seq![]
        }
    }
}

/// The target faults of one block's terminator.
pub open spec fn block_target_faults(b: usize, t: Terminator, count: u32) -> Seq<StructFault> {
    missing_targets(b, targets(t), count) + duplicate_arms(b, arm_values(t), arm_values(t).len() as int)
}

/// The target faults of the first `k` blocks, in block order.
pub open spec fn target_faults_upto<S>(blocks: Seq<BasicBlock<S>>, k: int) -> Seq<StructFault>
    decreases k,
{
    if k <= 0 {
        seq![]
    } else {
        target_faults_upto(blocks, k - 1) + block_target_faults(
            (k - 1) as usize,
            blocks[k - 1].terminator,
            block_count(blocks.len()),
        )
    }
}

/// Check every terminator: each target names an existing block, and a
/// switch's arm values are pairwise distinct.
pub fn check_targets<S>(blocks: &Vec<BasicBlock<S>>) -> (r: Vec<StructFault>)
    ensures
        r@ == target_faults_upto(blocks@, blocks@.len() as int),
{
    let count: u32 = if blocks.len() > 4294967295usize {
        4294967295u32
    } else {
        blocks.len() as u32
    };
    assert(count == block_count(blocks@.len()));
    let mut out: Vec<StructFault> = Vec::new();
    let mut index: usize = 0;
    while index < blocks.len()
        invariant
            index <= blocks@.len(),
            count == block_count(blocks@.len()),
            out@ == target_faults_upto(blocks@, index as int),
        decreases blocks.len() - index,
    {
        let ghost start = out@;
        let terminator = &blocks[index].terminator;
        let ts = terminator_targets(terminator);
        let mut k: usize = 0;
        assert(ts@.take(0) =~= Seq::<u32>::empty());
        while k < ts.len()
            invariant
                k <= ts@.len(),
                out@ == start + missing_targets(index, ts@.take(k as int), count),
            decreases ts.len() - k,
        {
            assert(ts@.take(k + 1).drop_last() =~= ts@.take(k as int));
            assert(ts@.take(k + 1).last() == ts@[k as int]);
            if ts[k] >= count {
                out.push(StructFault::MissingTarget { block: index, target: ts[k] });
            }
            assert(out@ =~= start + missing_targets(index, ts@.take(k + 1), count));
            k = k + 1;
        }
        assert(ts@.take(k as int) =~= ts@);
        let ghost mid = out@;
        if let Terminator::Switch { arms, .. } = terminator {
            let ghost vs = arm_values(*terminator);
            let mut a: usize = 0;
            while a < arms.len()
                invariant
                    a <= arms@.len(),
                    vs == Seq::new(arms@.len(), |k: int| arms@[k].0),
                    out@ == mid + duplicate_arms(index, vs, a as int),
                decreases arms.len() - a,
            {
                let value = arms[a].0;
                let mut seen = false;
                let mut j: usize = 0;
                while j < a
                    invariant
                        j <= a < arms@.len(),
                        vs == Seq::new(arms@.len(), |k: int| arms@[k].0),
                        seen == exists|m: int| 0 <= m < j && vs[m] == value,
                    decreases a - j,
                {
                    assert(vs[j as int] == arms@[j as int].0);
                    if arms[j].0 == value {
                        seen = true;
                    }
                    j = j + 1;
                }
                proof {
                    assert(value == vs[a as int]);
                    if seen {
                        let m = choose|m: int| 0 <= m < a && vs[m] == value;
                        assert(vs.take(a as int)[m] == value);
                    }
                    if vs.take(a as int).contains(value) {
                        let m = vs.take(a as int).index_of(value);
                        assert(vs[m] == value);
                    }
                }
                if seen {
                    out.push(StructFault::DuplicateArm { block: index, value });
                }
                assert(out@ =~= mid + duplicate_arms(index, vs, a + 1));
                a = a + 1;
            }
            assert(out@ == start + block_target_faults(index, *terminator, count));
        } else {
            assert(arm_values(*terminator) =~= Seq::<i128>::empty());
            assert(out@ =~= start + block_target_faults(index, *terminator, count));
        }
        assert(out@ =~= target_faults_upto(blocks@, index + 1));
        index = index + 1;
    }
    out
}

/// A target list without missing-target faults names only blocks below
/// the count.
proof fn lemma_no_missing_targets(b: usize, ts: Seq<u32>, count: u32)
    requires
        missing_targets(b, ts, count).len() == 0,
    ensures
        forall|k: int| 0 <= k < ts.len() ==> #[trigger] ts[k] < count,
    decreases ts.len(),
{
    if ts.len() > 0 {
        lemma_no_missing_targets(b, ts.drop_last(), count);
        assert forall|k: int| 0 <= k < ts.len() implies #[trigger] ts[k] < count by {
            if k < ts.len() - 1 {
                assert(ts.drop_last()[k] == ts[k]);
            }
        }
    }
}

/// Without target faults among the first `k` blocks, none of them has a
/// missing target.
proof fn lemma_clean_prefix<S>(blocks: Seq<BasicBlock<S>>, k: int)
    requires
        target_faults_upto(blocks, k).len() == 0,
    ensures
        forall|i: int|
            0 <= i < k ==> (#[trigger] missing_targets(
                i as usize,
                targets(blocks[i].terminator),
                block_count(blocks.len()),
            )).len() == 0,
    decreases k,
{
    if k > 0 {
        lemma_clean_prefix(blocks, k - 1);
    }
}

/// When the target check finds nothing, every terminator of a body of at
/// most `u32::MAX` blocks names an existing block: the condition the
/// initialization check needs of the control-flow graph.
pub proof fn law_clean_targets_are_in_range<S>(blocks: Seq<BasicBlock<S>>)
    requires
        blocks.len() <= u32::MAX,
        target_faults_upto(blocks, blocks.len() as int) == Seq::<StructFault>::empty(),
    ensures
        targets_in_range(succs(blocks)),
{
    let g = succs(blocks);
    assert forall|i: int, k: int| 0 <= i < g.len() && 0 <= k < g[i].len() implies #[trigger] g[i][k] < g.len() by {
        lemma_clean_prefix(blocks, blocks.len() as int);
        assert(missing_targets(i as usize, targets(blocks[i].terminator), block_count(blocks.len())).len() == 0);
        lemma_no_missing_targets(i as usize, targets(blocks[i].terminator), block_count(blocks.len()));
        assert(g[i] == targets(blocks[i].terminator));
    }
}

} // verus!
