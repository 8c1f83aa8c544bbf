//! The MIR optimization framework.
//!
//! An optimization is only ever a **meaning-preserving rewrite**: every pass
//! rewrites only where it can prove the observable behavior (return value and
//! the *which*/*whether* of a deterministic trap) is unchanged, and declines
//! otherwise. Each pass has a stable name, a declared purpose (what it
//! rewrites and why it is sound), and declared preconditions (always at least
//! "verified MIR").
//!
//! The v0 pass set, in pipeline order:
//!
//! - [`const_fold`] — fold constant-operand arithmetic, comparisons, unary
//!   ops, and casts to a single constant, *except* where the operation would
//!   trap.
//! - `copy-prop` — forward a local that is a simple copy of another operand
//!   to that operand's readers.
//! - [`unreachable_blocks`] — drop basic blocks no control-flow edge reaches.
//! - `dead-locals` — remove locals (and the statements that only write them)
//!   whose value is never read.

pub mod const_fold;
pub mod unreachable_blocks;
pub mod dead_locals;
pub mod copy_prop;

use vstd::prelude::*;
use crate::mir::LocalId;

verus! {

/// A per-pass record of how much a pass changed, for measurement.
#[derive(Debug, PartialEq, Eq)]
pub struct PassReport {
    /// The pass's stable name.
    pub name: &'static str,
    /// Whether the pass modified any function of the program.
    pub changed: bool,
}

/// The measurement summary of one optimization run.
#[derive(Debug, PartialEq, Eq)]
pub struct OptReport {
    /// One entry per pass, in run order.
    pub passes: Vec<PassReport>,
}

impl OptReport {
    /// Whether any pass changed the program.
    pub fn changed(&self) -> (r: bool)
        ensures
            r == exists|i: int| 0 <= i < self.passes@.len() && #[trigger] self.passes@[i].changed,
    {
        let mut i: usize = 0;
        while i < self.passes.len()
            invariant
                i <= self.passes@.len(),
                forall|j: int| 0 <= j < i ==> !#[trigger] self.passes@[j].changed,
            decreases self.passes.len() - i,
        {
            if self.passes[i].changed {
                return true;
            }
            i = i + 1;
        }
        false
    }
}

/// The pipeline's passes, in run order: (name, purpose, preconditions).
pub open spec fn pipeline_spec() -> Seq<(Seq<char>, Seq<char>, Seq<Seq<char>>)> {
    seq![
        (
            "const-fold"@,
            "Replace a constant-operand arithmetic, comparison, unary, or cast rvalue with the single constant it evaluates to, matching the reference interpreter — but never folding an operation that would trap, since that would erase an observable deterministic abort."@,
            seq![
                "verified MIR"@,
                "operand types are consistent (the verifier guarantees a binary op's operands share a kind), so folding may trust the operand kinds it reads"@,
            ],
        ),
        (
            "copy-prop"@,
            "Forward a local defined as a plain copy of a constant or another local to that local's later readers within the same block, removing the indirection so the copy can become dead — invalidating the fact on any write, borrow, call, or drop that could make it stale."@,
            seq![
                "verified MIR"@,
                "copy sources are `Copy` places (a non-Copy value would be moved, not copied), so re-reading the source is always sound"@,
            ],
        ),
        (
            "unreachable-blocks"@,
            "Delete basic blocks unreachable from the entry block and renumber the survivors densely, rewriting every terminator target — sound because a block no edge reaches never executes."@,
            seq!["verified MIR"@, "block 0 is the entry (reachability starts there)"@],
        ),
        (
            "dead-locals"@,
            "Delete side-effect-free assignments whose destination local is never read, then remove and densely renumber locals that end up referenced nowhere — keeping parameters and any trapping or calling statement, whose effects are observable regardless of use."@,
            seq!["verified MIR"@, "locals 0..params.len() are the parameters and are never removed"@],
        ),
    ]
}

/// The views of a sequence of static strings.
pub open spec fn strs_model(v: Seq<&'static str>) -> Seq<Seq<char>> {
    Seq::new(v.len(), |i: int| v[i]@)
}

/// The declared name, purpose, and preconditions of every pass in the
/// pipeline, in pipeline order, for documentation and the framework
/// self-check.
pub fn pass_descriptions() -> (r: Vec<(&'static str, &'static str, Vec<&'static str>)>)
    ensures
        r@.len() == pipeline_spec().len(),
        forall|i: int|
            0 <= i < r@.len() ==> (#[trigger] r@[i]).0@ == pipeline_spec()[i].0 && r@[i].1@
                == pipeline_spec()[i].1 && strs_model(r@[i].2@) == pipeline_spec()[i].2,
{
    let mut out: Vec<(&'static str, &'static str, Vec<&'static str>)> = Vec::new();
    out.push(
        (
            "const-fold",
            "Replace a constant-operand arithmetic, comparison, unary, or cast rvalue with the single constant it evaluates to, matching the reference interpreter — but never folding an operation that would trap, since that would erase an observable deterministic abort.",
            vec![
                "verified MIR",
                "operand types are consistent (the verifier guarantees a binary op's operands share a kind), so folding may trust the operand kinds it reads",
            ],
        ),
    );
    out.push(
        (
            "copy-prop",
            "Forward a local defined as a plain copy of a constant or another local to that local's later readers within the same block, removing the indirection so the copy can become dead — invalidating the fact on any write, borrow, call, or drop that could make it stale.",
            vec![
                "verified MIR",
                "copy sources are `Copy` places (a non-Copy value would be moved, not copied), so re-reading the source is always sound",
            ],
        ),
    );
    out.push(
        (
            "unreachable-blocks",
            "Delete basic blocks unreachable from the entry block and renumber the survivors densely, rewriting every terminator target — sound because a block no edge reaches never executes.",
            vec!["verified MIR", "block 0 is the entry (reachability starts there)"],
        ),
    );
    out.push(
        (
            "dead-locals",
            "Delete side-effect-free assignments whose destination local is never read, then remove and densely renumber locals that end up referenced nowhere — keeping parameters and any trapping or calling statement, whose effects are observable regardless of use.",
            vec!["verified MIR", "locals 0..params.len() are the parameters and are never removed"],
        ),
    );
    proof {
        assert forall|i: int| 0 <= i < out@.len() implies strs_model((#[trigger] out@[i]).2@) == pipeline_spec()[i].2 by {
            assert(strs_model(out@[i].2@) =~= pipeline_spec()[i].2);
        }
    }
    out
}

/// Renumber `local` through `remap`: a local with a `Some` entry takes its
/// new index, any other local is left as it is.
pub fn remap_local(local: &mut LocalId, remap: &[Option<u32>])
    ensures
        (old(local).0 < remap@.len() && remap@[old(local).0 as int] is Some) ==> final(local).0
            == remap@[old(local).0 as int]->Some_0,
        !(old(local).0 < remap@.len() && remap@[old(local).0 as int] is Some) ==> *final(local)
            == *old(local),
{
    let index = local.0 as usize;
    if index < remap.len() {
        match remap[index] {
            Some(new_index) => {
                local.0 = new_index;
            },
            None => {},
        }
    }
}


/// The most rounds the pipeline runs; it stops earlier once a round changes
/// nothing.
pub const MAX_ROUNDS: usize = 8;

/// Where a pipeline run stands: the round, the pass to run next in it,
/// whether the round has changed anything so far, and the report so far.
#[derive(Debug)]
pub struct Pipeline {
    /// The current round, from 0.
    pub round: usize,
    /// The index of the next pass to run, in pipeline order.
    pub pass: usize,
    /// Whether a pass of the current round changed the program.
    pub round_changed: bool,
    /// One entry per pass: whether it changed the program in any round.
    pub report: OptReport,
}

/// What comes after pass `pass` of round `round` reported `changed`: the
/// next pass of the round; after the last pass, a new round if this one
/// changed anything and the cap allows; otherwise the end.
pub open spec fn next_spec(round: usize, pass: usize, round_changed: bool, changed: bool) -> Option<(usize, usize, bool)> {
    if pass + 1 < 4 {
        Some((round, (pass + 1) as usize, round_changed || changed))
    } else if (round_changed || changed) && round + 1 < MAX_ROUNDS {
        Some(((round + 1) as usize, 0usize, false))
    } else {
        None
    }
}

impl Pipeline {
    /// A run about to start: round 0, the first pass, every pass unchanged.
    pub fn start() -> (p: Pipeline)
        ensures
            p.round == 0,
            p.pass == 0,
            !p.round_changed,
            p.report.passes@.len() == 4,
            forall|i: int|
                0 <= i < 4 ==> (#[trigger] p.report.passes@[i]).name@ == pipeline_spec()[i].0
                    && !p.report.passes@[i].changed,
    {
        let d = pass_descriptions();
        let mut passes: Vec<PassReport> = Vec::new();
        let mut i: usize = 0;
        while i < d.len()
            invariant
                d@.len() == pipeline_spec().len(),
                forall|j: int| 0 <= j < d@.len() ==> (#[trigger] d@[j]).0@ == pipeline_spec()[j].0,
                i <= d@.len(),
                passes@.len() == i,
                forall|j: int|
                    0 <= j < i ==> (#[trigger] passes@[j]).name@ == pipeline_spec()[j].0 && !passes@[j].changed,
            decreases d.len() - i,
        {
            passes.push(PassReport { name: d[i].0, changed: false });
            i = i + 1;
        }
        Pipeline { round: 0, pass: 0, round_changed: false, report: OptReport { passes } }
    }

    /// Record that the current pass reported `changed` (over every
    /// function) and move on; `false` when the run is over.
    pub fn advance(&mut self, changed: bool) -> (more: bool)
        requires
            old(self).pass < 4,
            old(self).round < MAX_ROUNDS,
            old(self).report.passes@.len() == 4,
        ensures
            final(self).report.passes@.len() == 4,
            forall|i: int|
                0 <= i < 4 ==> (#[trigger] final(self).report.passes@[i]).name == old(self).report.passes@[i].name
                    && final(self).report.passes@[i].changed == (old(self).report.passes@[i].changed || (i
                    == old(self).pass && changed)),
            more == next_spec(old(self).round, old(self).pass, old(self).round_changed, changed) is Some,
            more ==> (final(self).round, final(self).pass, final(self).round_changed) == next_spec(
                old(self).round,
                old(self).pass,
                old(self).round_changed,
                changed,
            )->Some_0,
            more ==> final(self).pass < 4 && final(self).round < MAX_ROUNDS,
    {
        let k = self.pass;
        let name = self.report.passes[k].name;
        let was = self.report.passes[k].changed;
        self.report.passes.set(k, PassReport { name, changed: was || changed });
        let rc = self.round_changed || changed;
        if k + 1 < 4 {
            self.pass = k + 1;
            self.round_changed = rc;
            true
        } else if rc && self.round + 1 < MAX_ROUNDS {
            self.round = self.round + 1;
            self.pass = 0;
            self.round_changed = false;
            true
        } else {
            self.round_changed = rc;
            false
        }
    }
}
} // verus!
