//! Which edges end an iteration of a loop.

use vstd::prelude::*;

use crate::branch_values::branch_wf;
use crate::cfg::Cfg;
use crate::continues::{linear_edge, straight_edge, ContinueInput};
use crate::evidence::{BranchCandidate, LoopCandidate, LoopKindHint};
use crate::ids::{BlockRef, EdgeRef};
use crate::lir::{JumpInstr, LowInstr};
use crate::loop_laws::{ends_in, is_fork};

verus! {

/// At block `b` the loop's next iteration begins: it is where the loop goes on, or it does
/// nothing but jump there and a back edge comes from it.
pub open spec fn begins_next(input: &ContinueInput, c: &LoopCandidate, b: BlockRef) -> bool {
    let cfg = input.cfg;
    &&& c.continue_target is Some
    &&& {
        ||| c.continue_target == Some(b)
        ||| cfg.range(b).len == 1 && (exists|j: JumpInstr| #[trigger]
            ends_in(input.proto, cfg, b, LowInstr::Jump(j)) && c.continue_target == Some(cfg.instr_to_block@[j.target.0 as int])) && (
        exists|k: int| 0 <= k < c.backedges@.len() && cfg.edge(#[trigger] c.backedges@[k]).from == b)
    }
}

/// An edge that a branch is taken to end an iteration by leads from a block of the loop to
/// where its next iteration begins, and the loop is no `repeat`.
pub proof fn continue_edges_lead_to_the_next_iteration(input: &ContinueInput, loops: Seq<LoopCandidate>, i: int, e: EdgeRef)
    requires
        input.wf(),
        forall|k: int| 0 <= k < loops.len() ==> (#[trigger] loops[k]).wf(input.cfg),
        0 <= i < loops.len(),
        input.ends_iteration(loops, i, e),
    ensures
        loops[i].kind_hint != LoopKindHint::RepeatLike,
        input.cfg.has_edge(e),
        loops[i].blocks@.contains(input.cfg.edge(e).from),
        begins_next(input, &loops[i], input.cfg.edge(e).to),
{
    let cfg = input.cfg;
    let k = choose|k: int| 0 <= k < input.branches@.len() && input.claims(loops, i, &(#[trigger] input.branches@[k]), e);
    let b = &input.branches@[k];
    let c = &loops[i];
    assert(c.wf(cfg));
    let (t, f) = cfg.branch_edges_of(b.header)->0;
    assert(branch_wf(cfg, &input.branches@[k]));
    cfg.branch_edges_by_kind(b.header, t, f);
    if (e == t || e == f) && input.arm_claim(loops, i, b, e) {
        let to = cfg.edge(e).to;
        match cfg.terminator_of(input.proto.instrs@, to) {
            Some(instr) => {
                assert(ends_in(input.proto, cfg, to, instr));
            },
            None => {},
        }
    } else if input.straight_claim(c, b.then_entry, b.merge, e) {
        straight_edges_reach(cfg, c.blocks@, b.merge, c.continue_target->0, b.then_entry, Seq::empty(), cfg.blocks@.len() + 1);
    } else {
        straight_edges_reach(cfg, c.blocks@, None, c.continue_target->0, b.merge->0, Seq::empty(), cfg.blocks@.len() + 1);
    }
}

proof fn straight_edges_reach(
    cfg: &Cfg,
    blocks: Set<BlockRef>,
    merge: Option<BlockRef>,
    target: BlockRef,
    current: BlockRef,
    visited: Seq<BlockRef>,
    fuel: nat,
)
    requires
        cfg.wf(),
        forall|b: BlockRef| #[trigger] blocks.contains(b) ==> cfg.has_block(b),
        straight_edge(cfg, blocks, merge, target, current, visited, fuel) is Some,
    ensures
        ({
            let e = straight_edge(cfg, blocks, merge, target, current, visited, fuel)->0;
            &&& cfg.has_edge(e) && blocks.contains(cfg.edge(e).from) && cfg.edge(e).to == target
            &&& cfg.out_edges(cfg.edge(e).from).len() == 1
        }),
    decreases fuel,
{
    let e = cfg.out_edges(current)[0];
    assert(cfg.has_block(current));
    assert(cfg.has_edge(e) && cfg.edge(e).from == current);
    if cfg.edge(e).to != target {
        straight_edges_reach(cfg, blocks, merge, target, cfg.edge(e).to, visited.push(current), (fuel - 1) as nat);
    }
}

/// The arm of a branch that goes straight on ends the iteration by its last edge: a block of
/// the loop with no other way on, right before where the loop goes on.
pub proof fn straight_arms_end_at_the_target(
    cfg: &Cfg,
    blocks: Set<BlockRef>,
    start: BlockRef,
    merge: Option<BlockRef>,
    target: BlockRef,
)
    requires
        cfg.wf(),
        forall|b: BlockRef| #[trigger] blocks.contains(b) ==> cfg.has_block(b),
        linear_edge(cfg, blocks, start, merge, target) is Some,
    ensures
        ({
            let e = linear_edge(cfg, blocks, start, merge, target)->0;
            &&& merge != Some(target)
            &&& cfg.has_edge(e) && blocks.contains(cfg.edge(e).from) && cfg.edge(e).to == target
            &&& cfg.out_edges(cfg.edge(e).from).len() == 1
        }),
{
    straight_edges_reach(cfg, blocks, merge, target, start, Seq::empty(), cfg.blocks@.len() + 1);
}

/// Where a function has one loop, a branch in it ends the iteration by an edge that leads to
/// where the loop goes on, unless the loop is a `repeat` or a numeric `for`, repeats by that
/// very edge, or goes on at the branch itself.
pub proof fn branches_to_the_target_end_the_iteration(
    input: &ContinueInput,
    loops: Seq<LoopCandidate>,
    k: int,
    e: EdgeRef,
    other: EdgeRef,
)
    requires
        input.wf(),
        loops.len() == 1,
        0 <= k < input.branches@.len(),
        input.cfg.has_block(input.branches@[k].header),
        input.cfg.out_edges(input.branches@[k].header).len() == 2,
        is_fork(input.cfg, input.branches@[k].header, e, other) || is_fork(input.cfg, input.branches@[k].header, other, e),
        input.cfg.edge(e).to != input.cfg.edge(other).to,
        loops[0].continue_target == Some(input.cfg.edge(e).to),
        loops[0].kind_hint != LoopKindHint::RepeatLike && loops[0].kind_hint != LoopKindHint::NumericForLike,
        loops[0].blocks@.contains(input.branches@[k].header),
        loops[0].continue_target != Some(input.branches@[k].header),
        !loops[0].backedges@.contains(e),
    ensures
        input.ends_iteration(loops, 0, e),
{
    let b: &BranchCandidate = &input.branches@[k];
    if is_fork(input.cfg, b.header, e, other) {
        input.cfg.branch_edges_by_kind(b.header, e, other);
    } else {
        input.cfg.branch_edges_by_kind(b.header, other, e);
    }
    assert(input.arm_claim(loops, 0, b, e));
    assert(input.claims(loops, 0, &input.branches@[k], e));
}

} // verus!
