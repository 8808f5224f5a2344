//! Which edges need a goto, and which never do.

use vstd::prelude::*;

use crate::cfg::{Cfg, EdgeKind};
use crate::evidence::{BranchCandidate, GotoReason, GotoRequirement, LoopCandidate, LoopKindHint};
use crate::gotos::GotoInput;
use crate::ids::{BlockRef, EdgeRef};
use crate::loop_laws::is_fork;

verus! {

/// Edge `e` leads from the header of branch `b` to one of its arms or to its merge.
pub open spec fn branch_takes(cfg: &Cfg, b: BranchCandidate, e: EdgeRef) -> bool {
    let edge = cfg.edge(e);
    b.header == edge.from && (b.then_entry == edge.to || b.else_entry == Some(edge.to) || b.merge == Some(edge.to))
}

/// Edge `e` leads from a block of the loop to where the loop goes on.
pub open spec fn ends_iteration_of(cfg: &Cfg, c: &LoopCandidate, e: EdgeRef) -> bool {
    c.blocks@.contains(cfg.edge(e).from) && c.continue_target == Some(cfg.edge(e).to)
}

pub open spec fn loose_continue(e: EdgeRef) -> GotoRequirement {
    GotoRequirement { edge: e, reason: GotoReason::UnstructuredContinueLike }
}

/// An edge from the header of a branch to one of its arms or its merge is no loose continue.
pub proof fn branches_account_for_their_edges(input: &GotoInput, e: EdgeRef, k: int)
    requires
        0 <= k < input.branches@.len(),
        branch_takes(input.cfg, input.branches@[k], e),
    ensures
        !input.needs_goto(loose_continue(e)),
{
    let edge = input.cfg.edge(e);
    assert(input.branches@[k].header == edge.from);
    assert(input.is_branch_arm(edge.from, edge.to));
}

/// An edge that every loop whose iteration it ends counts among its continue edges or its
/// back edges is no loose continue. Neither is one that no loop's iteration ends with, that
/// falls through, or that starts at an unreachable block.
pub proof fn loops_account_for_their_edges(input: &GotoInput, e: EdgeRef)
    requires
        (forall|i: int|
            0 <= i < input.loops@.len() && ends_iteration_of(input.cfg, #[trigger] &input.loops@[i], e)
                ==> input.loops@[i].continue_edges@.contains(e) || input.loops@[i].backedges@.contains(e)) || input.cfg.edge(e).kind
            == EdgeKind::Fallthrough || !input.cfg.reachable_blocks@.contains(input.cfg.edge(e).from),
    ensures
        !input.needs_goto(loose_continue(e)),
{
    if input.needs_goto(loose_continue(e)) {
        let i = choose|i: int| 0 <= i < input.loops@.len() && #[trigger] input.continues_loosely(i, e);
        assert(ends_iteration_of(input.cfg, &input.loops@[i], e));
    }
}

/// Block `x` leaves a smaller loop inside of `c` that has the same header.
pub open spec fn leaves_inner(input: &GotoInput, c: &LoopCandidate, x: BlockRef) -> bool {
    exists|j: int| {
        &&& 0 <= j < input.loops@.len()
        &&& (#[trigger] input.loops@[j]).header == c.header
        &&& input.loops@[j].exits@.contains(x)
        &&& input.loops@[j].blocks@.len() < c.blocks@.len()
        &&& forall|b: BlockRef| #[trigger] input.loops@[j].blocks@.contains(b) ==> c.blocks@.contains(b)
    }
}

/// Both edges out of block `x` lead to `t`.
pub open spec fn forks_to_one(cfg: &Cfg, x: BlockRef, t: BlockRef) -> bool {
    cfg.out_edges(x).len() == 2 && exists|a: EdgeRef, b: EdgeRef| #[trigger]
        is_fork(cfg, x, a, b) && cfg.edge(a).to == t && cfg.edge(b).to == t
}

/// A reachable edge, other than a fall through, that ends an iteration of a loop needs a goto
/// where nothing accounts for it: the loop counts it neither among its continue edges nor its
/// back edges, where the loop goes on no rest of the body stands, no branch takes the edge, it
/// does not leave a smaller loop with the same header, and it is not one of two edges of a
/// branch that lead to the same block.
pub proof fn loose_continues_need_a_goto(input: &GotoInput, e: EdgeRef, i: int)
    requires
        input.wf(),
        input.cfg.has_edge(e),
        0 <= i < input.loops@.len(),
        ends_iteration_of(input.cfg, &input.loops@[i], e),
        !input.loops@[i].continue_edges@.contains(e),
        !input.loops@[i].backedges@.contains(e),
        input.cfg.edge(e).kind != EdgeKind::Fallthrough,
        input.cfg.reachable_blocks@.contains(input.cfg.edge(e).from),
        input.loops@[i].kind_hint == LoopKindHint::WhileLike || input.loops@[i].kind_hint == LoopKindHint::GenericForLike
            || input.loops@[i].kind_hint == LoopKindHint::Unknown || input.cfg.range(input.cfg.edge(e).to).len == 0,
        forall|k: int| 0 <= k < input.branches@.len() ==> !branch_takes(input.cfg, #[trigger] input.branches@[k], e),
        !leaves_inner(input, &input.loops@[i], input.cfg.edge(e).from),
        !forks_to_one(input.cfg, input.cfg.edge(e).from, input.cfg.edge(e).to),
    ensures
        input.needs_goto(loose_continue(e)),
{
    let c = &input.loops@[i];
    let edge = input.cfg.edge(e);
    assert(!input.is_branch_arm(edge.from, edge.to)) by {
        if input.is_branch_arm(edge.from, edge.to) {
            let k = choose|k: int|
                0 <= k < input.branches@.len() && (#[trigger] input.branches@[k]).header == edge.from && (
                input.branches@[k].then_entry == edge.to || input.branches@[k].else_entry == Some(edge.to)
                    || input.branches@[k].merge == Some(edge.to));
            assert(branch_takes(input.cfg, input.branches@[k], e));
        }
    }
    assert(!input.inner_exit(c, edge.from)) by {
        if input.inner_exit(c, edge.from) {
            let j = choose|j: int|
                0 <= j < input.loops@.len() && (#[trigger] input.loops@[j]).exits@.contains(edge.from) && input.loops@[j].header
                    == c.header && input.loops@[j].blocks@.len() < c.blocks@.len() && input.loops@[j].blocks@.subset_of(
                    c.blocks@,
                );
            assert(input.loops@[j].header == c.header);
        }
    }
    assert(!input.both_ways(edge.from, edge.to)) by {
        if input.both_ways(edge.from, edge.to) {
            let (a, b) = input.cfg.branch_edges_of(edge.from)->0;
            input.cfg.branch_edges_by_kind(edge.from, a, b);
            assert(is_fork(input.cfg, edge.from, a, b));
        }
    }
    assert(input.continues_loosely(i, e));
}

/// A listed loose continue ends an iteration of a loop that counts it neither among its
/// continue edges nor its back edges; no branch takes it.
pub proof fn listed_continues_are_loose(input: &GotoInput, e: EdgeRef)
    requires
        input.needs_goto(loose_continue(e)),
    ensures
        exists|i: int| {
            &&& 0 <= i < input.loops@.len()
            &&& ends_iteration_of(input.cfg, #[trigger] &input.loops@[i], e)
            &&& !input.loops@[i].continue_edges@.contains(e)
            &&& !input.loops@[i].backedges@.contains(e)
            &&& !leaves_inner(input, &input.loops@[i], input.cfg.edge(e).from)
        },
        input.cfg.has_edge(e),
        input.cfg.edge(e).kind != EdgeKind::Fallthrough,
        input.cfg.reachable_blocks@.contains(input.cfg.edge(e).from),
        forall|k: int| 0 <= k < input.branches@.len() ==> !branch_takes(input.cfg, #[trigger] input.branches@[k], e),
{
    let i = choose|i: int| 0 <= i < input.loops@.len() && #[trigger] input.continues_loosely(i, e);
    let c = &input.loops@[i];
    let edge = input.cfg.edge(e);
    assert(ends_iteration_of(input.cfg, &input.loops@[i], e));
    assert forall|k: int| 0 <= k < input.branches@.len() implies !branch_takes(input.cfg, #[trigger] input.branches@[k], e) by {
        if branch_takes(input.cfg, input.branches@[k], e) {
            assert(input.branches@[k].header == edge.from);
            assert(input.is_branch_arm(edge.from, edge.to));
        }
    }
    if leaves_inner(input, c, edge.from) {
        let j = choose|j: int| {
            &&& 0 <= j < input.loops@.len()
            &&& (#[trigger] input.loops@[j]).header == c.header
            &&& input.loops@[j].exits@.contains(edge.from)
            &&& input.loops@[j].blocks@.len() < c.blocks@.len()
            &&& forall|b: BlockRef| #[trigger] input.loops@[j].blocks@.contains(b) ==> c.blocks@.contains(b)
        };
        assert(input.loops@[j].exits@.contains(edge.from));
        assert(input.loops@[j].blocks@.subset_of(c.blocks@));
        assert(input.inner_exit(c, edge.from));
    }
}

/// Edge `e` leads from a reachable block outside of the loop into it, past its header.
pub open spec fn enters_past_header(cfg: &Cfg, c: &LoopCandidate, e: EdgeRef) -> bool {
    &&& cfg.reachable_blocks@.contains(cfg.edge(e).from)
    &&& !c.blocks@.contains(cfg.edge(e).from)
    &&& c.blocks@.contains(cfg.edge(e).to)
    &&& cfg.edge(e).to != c.header
}

/// An edge needs a goto as a second entry just when it leads from a reachable block outside
/// of some loop into it, past its header.
pub proof fn second_entries_need_a_goto(input: &GotoInput, e: EdgeRef)
    ensures
        input.needs_goto(GotoRequirement { edge: e, reason: GotoReason::MultiEntryRegion }) <==> (input.cfg.has_edge(e) && exists|
            i: int,
        | 0 <= i < input.loops@.len() && enters_past_header(input.cfg, #[trigger] &input.loops@[i], e)),
{
    let q = GotoRequirement { edge: e, reason: GotoReason::MultiEntryRegion };
    if input.needs_goto(q) {
        let i = choose|i: int| 0 <= i < input.loops@.len() && #[trigger] input.enters_beside(i, e);
        assert(enters_past_header(input.cfg, &input.loops@[i], e));
    }
    if input.cfg.has_edge(e) && !input.needs_goto(q) {
        assert forall|i: int| 0 <= i < input.loops@.len() implies !enters_past_header(input.cfg, #[trigger] &input.loops@[i], e) by {
            if input.enters_beside(i, e) {
                assert(q.edge == e && q.reason == GotoReason::MultiEntryRegion);
                assert(input.enters_beside(i, q.edge));
                assert(input.needs_goto(q));
            }
        }
    }
}

/// The entries of irreducible regions need a goto, and no other edge needs one for that
/// reason. Nothing that leaves a loop ever needs one for leaving it.
pub proof fn irreducible_entries_need_a_goto(input: &GotoInput, e: EdgeRef)
    ensures
        input.needs_goto(GotoRequirement { edge: e, reason: GotoReason::IrreducibleFlow }) <==> input.cfg.has_edge(e) && exists|
            i: int,
            k: int,
        |
            0 <= i < input.irreducible@.len() && 0 <= k < input.irreducible@[i].entry_edges@.len()
                && #[trigger] input.irreducible@[i].entry_edges@[k] == e,
        !input.needs_goto(GotoRequirement { edge: e, reason: GotoReason::UnstructuredBreakLike }),
{
    if exists|i: int, k: int|
        0 <= i < input.irreducible@.len() && 0 <= k < input.irreducible@[i].entry_edges@.len()
            && #[trigger] input.irreducible@[i].entry_edges@[k] == e {
        let (i, k) = choose|i: int, k: int|
            0 <= i < input.irreducible@.len() && 0 <= k < input.irreducible@[i].entry_edges@.len()
                && #[trigger] input.irreducible@[i].entry_edges@[k] == e;
        assert(input.irreducible@[i].entry_edges@.contains(e));
    }
}

/// A back edge needs a goto for crossing a loop only where another loop, smaller and inside
/// of the scope of its own, holds the edge's source in its scope and has another header. It
/// needs none where that inner loop leaves to the outer header only.
pub proof fn crossing_edges_leave_an_inner_loop(input: &GotoInput, e: EdgeRef)
    requires
        input.needs_goto(GotoRequirement { edge: e, reason: GotoReason::CrossLoopContinueLike }),
    ensures
        input.cfg.has_edge(e),
        exists|i: int, j: int|
            #![trigger input.loops@[i], input.loops@[j]]
            {
                let outer = input.loops@[i];
                let inner = input.loops@[j];
                &&& 0 <= i < input.loops@.len() && 0 <= j < input.loops@.len()
                &&& outer.backedges@.contains(e) && input.cfg.edge(e).to == outer.header
                &&& inner.header != outer.header
                &&& inner.body_scope_blocks@.contains(input.cfg.edge(e).from)
                &&& inner.blocks@.len() < outer.blocks@.len()
                &&& forall|b: BlockRef| #[trigger] inner.blocks@.contains(b) ==> outer.body_scope_blocks@.contains(b)
                &&& inner.exits@ != Set::<BlockRef>::empty().insert(outer.header)
            },
{
    let i = choose|i: int| 0 <= i < input.loops@.len() && #[trigger] input.crosses_loop(i, e);
    let j = choose|j: int| 0 <= j < input.loops@.len() && #[trigger] input.lies_between(i, j, e);
    let outer = input.loops@[i];
    let inner = input.loops@[j];
    if inner.exits@ == Set::<BlockRef>::empty().insert(outer.header) {
        assert(input.exits_only_to(&input.loops@[j], outer.header));
    }
}

/// A back edge from the scope of a smaller loop inside, with another header, from which the
/// outer header cannot be left to, needs a goto.
pub proof fn edges_out_of_inner_loops_need_a_goto(input: &GotoInput, e: EdgeRef, i: int, j: int)
    requires
        input.cfg.has_edge(e),
        0 <= i < input.loops@.len(),
        0 <= j < input.loops@.len(),
        input.loops@[i].backedges@.contains(e),
        input.cfg.edge(e).to == input.loops@[i].header,
        input.loops@[j].header != input.loops@[i].header,
        input.loops@[j].body_scope_blocks@.contains(input.cfg.edge(e).from),
        input.loops@[j].blocks@.len() < input.loops@[i].blocks@.len(),
        forall|b: BlockRef| #[trigger]
            input.loops@[j].blocks@.contains(b) ==> input.loops@[i].body_scope_blocks@.contains(b),
        !input.loops@[j].exits@.contains(input.loops@[i].header),
    ensures
        input.needs_goto(GotoRequirement { edge: e, reason: GotoReason::CrossLoopContinueLike }),
{
    assert(input.loops@[j].blocks@.subset_of(input.loops@[i].body_scope_blocks@));
    assert(input.lies_between(i, j, e));
    assert(input.crosses_loop(i, e));
}

} // verus!
