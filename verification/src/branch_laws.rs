//! What a classified branch says of the ways through the graph.

use vstd::prelude::*;

use crate::branches::{continues_at, core_size, for_exit_owner, is_soft_merge, scope_size, soft_merge};
use crate::cfg::{Cfg, EdgeKind};
use crate::classify::{heads_loop, BranchIndex, Fork};
use crate::evidence::{BranchCandidate, BranchKind, LoopCandidate, LoopKindHint};
use crate::forest::up;
use crate::graph::GraphFacts;
use crate::ids::BlockRef;
use crate::search::{first_where, first_where_least, least_where, least_where_least};
use crate::tree::{common, covers_is_ancestry, nearest_common, up_node};

verus! {

/// The candidate has one arm: one target of the fork is the arm and the other the merge, and
/// the hint says whether the arm is the target of the false edge.
pub open spec fn has_one_arm(f: Fork, c: BranchCandidate) -> bool {
    &&& c.header == f.header
    &&& c.else_entry is None
    &&& {
        ||| c.then_entry == f.then_entry && c.merge == Some(f.else_entry) && !c.invert_hint
        ||| c.then_entry == f.else_entry && c.merge == Some(f.then_entry) && c.invert_hint
    }
}

/// The candidate has both targets of the fork as its arms, in their order.
pub open spec fn has_two_arms(f: Fork, c: BranchCandidate) -> bool {
    c.header == f.header && c.then_entry == f.then_entry && c.else_entry == Some(f.else_entry) && !c.invert_hint
}

/// A branch keeps its header and its targets: an `if` with two arms has both as arms, any
/// other has one as its arm and the other as its merge.
pub proof fn branches_keep_their_targets(index: &BranchIndex, f: Fork, irreducible: bool)
    ensures
        ({
            let c = index.classified(f, irreducible);
            if c.kind == BranchKind::IfElse {
                has_two_arms(f, c)
            } else {
                has_one_arm(f, c)
            }
        }),
{
}

/// An `if` with one arm goes by post-dominance where exactly one target of the fork
/// post-dominates the other: that one is the merge, every way from the arm to the exit
/// passes it, and not the other way round.
pub proof fn post_dominated_arms_run_into_their_merge(index: &BranchIndex, f: Fork)
    ensures
        index.postdom_arm(f) is Some <==> index.graph.postdom(f.then_entry, f.else_entry) != index.graph.postdom(
            f.else_entry,
            f.then_entry,
        ),
        index.postdom_arm(f) is Some ==> {
            let c = index.postdom_arm(f)->0;
            &&& has_one_arm(f, c)
            &&& c.kind == BranchKind::IfThen
            &&& index.graph.postdom(c.merge->0, c.then_entry)
            &&& !index.graph.postdom(c.then_entry, c.merge->0)
        },
{
}

/// The common post-dominator of two blocks post-dominates both.
pub proof fn common_post_dominators_post_dominate(cfg: &Cfg, g: &GraphFacts, left: BlockRef, right: BlockRef)
    requires
        g.sized(cfg),
        g.common_postdom(left, right) is Some,
    ensures
        g.postdom(g.common_postdom(left, right)->0, left),
        g.postdom(g.common_postdom(left, right)->0, right),
        forall|b: BlockRef| #[trigger] g.postdom(b, left) && g.postdom(b, right) ==> g.postdom(b, g.common_postdom(left, right)->0),
{
    let t = &g.post_dominator_tree.tree;
    let y = t.nca(left.0, right.0)->0;
    assert(nearest_common(t.parent@, y, left.0, right.0));
    covers_is_ancestry(t, y, left.0);
    covers_is_ancestry(t, y, right.0);
    let k = choose|k: nat| #[trigger] up(t.parent@, left.0, k) == Some(y);
    up_node(t, left.0, k);
    assert(up(t.parent@, left.0, 0) == Some(left.0) && up(t.parent@, right.0, 0) == Some(right.0));
    assert forall|b: BlockRef| #[trigger] g.postdom(b, left) && g.postdom(b, right) implies g.postdom(
        b,
        g.common_postdom(left, right)->0,
    ) by {
        covers_is_ancestry(t, b.0, left.0);
        covers_is_ancestry(t, b.0, right.0);
        covers_is_ancestry(t, b.0, y);
        assert(common(t.parent@, b.0, left.0, right.0));
    }
}

/// Block `b` plays no part in loop `c`: it is none of its blocks, control blocks or scope, no
/// back edge comes from it and the loop does not go on at it.
pub open spec fn apart_from(cfg: &Cfg, c: &LoopCandidate, b: BlockRef) -> bool {
    &&& !c.blocks@.contains(b)
    &&& !c.body_scope_blocks@.contains(b)
    &&& !c.control_blocks@.contains(b)
    &&& c.continue_target != Some(b)
    &&& forall|k: int| 0 <= k < c.backedges@.len() ==> cfg.edge(#[trigger] c.backedges@[k]).from != b
}

/// A branch apart from all loops is never a guard. Where exactly one of its targets
/// post-dominates the other, it has one arm, which the merge post-dominates. Where the two
/// have a common post-dominator short of the exit and neither is it, it has two arms, and
/// that block is the merge.
pub proof fn branches_outside_loops(index: &BranchIndex, f: Fork)
    requires
        index.wf(),
        forall|i: int| 0 <= i < index.loops@.len() ==> apart_from(index.cfg, #[trigger] &index.loops@[i], f.header),
    ensures
        ({
            let c = index.classified(f, false);
            let g = index.graph;
            let strict = g.common_postdom(f.then_entry, f.else_entry);
            &&& c.kind != BranchKind::Guard
            &&& g.postdom(f.then_entry, f.else_entry) != g.postdom(f.else_entry, f.then_entry) ==> {
                &&& c.kind == BranchKind::IfThen && has_one_arm(f, c)
                &&& g.postdom(c.merge->0, c.then_entry)
                &&& !g.postdom(c.then_entry, c.merge->0)
            }
            &&& c.kind == BranchKind::IfThen ==> has_one_arm(f, c) && (g.postdom(c.merge->0, c.then_entry) || (strict is None
                && g.frontier_has(c.then_entry, c.merge->0)))
            &&& c.kind == BranchKind::IfElse && c.merge is Some && strict != Some(index.cfg.exit_block) ==> g.postdom(
                c.merge->0,
                f.then_entry,
            ) && g.postdom(c.merge->0, f.else_entry)
            &&& !g.postdom(f.then_entry, f.else_entry) && !g.postdom(f.else_entry, f.then_entry) && strict is Some && strict->0
                != index.cfg.exit_block ==> c.kind == BranchKind::IfElse && c.merge == strict
        }),
{
    let n = index.loops@.len();
    let g = index.graph;
    no_loop_owns(index, f);
    if g.common_postdom(f.then_entry, f.else_entry) is Some {
        common_post_dominators_post_dominate(index.cfg, g, f.then_entry, f.else_entry);
    }
}

/// What goes by loops does not apply to a branch apart from all of them.
proof fn no_loop_owns(index: &BranchIndex, f: Fork)
    requires
        forall|i: int| 0 <= i < index.loops@.len() ==> apart_from(index.cfg, #[trigger] &index.loops@[i], f.header),
    ensures
        index.break_guard(f) is None,
        index.continue_guard(f) is None,
        index.endless_branch(f) is None,
        index.for_exit_branch(f) is None,
        index.exit_bounded(f) is None,
{
    let n = index.loops@.len();
    least_where_least(n, index.break_owner(f), scope_size(index.loops@));
    least_where_least(n, index.continue_owner(f), scope_size(index.loops@));
    least_where_least(n, index.endless_owner(f), core_size(index.loops@));
    if let Some(strict) = index.graph.common_postdom(f.then_entry, f.else_entry) {
        least_where_least(
            n,
            for_exit_owner(index.cfg, index.loops@, f.header, f.then_entry, f.else_entry, strict),
            scope_size(index.loops@),
        );
        first_where_least(n, index.exit_owner(f, strict));
    }
    assert forall|i: int| 0 <= i < n implies !(#[trigger] index.loops@[i]).owns(index.cfg, f.header) by {
        assert(apart_from(index.cfg, &index.loops@[i], f.header));
    }
}

/// Block `b` is an exit of the loop, or goes on to one over its only edge.
pub open spec fn leads_out(cfg: &Cfg, c: &LoopCandidate, b: BlockRef) -> bool {
    ||| c.exits@.contains(b)
    ||| cfg.out_edges(b).len() == 1 && c.exits@.contains(cfg.edge(cfg.out_edges(b)[0]).to)
}

/// A guard that leaves a loop stands in that loop, and its arm is an exit of the loop or goes
/// straight to one, while the other target does neither or serves the loop's control; no
/// loop in which it does so has a smaller scope. What stays in the loop does not run into the
/// arm anyway.
pub proof fn break_guards_leave_their_loop(index: &BranchIndex, f: Fork)
    requires
        index.break_guard(f) is Some,
    ensures
        ({
            let c = index.break_guard(f)->0;
            &&& c.kind == BranchKind::Guard && has_one_arm(f, c)
            &&& !index.graph.postdom(c.then_entry, c.merge->0)
            &&& exists|i: int|
                0 <= i < index.loops@.len() && breaks_here(index, #[trigger] &index.loops@[i], c) && forall|j: int|
                    0 <= j < index.loops@.len() && breaks_here(index, #[trigger] &index.loops@[j], c)
                        ==> index.loops@[i].body_scope_blocks@.len() <= index.loops@[j].body_scope_blocks@.len()
        }),
{
    let n = index.loops@.len();
    least_where_least(n, index.break_owner(f), scope_size(index.loops@));
    let i = least_where(n, index.break_owner(f), scope_size(index.loops@))->0;
    assert((index.break_owner(f))(i));
    let c = index.break_guard(f)->0;
    assert(breaks_here(index, &index.loops@[i], c));
    assert forall|j: int| 0 <= j < n && breaks_here(index, #[trigger] &index.loops@[j], c) implies index.loops@[i].body_scope_blocks@.len()
        <= index.loops@[j].body_scope_blocks@.len() by {
        assert(index.loops@[j].owns(index.cfg, f.header));
        assert((index.break_owner(f))(j));
    }
}

/// The branch stands in the loop, outside of its control, and its arm leaves the loop.
pub open spec fn breaks_here(index: &BranchIndex, l: &LoopCandidate, c: BranchCandidate) -> bool {
    &&& !apart_from(index.cfg, l, c.header)
    &&& !l.control_blocks@.contains(c.header)
    &&& l.condition_header != Some(c.header)
    &&& leads_out(index.cfg, l, c.then_entry)
    &&& l.continue_target != Some(c.then_entry) && l.condition_header != Some(c.then_entry) && !l.control_blocks@.contains(
        c.then_entry,
    )
    &&& !leads_out(index.cfg, l, c.merge->0) || l.continue_target == c.merge || l.condition_header == c.merge
        || l.control_blocks@.contains(c.merge->0)
}

/// Where a branch stands in one loop only, outside of its control, exactly one target leads
/// out of the loop, neither serves its control and the other does not run into the way out
/// anyway, the branch is a guard with the target that leaves as its arm.
pub proof fn ways_out_are_guarded(index: &BranchIndex, f: Fork, irreducible: bool)
    requires
        index.loops@.len() == 1,
        !apart_from(index.cfg, &index.loops@[0], f.header),
        !index.loops@[0].control_blocks@.contains(f.header),
        index.loops@[0].condition_header != Some(f.header),
        leads_out(index.cfg, &index.loops@[0], f.then_entry) != leads_out(index.cfg, &index.loops@[0], f.else_entry),
        forall|b: BlockRef|
            b == f.then_entry || b == f.else_entry ==> index.loops@[0].continue_target != Some(b) && index.loops@[0].condition_header
                != Some(b) && !#[trigger] index.loops@[0].control_blocks@.contains(b),
        leads_out(index.cfg, &index.loops@[0], f.then_entry) ==> !index.graph.postdom(f.then_entry, f.else_entry),
        leads_out(index.cfg, &index.loops@[0], f.else_entry) ==> !index.graph.postdom(f.else_entry, f.then_entry),
    ensures
        ({
            let c = index.classified(f, irreducible);
            &&& c.kind == BranchKind::Guard && has_one_arm(f, c)
            &&& leads_out(index.cfg, &index.loops@[0], c.then_entry)
            &&& !leads_out(index.cfg, &index.loops@[0], c.merge->0)
        }),
{
    let n = index.loops@.len();
    let p = index.break_owner(f);
    let l = &index.loops@[0];
    least_where_least(n, p, scope_size(index.loops@));
    assert(!l.control_blocks@.contains(f.then_entry) && !l.control_blocks@.contains(f.else_entry));
    assert(l.owns(index.cfg, f.header));
    assert(p(0));
}

/// Block `b` takes the loop to its next iteration: the loop goes on there, or it is a block
/// with nothing but a jump, and a back edge leads from it to the header.
pub open spec fn goes_back(cfg: &Cfg, l: &LoopCandidate, b: BlockRef) -> bool {
    ||| l.continue_target == Some(b)
    ||| cfg.range(b).len == 1 && cfg.out_edges(b).len() == 1 && cfg.edge(cfg.out_edges(b)[0]).kind == EdgeKind::Jump && cfg.edge(
        cfg.out_edges(b)[0],
    ).to == l.header && exists|k: int|
        0 <= k < l.backedges@.len() && cfg.edge(#[trigger] l.backedges@[k]).from == b && cfg.edge(l.backedges@[k]).to == l.header
}

/// A guard that ends an iteration stands in the loop with both of its targets, and its arm
/// takes the loop to its next iteration.
pub proof fn continue_guards_end_the_iteration(index: &BranchIndex, f: Fork)
    requires
        index.continue_guard(f) is Some,
    ensures
        ({
            let c = index.continue_guard(f)->0;
            &&& c.kind == BranchKind::Guard && has_one_arm(f, c)
            &&& exists|i: int| 0 <= i < index.loops@.len() && ends_iteration_here(index, #[trigger] &index.loops@[i], c)
        }),
{
    let n = index.loops@.len();
    least_where_least(n, index.continue_owner(f), scope_size(index.loops@));
    let i = least_where(n, index.continue_owner(f), scope_size(index.loops@))->0;
    assert((index.continue_owner(f))(i));
    assert(ends_iteration_here(index, &index.loops@[i], index.continue_guard(f)->0));
}

pub open spec fn ends_iteration_here(index: &BranchIndex, l: &LoopCandidate, c: BranchCandidate) -> bool {
    &&& !apart_from(index.cfg, l, c.header)
    &&& !apart_from(index.cfg, l, c.then_entry)
    &&& !apart_from(index.cfg, l, c.merge->0)
    &&& goes_back(index.cfg, l, c.then_entry)
}

/// An arm bounded by a join has the other target in its dominance frontier, and is not in
/// the frontier of that target.
pub proof fn bounded_arms_join_their_merge(index: &BranchIndex, f: Fork)
    ensures
        index.bounded_arm(f) is Some <==> index.graph.frontier_has(f.then_entry, f.else_entry) != index.graph.frontier_has(
            f.else_entry,
            f.then_entry,
        ),
        index.bounded_arm(f) is Some ==> {
            let c = index.bounded_arm(f)->0;
            &&& c.kind == BranchKind::IfThen && has_one_arm(f, c)
            &&& index.graph.frontier_has(c.then_entry, c.merge->0)
            &&& !index.graph.frontier_has(c.merge->0, c.then_entry)
        },
{
}

/// In a loop that is left where the two targets come together for good, a guard's arm does
/// not lead to the next iteration, and its merge does.
pub proof fn exit_guards_do_not_come_back(index: &BranchIndex, f: Fork)
    requires
        index.exit_bounded(f) is Some,
        (index.exit_bounded(f)->0).kind == BranchKind::Guard,
    ensures
        ({
            let c = index.exit_bounded(f)->0;
            &&& has_one_arm(f, c)
            &&& exists|i: int| {
                &&& 0 <= i < index.loops@.len()
                &&& (#[trigger] index.loops@[i]).blocks@.contains(f.header)
                &&& c.then_entry != index.loops@[i].header && !index.graph.frontier_has(c.then_entry, index.loops@[i].header)
                &&& c.merge == Some(index.loops@[i].header) || index.graph.frontier_has(c.merge->0, index.loops@[i].header)
            }
        }),
{
    let strict = index.graph.common_postdom(f.then_entry, f.else_entry)->0;
    let p = index.exit_owner(f, strict);
    first_where_least(index.loops@.len(), p);
    let i = first_where(index.loops@.len(), p)->0;
    assert(p(i));
    assert(index.loops@[i].blocks@.contains(f.header));
}

/// In a `for` loop that is left where the two targets come together for good, a guard's arm
/// goes straight there and its merge does not; with two arms the branch opens the body, and
/// the arms join inside of the loop's scope.
pub proof fn for_exit_branches_leave_or_join(index: &BranchIndex, f: Fork)
    requires
        index.for_exit_branch(f) is Some,
    ensures
        ({
            let c = index.for_exit_branch(f)->0;
            let strict = index.graph.common_postdom(f.then_entry, f.else_entry);
            &&& c.kind != BranchKind::IfThen && strict is Some
            &&& c.kind == BranchKind::Guard ==> {
                &&& has_one_arm(f, c)
                &&& index.cfg.unique_successor(c.then_entry) == strict
                &&& index.cfg.unique_successor(c.merge->0) != strict
            }
            &&& c.kind == BranchKind::IfElse ==> {
                &&& has_two_arms(f, c) && c.merge is Some
                &&& index.graph.dom(f.header, c.merge->0)
                &&& index.graph.frontier_has(f.then_entry, c.merge->0)
                &&& index.graph.frontier_has(f.else_entry, c.merge->0)
            }
            &&& exists|i: int| {
                let l = #[trigger] index.loops@[i];
                &&& 0 <= i < index.loops@.len()
                &&& l.kind_hint == LoopKindHint::NumericForLike || l.kind_hint == LoopKindHint::GenericForLike
                &&& l.body_scope_blocks@.contains(f.header)
                &&& l.body_scope_blocks@.contains(f.then_entry)
                &&& l.body_scope_blocks@.contains(f.else_entry)
                &&& c.kind == BranchKind::IfElse ==> l.body_scope_blocks@.contains(c.merge->0)
            }
        }),
{
    let strict = index.graph.common_postdom(f.then_entry, f.else_entry)->0;
    let p = for_exit_owner(index.cfg, index.loops@, f.header, f.then_entry, f.else_entry, strict);
    least_where_least(index.loops@.len(), p, scope_size(index.loops@));
    let i = least_where(index.loops@.len(), p, scope_size(index.loops@))->0;
    assert(p(i));
    let soft = soft_merge(index.cfg, index.graph, f.header, f.then_entry, f.else_entry);
    if soft is Some {
        assert(is_soft_merge(index.cfg, index.graph, f.header, f.then_entry, f.else_entry, soft->0));
    }
    assert(index.loops@[i].body_scope_blocks@.contains(f.header));
}

/// In a loop without an exit an arm runs into its merge: the merge post-dominates it, or the
/// arm joins there and nowhere else on its way round. With two arms both join at the merge.
pub proof fn endless_branches_join(index: &BranchIndex, f: Fork)
    requires
        index.endless_branch(f) is Some,
    ensures
        ({
            let c = index.endless_branch(f)->0;
            &&& c.kind != BranchKind::Guard && c.merge is Some
            &&& c.kind == BranchKind::IfThen ==> has_one_arm(f, c) && (index.graph.postdom(c.merge->0, c.then_entry)
                || index.graph.frontier_has(c.then_entry, c.merge->0))
            &&& c.kind == BranchKind::IfElse ==> {
                &&& has_two_arms(f, c)
                &&& index.graph.frontier_has(f.then_entry, c.merge->0)
                &&& index.graph.frontier_has(f.else_entry, c.merge->0)
            }
            &&& exists|i: int| {
                &&& 0 <= i < index.loops@.len()
                &&& (#[trigger] index.loops@[i]).exits@ == Set::<BlockRef>::empty()
                &&& index.loops@[i].blocks@.contains(f.header)
                &&& index.loops@[i].blocks@.contains(f.then_entry)
                &&& index.loops@[i].blocks@.contains(f.else_entry)
            }
        }),
{
    let n = index.loops@.len();
    least_where_least(n, index.endless_owner(f), core_size(index.loops@));
    let i = least_where(n, index.endless_owner(f), core_size(index.loops@))->0;
    assert((index.endless_owner(f))(i));
    let soft = soft_merge(index.cfg, index.graph, f.header, f.then_entry, f.else_entry);
    if soft is Some {
        assert(is_soft_merge(index.cfg, index.graph, f.header, f.then_entry, f.else_entry, soft->0));
    }
    assert(index.loops@[i].blocks@.contains(f.header));
}

/// Wherever the block's paths come together with others, apart from the heads of loops and the
/// exit of the function, they do so at the target.
pub open spec fn runs_only_into(index: &BranchIndex, from: BlockRef, target: BlockRef) -> bool {
    target != index.cfg.exit_block && index.graph.frontier_has(from, target) && forall|y: BlockRef| #[trigger]
        index.graph.frontier_has(from, y) && y != index.cfg.exit_block && (forall|i: int|
            0 <= i < index.loops@.len() ==> (#[trigger] index.loops@[i]).header != y) ==> y == target
}

/// Where one target of a fork ends the iteration, the fork is a guard, except in a `while`,
/// endless or generic `for` loop in which the other target only runs into the same end.
pub proof fn gated_rests_are_no_guards(index: &BranchIndex, f: Fork, i: int)
    requires
        least_where(index.loops@.len(), index.continue_owner(f), scope_size(index.loops@)) == Some(i),
    ensures
        ({
            let kind = index.loops@[i].kind_hint;
            let first = continues_at(index.proto, index.cfg, &index.loops@[i], f.then_entry);
            let (entry, merge) = if first {
                (f.then_entry, f.else_entry)
            } else {
                (f.else_entry, f.then_entry)
            };
            index.continue_guard(f) is None <==> match kind {
                LoopKindHint::WhileLike | LoopKindHint::WhileTrueLike | LoopKindHint::GenericForLike => runs_only_into(
                    index,
                    merge,
                    entry,
                ),
                _ => false,
            }
        }),
{
    let first = continues_at(index.proto, index.cfg, &index.loops@[i], f.then_entry);
    let (entry, merge) = if first {
        (f.then_entry, f.else_entry)
    } else {
        (f.else_entry, f.then_entry)
    };
    assert forall|y: BlockRef| #[trigger] heads_loop(index.loops@, y) == !(forall|k: int|
        0 <= k < index.loops@.len() ==> (#[trigger] index.loops@[k]).header != y) by {}
    assert(index.local_join(merge, entry) == runs_only_into(index, merge, entry));
}

} // verus!
