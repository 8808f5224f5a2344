//! How branches are bounded anew by their conditions, and what the plan is made from.

use vstd::prelude::*;

use crate::branch_values::{best_candidates, is_winner, key_less, ValueMergeInput};
use crate::branches::{is_soft_merge, soft_merge};
use crate::cfg::Cfg;
use crate::condition_arcs::ShortModel;
use crate::evidence::{BranchCandidate, BranchKind, BranchValueMergeCandidate, LoopKindHint, ShortCircuitExit};
use crate::final_input::{
    endpoint_boundary, guarded_loop, iteration_boundary, rebounded, region_of, values_of, FinalPlanInput, PlanContext,
    PlanEvidence,
};
use crate::graph::GraphFacts;
use crate::ids::{BlockRef, EdgeRef};
use crate::loop_values::{loop_models, LoopModel};
use crate::search::{first_where, first_where_least};
use crate::selection::ConditionSelectionInput;
use crate::walk::{is_walk, reaches};

verus! {

/// The loop goes round again at the block: at its header, where it goes on, or in its control.
pub open spec fn goes_round_at(c: LoopModel, b: BlockRef) -> bool {
    b == c.header || c.continue_target == Some(b) || c.control.contains(b)
}

/// A branch at `header` within the loop, other than the one that decides over it, goes round
/// again on `on` and not on `run`.
pub open spec fn parts_iteration(c: LoopModel, header: BlockRef, run: BlockRef, on: BlockRef) -> bool {
    &&& c.condition_header != Some(header)
    &&& c.kind == LoopKindHint::RepeatLike || c.header != header
    &&& c.blocks.contains(header) || c.scope.contains(header)
    &&& goes_round_at(c, on)
    &&& !goes_round_at(c, run)
}

proof fn guarded_is_smallest(loops: Seq<LoopModel>, header: BlockRef, truthy: BlockRef, falsy: BlockRef, n: nat)
    requires
        n <= loops.len(),
    ensures
        match guarded_loop(loops, header, truthy, falsy, n) {
            Some(i) => {
                &&& 0 <= i < n
                &&& parts_iteration(loops[i], header, truthy, falsy) || parts_iteration(loops[i], header, falsy, truthy)
                &&& forall|j: int| #![trigger loops[j]]
                    0 <= j < n && (parts_iteration(loops[j], header, truthy, falsy) || parts_iteration(
                        loops[j],
                        header,
                        falsy,
                        truthy,
                    )) ==> loops[i].scope.len() <= loops[j].scope.len()
            },
            None => forall|j: int| #![trigger loops[j]]
                0 <= j < n ==> !parts_iteration(loops[j], header, truthy, falsy) && !parts_iteration(
                    loops[j],
                    header,
                    falsy,
                    truthy,
                ),
        },
    decreases n,
{
    if n > 0 {
        guarded_is_smallest(loops, header, truthy, falsy, (n - 1) as nat);
    }
}

/// A condition that guards an iteration runs the exit on which the loop does not go round, and
/// goes on at the one on which it does; the loop is the smallest that is so parted, and there
/// is a boundary wherever some loop is.
pub proof fn guards_run_what_does_not_go_round(
    loops: Seq<LoopModel>,
    header: BlockRef,
    truthy: BlockRef,
    falsy: BlockRef,
    j: int,
)
    requires
        0 <= j < loops.len(),
    ensures
        match iteration_boundary(loops, header, truthy, falsy) {
            Some((run, on)) => {
                &&& (run == truthy && on == falsy) || (run == falsy && on == truthy)
                &&& exists|i: int|
                    0 <= i < loops.len() && parts_iteration(#[trigger] loops[i], header, run, on) && (parts_iteration(
                        loops[j],
                        header,
                        run,
                        on,
                    ) ==> loops[i].scope.len() <= loops[j].scope.len())
            },
            None => !parts_iteration(loops[j], header, truthy, falsy) && !parts_iteration(loops[j], header, falsy, truthy),
        },
{
    guarded_is_smallest(loops, header, truthy, falsy, loops.len());
    if let Some(i) = guarded_loop(loops, header, truthy, falsy, loops.len()) {
        assert(parts_iteration(loops[i], header, truthy, falsy) || parts_iteration(loops[i], header, falsy, truthy));
        assert(loops[j] == loops[j]);
    }
}

/// Where one exit of a condition flows into the other and not the other way round, the first
/// is run and the second is where the branch goes on.
pub proof fn arms_flow_into_the_other_exit(g: &GraphFacts, truthy: BlockRef, falsy: BlockRef)
    ensures
        match endpoint_boundary(g, truthy, falsy) {
            Some((run, on)) => g.frontier_has(run, on) && !g.frontier_has(on, run) && ((run == truthy && on == falsy) || (
            run == falsy && on == truthy)),
            None => g.frontier_has(truthy, falsy) == g.frontier_has(falsy, truthy),
        },
{
}

/// A branch is bounded anew only by a condition of several tests. It keeps its header; as a
/// guard it has one arm, and arm and merge are the two exits; as a full branch its arms are the
/// true and the false exit, and it goes on at a further block, outside of the condition, at
/// which both meet.
pub proof fn new_bounds_are_the_exits(
    cfg: &Cfg,
    g: &GraphFacts,
    loops: Seq<LoopModel>,
    b: BranchCandidate,
    s: ShortModel,
    truthy: BlockRef,
    falsy: BlockRef,
)
    requires
        s.exit == (ShortCircuitExit::BranchExit { truthy, falsy }),
        rebounded(cfg, g, loops, b, s) is Some,
    ensures
        ({
            let n = rebounded(cfg, g, loops, b, s)->0;
            &&& s.nodes.len() > 1
            &&& n.header == b.header && !n.invert_hint
            &&& match (n.else_entry, n.merge) {
                (None, Some(m)) => n.kind == BranchKind::Guard && ((n.then_entry == truthy && m == falsy) || (n.then_entry
                    == falsy && m == truthy)),
                (Some(e), Some(m)) => {
                    &&& n.kind == BranchKind::IfElse && n.then_entry == truthy && e == falsy
                    &&& m != truthy && m != falsy && !s.blocks.contains(m) && m != cfg.exit_block
                    &&& g.dom(b.header, m) && g.frontier_has(truthy, m) && g.frontier_has(falsy, m)
                },
                _ => false,
            }
        }),
{
    let n = rebounded(cfg, g, loops, b, s)->0;
    if n.else_entry is Some {
        let m = soft_merge(cfg, g, b.header, truthy, falsy)->0;
        assert(is_soft_merge(cfg, g, b.header, truthy, falsy, m));
    }
}

/// A condition that does not end in a branch, or asks a single question, bounds nothing anew.
pub proof fn single_tests_keep_their_branch(cfg: &Cfg, g: &GraphFacts, loops: Seq<LoopModel>, b: BranchCandidate, s: ShortModel)
    requires
        s.nodes.len() <= 1 || s.exit is ValueMerge,
    ensures
        rebounded(cfg, g, loops, b, s) is None,
{
}

proof fn few_are_chosen(input: &ConditionSelectionInput, n: nat)
    ensures
        input.chosen_upto(n).len() <= n,
    decreases n,
{
    if n > 0 {
        few_are_chosen(input, (n - 1) as nat);
    }
}

/// The condition that is noted for a block is one that starts there.
pub proof fn noted_conditions_start_at_their_block<'a>(context: &PlanContext<'a>, e: &'a PlanEvidence, h: BlockRef)
    requires
        context.wf(e),
        context.condition_at(e, h) is Some,
    ensures
        (context.condition_at(e, h)->0).s.header == h,
{
    context.selection(e).conditions_stand_at_their_numbers(h);
    few_are_chosen(&context.selection(e), h.0 as nat);
}

/// The input of the plan has every branch and every loop in its place. A branch keeps its
/// header, its region starts there, and the values that go with it are those of its header and
/// merge. Loops are as they were, and so are the parts that cannot be structured.
pub proof fn plans_are_made_from_what_was_found<'a>(context: &PlanContext<'a>, e: &'a PlanEvidence, r: &FinalPlanInput, i: int)
    requires
        context.result_ok(e, r),
    ensures
        r.branches@.len() == e.branches@.len() && r.loops@.len() == e.loops@.len() && r.unstructured@.len()
            == e.regions@.len(),
        0 <= i < r.branches@.len() ==> {
            let now = &r.branches@[i];
            &&& now.branch.header == e.branches@[i].header
            &&& now.region is Some ==> (now.region->0).header == now.branch.header
            &&& now.region is None ==> now.branch.merge is None
            &&& now.value_merge is Some ==> (now.value_merge->0).header == now.branch.header && now.branch.merge == Some(
                (now.value_merge->0).merge,
            )
        },
        0 <= i < r.loops@.len() ==> r.loops@[i].candidate == e.loops@[i] && forall|edge: EdgeRef|
            !#[trigger] r.loops@[i].semantic_continue_edges@.contains(edge),
        0 <= i < r.unstructured@.len() ==> r.unstructured@[i].fact == e.regions@[i],
{
    if 0 <= i < r.branches@.len() {
        let b = e.branches@[i];
        let now = &r.branches@[i];
        assert(context.branch_ok(e, b, now));
        first_where_least(e.branch_regions@.len(), region_of(e.branch_regions@, b.header));
        if let Some(m) = now.branch.merge {
            first_where_least(e.branch_value_merges@.len(), values_of(e.branch_value_merges@, now.branch.header, m));
        }
    }
    if 0 <= i < r.loops@.len() {
        assert(context.loop_ok(e, e.loops@[i], &r.loops@[i]));
    }
}

/// Of the values that are merged for branches and conditions, one list is kept for each header
/// and merge: none that was offered there merges more values, and among equals a condition is
/// preferred to a branch.
pub proof fn kept_values_are_the_most(
    input: &ValueMergeInput,
    list: Seq<BranchValueMergeCandidate>,
    from: Seq<int>,
    n: int,
    i: int,
    j: int,
    o: int,
)
    requires
        best_candidates(input, n, list, from),
        0 <= i < list.len() && 0 <= j < list.len(),
    ensures
        list[i].header == list[j].header && list[i].merge == list[j].merge ==> i == j,
        0 <= o < n && input.offers(o, list[i].header, list[i].merge) ==> input.weight(o) <= list[i].values@.len() && (
        input.weight(o) == list[i].values@.len() && o >= input.branches@.len() ==> from[i] >= input.branches@.len()),
{
    if i < j {
        assert(key_less(&list[i], &list[j]));
    } else if j < i {
        assert(key_less(&list[j], &list[i]));
    }
    assert(is_winner(input, n, &list[i], from[i]));
}

/// A way from the first to the last block over edges, on which all blocks but the last are
/// reachable and allowed.
pub open spec fn stays_allowed(cfg: &Cfg, way: Seq<BlockRef>, allowed: Set<BlockRef>) -> bool {
    &&& way.len() > 0
    &&& forall|i: int| #![trigger way[i]]
        0 <= i < way.len() - 1 ==> allowed.contains(way[i]) && cfg.reachable_blocks@.contains(way[i]) && cfg.leads_to(
            way[i],
            way[i + 1],
        )
}

/// A block is reached within others just when such a way leads to it.
pub proof fn reaching_is_a_way(cfg: &Cfg, from: BlockRef, to: BlockRef, allowed: Set<BlockRef>)
    ensures
        cfg.reaches_within(from, to, allowed) <==> exists|way: Seq<BlockRef>| #[trigger]
            stays_allowed(cfg, way, allowed) && way.first() == from && way.last() == to,
{
    let region = allowed.intersect(cfg.reachable_blocks@);
    let step = cfg.listed_step(region);
    if cfg.reaches_within(from, to, allowed) {
        if from == to {
            assert(stays_allowed(cfg, seq![from], allowed));
        } else {
            let x = choose|x: BlockRef| #[trigger] cfg.wanders_to(region, from, x) && cfg.leads_to(x, to);
            let p = choose|p: Seq<BlockRef>| #[trigger] is_walk(step, p) && p.first() == from && p.last() == x;
            let way = p.push(to);
            assert forall|i: int| #![trigger way[i]] 0 <= i < way.len() - 1 implies allowed.contains(way[i])
                && cfg.reachable_blocks@.contains(way[i]) && cfg.leads_to(way[i], way[i + 1]) by {
                assert(way[i] == p[i]);
                if i < p.len() - 1 {
                    assert(step(p[i], p[i + 1]));
                } else {
                    if i > 0 {
                        assert(step(p[i - 1], p[i - 1 + 1]));
                    }
                }
            }
            assert(stays_allowed(cfg, way, allowed));
        }
    }
    if exists|way: Seq<BlockRef>| #[trigger]
        stays_allowed(cfg, way, allowed) && way.first() == from && way.last() == to {
        let way = choose|way: Seq<BlockRef>| #[trigger]
            stays_allowed(cfg, way, allowed) && way.first() == from && way.last() == to;
        if way.len() > 1 {
            let p = way.drop_last();
            let x = p.last();
            assert(way[0] == from && p[0] == from);
            assert forall|i: int| 0 <= i < p.len() - 1 implies step(#[trigger] p[i], p[i + 1]) by {
                assert(p[i] == way[i] && p[i + 1] == way[i + 1]);
                assert(allowed.contains(way[i + 1]));
            }
            assert(is_walk(step, p));
            assert(reaches(step, from, x));
            assert(way[way.len() - 2] == x);
            assert(cfg.wanders_to(region, from, x) && cfg.leads_to(x, to));
        }
    }
}

/// A branch whose region runs once keeps its bounds. One that has no such region is bounded
/// anew as its condition asks, and stays as it is without one.
pub proof fn fenced_branches_keep_their_bounds<'a>(context: &PlanContext<'a>, e: &'a PlanEvidence, b: BranchCandidate, i: int)
    ensures
        0 <= i < e.branch_regions@.len() && e.branch_regions@[i].header == b.header
            && e.branch_regions@[i].single_pass_fence is Some && (forall|j: int|
            0 <= j < i ==> (#[trigger] e.branch_regions@[j]).header != b.header) ==> context.bounded(e, b) == b,
        (forall|j: int|
            0 <= j < e.branch_regions@.len() && (#[trigger] e.branch_regions@[j]).header == b.header
                ==> e.branch_regions@[j].single_pass_fence is None) ==> context.bounded(e, b) == (match context.condition_at(
            e,
            b.header,
        ) {
            Some(m) => match rebounded(context.cfg, context.graph, loop_models(e.loops@), b, m.s) {
                Some(n) => n,
                None => b,
            },
            None => b,
        }),
{
    let p = region_of(e.branch_regions@, b.header);
    first_where_least(e.branch_regions@.len(), p);
    if let Some(k) = first_where(e.branch_regions@.len(), p) {
        assert(p(k));
        if 0 <= i < e.branch_regions@.len() && e.branch_regions@[i].header == b.header {
            assert(p(i));
        }
    } else if 0 <= i < e.branch_regions@.len() {
        assert(!p(i));
    }
}

} // verus!
