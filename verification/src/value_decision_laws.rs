//! What an expression that yields a value holds, and which expressions are chosen.

use vstd::prelude::*;

use crate::condition_arcs::ShortModel;
use crate::dataflow::SsaValue;
use crate::evidence::ShortCircuitExit;
use crate::ids::{BlockRef, EdgeRef};
use crate::loop_values::loop_models;
use crate::value_decisions::{needed_for, ValueDecisionContext};
use crate::value_selection::{result_of, same_control};

verus! {

/// Block `b` can be part of an expression: it is reachable, and neither stands before a loop
/// nor belongs to the control of one.
pub open spec fn plain_block(ctx: &ValueDecisionContext, b: BlockRef) -> bool {
    &&& ctx.cfg.reachable_blocks@.contains(b)
    &&& forall|i: int|
        0 <= i < ctx.loops@.len() ==> (#[trigger] ctx.loops@[i]).preheader != Some(b) && !ctx.loops@[i].control_blocks@.contains(b)
}

/// Edge `e` neither repeats nor continues a loop.
pub open spec fn plain_edge(ctx: &ValueDecisionContext, e: EdgeRef) -> bool {
    forall|i: int|
        0 <= i < ctx.loops@.len() ==> !(#[trigger] ctx.loops@[i]).backedges@.contains(e) && !ctx.loops@[i].continue_edges@.contains(e)
}

/// An expression that yields a value has a result and at least two ways to it. It stays in
/// plain blocks, takes only plain edges on its way to its end, closes no scope behind its
/// first block, and has no effect there that neither its tests nor its result needs.
pub proof fn value_expressions_are_closed(ctx: &ValueDecisionContext, list: Seq<ShortModel>, i: int)
    requires
        ctx.is_sound(list, i),
    ensures
        ({
            let s = list[i];
            &&& s.exit is ValueMerge && s.result_phi_id is Some && s.result_reg is Some && s.value_incomings.len() >= 2
            &&& forall|b: BlockRef| #[trigger] s.blocks.contains(b) ==> ctx.cfg.has_block(b) && plain_block(ctx, b)
            &&& forall|b: BlockRef, k: int| #![trigger s.blocks.contains(b), ctx.cfg.out_edges(b)[k]]
                s.blocks.contains(b) && 0 <= k < ctx.cfg.out_edges(b).len() ==> s.exit == ShortCircuitExit::ValueMerge(
                    ctx.cfg.edge(ctx.cfg.out_edges(b)[k]).to,
                ) || plain_edge(ctx, ctx.cfg.out_edges(b)[k])
            &&& forall|b: BlockRef, k: int| #![trigger s.blocks.contains(b), ctx.proto.instrs@[k]]
                s.blocks.contains(b) && b != s.header && ctx.cfg.range(b).start.0 <= k < ctx.cfg.range(b).start.0 + ctx.cfg.range(b).len
                    ==> !(ctx.proto.instrs@[k] is Close) && !(ctx.proto.instrs@[k] is Tbc)
            &&& forall|b: BlockRef, k: int| #![trigger s.blocks.contains(b), ctx.dataflow.effect_summaries@[k]]
                s.blocks.contains(b) && b != s.header && ctx.cfg.range(b).start.0 <= k < ctx.cfg.range(b).start.0 + ctx.cfg.range(b).len
                    - 1 && ctx.dataflow.effect_summaries@[k].tags@.len() > 0 ==> needed_for(
                    ctx.cfg,
                    ctx.dataflow,
                    s.blocks,
                    ctx.tested(s),
                    k,
                ) || needed_for(ctx.cfg, ctx.dataflow, s.blocks, ValueDecisionContext::leaf_values(s), k)
        }),
{
    let s = list[i];
    let cfg = ctx.cfg;
    let end = match s.exit {
        ShortCircuitExit::ValueMerge(end) => end,
        ShortCircuitExit::BranchExit { truthy, .. } => truthy,
    };
    assert forall|b: BlockRef| #[trigger] s.blocks.contains(b) implies cfg.has_block(b) && plain_block(ctx, b) by {
        assert(ctx.block_allowed(b, s.header, end));
        assert forall|q: int| 0 <= q < ctx.loops@.len() implies (#[trigger] ctx.loops@[q]).preheader != Some(b)
            && !ctx.loops@[q].control_blocks@.contains(b) by {
            assert(loop_models(ctx.loops@)[q] == ctx.loops@[q]@);
        }
    }
    assert forall|b: BlockRef, k: int| #![trigger s.blocks.contains(b), cfg.out_edges(b)[k]]
        s.blocks.contains(b) && 0 <= k < cfg.out_edges(b).len() implies s.exit == ShortCircuitExit::ValueMerge(
        cfg.edge(cfg.out_edges(b)[k]).to,
    ) || plain_edge(ctx, cfg.out_edges(b)[k]) by {
        assert(ctx.block_allowed(b, s.header, end));
        assert(ctx.edge_allowed(b, k, end));
        let e = cfg.out_edges(b)[k];
        if !ctx.forbidden_edge(e) {
            assert forall|q: int| 0 <= q < ctx.loops@.len() implies !(#[trigger] ctx.loops@[q]).backedges@.contains(e)
                && !ctx.loops@[q].continue_edges@.contains(e) by {
                assert(loop_models(ctx.loops@)[q] == ctx.loops@[q]@);
            }
        }
    }
    assert forall|b: BlockRef, k: int| #![trigger s.blocks.contains(b), ctx.proto.instrs@[k]]
        s.blocks.contains(b) && b != s.header && cfg.range(b).start.0 <= k < cfg.range(b).start.0 + cfg.range(b).len implies !(
    ctx.proto.instrs@[k] is Close) && !(ctx.proto.instrs@[k] is Tbc) by {
        assert(ctx.block_allowed(b, s.header, end));
    }
    assert forall|b: BlockRef, k: int| #![trigger s.blocks.contains(b), ctx.dataflow.effect_summaries@[k]]
        s.blocks.contains(b) && b != s.header && cfg.range(b).start.0 <= k < cfg.range(b).start.0 + cfg.range(b).len - 1
            && ctx.dataflow.effect_summaries@[k].tags@.len() > 0 implies needed_for(cfg, ctx.dataflow, s.blocks, ctx.tested(s), k)
        || needed_for(cfg, ctx.dataflow, s.blocks, ValueDecisionContext::leaf_values(s), k) by {
        if !needed_for(cfg, ctx.dataflow, s.blocks, ctx.tested(s), k) {
            assert(ctx.must_serve_result(s, b, k));
        }
    }
}

/// What a block of the expression behind its first defines is read by instructions of the
/// expression only.
pub proof fn inner_values_stay_inside(ctx: &ValueDecisionContext, list: Seq<ShortModel>, i: int, b: BlockRef, k: int, q: int)
    requires
        ctx.is_sound(list, i),
        list[i].blocks.contains(b),
        b != list[i].header,
        ctx.cfg.range(b).start.0 <= k < ctx.cfg.range(b).start.0 + ctx.cfg.range(b).len,
        0 <= q < ctx.dataflow.instr_defs@[k]@.len(),
    ensures
        ({
            let d = ctx.dataflow.instr_defs@[k]@[q];
            &&& d.0 < ctx.dataflow.def_uses@.len()
            &&& forall|u: int|
                0 <= u < ctx.dataflow.def_uses@[d.0 as int]@.len() ==> list[i].blocks.contains(
                    ctx.cfg.instr_to_block@[(#[trigger] ctx.dataflow.def_uses@[d.0 as int]@[u]).instr.0 as int],
                )
        }),
{
    assert(ctx.is_inner_def(list[i], b, k, q));
}

proof fn best_value_is_largest(ctx: &ValueDecisionContext, list: Seq<ShortModel>, p: int, n: nat)
    requires
        n <= list.len(),
    ensures
        match ctx.best_value(list, p, n) {
            Some(i) => {
                &&& 0 <= i < n && ctx.prevails(list, i) && result_of(list[i]).0 == p
                &&& forall|j: int|
                    0 <= j < n && #[trigger] ctx.prevails(list, j) && result_of(list[j]).0 == p ==> list[j].nodes.len() < list[i].nodes.len()
                        || (list[j].nodes.len() == list[i].nodes.len() && list[j].blocks.len() <= list[i].blocks.len())
            },
            None => forall|j: int| 0 <= j < n && #[trigger] ctx.prevails(list, j) ==> result_of(list[j]).0 != p,
        },
    decreases n,
{
    if n > 0 {
        best_value_is_largest(ctx, list, p, (n - 1) as nat);
    }
}

/// For each phi at most one expression is chosen: a sound one for that phi than which no other
/// that prevails is larger. The chosen stand by ascending phi.
pub proof fn one_expression_for_each_phi(ctx: &ValueDecisionContext, list: Seq<ShortModel>, k: nat)
    requires
        k <= usize::MAX + 1,
    ensures
        ({
            let r = ctx.values_upto(list, k);
            &&& forall|a: int, b: int| 0 <= a < b < r.len() ==> result_of(#[trigger] r[a]).0 < result_of(#[trigger] r[b]).0
            &&& forall|a: int| 0 <= a < r.len() ==> result_of(#[trigger] r[a]).0 < k && chosen_from(ctx, list, r[a])
            &&& forall|j: int|
                0 <= j < list.len() && #[trigger] ctx.prevails(list, j) && result_of(list[j]).0 < k ==> has_result(r, result_of(list[j]).0)
        }),
    decreases k,
{
    if k > 0 {
        let m = (k - 1) as nat;
        one_expression_for_each_phi(ctx, list, m);
        best_value_is_largest(ctx, list, m as int, list.len());
        let before = ctx.values_upto(list, m);
        let r = ctx.values_upto(list, k);
        match ctx.best_value(list, m as int, list.len()) {
            Some(i) => {
                assert(r == before.push(list[i]));
                assert forall|j: int|
                    0 <= j < list.len() && same_control(list[i], #[trigger] list[j]) && ctx.is_sound(list, j) implies result_of(
                    list[i],
                ).0 <= result_of(list[j]).0 by {
                    assert(!ctx.displaces(list, j, i));
                }
                assert(chosen_from(ctx, list, list[i]));
                assert(r[before.len() as int] == list[i]);
            },
            None => {},
        }
        assert forall|j: int|
            0 <= j < list.len() && #[trigger] ctx.prevails(list, j) && result_of(list[j]).0 < k implies has_result(
            r,
            result_of(list[j]).0,
        ) by {
            if result_of(list[j]).0 < m {
                assert(has_result(before, result_of(list[j]).0));
                let a = choose|a: int| 0 <= a < before.len() && result_of(#[trigger] before[a]).0 == result_of(list[j]).0;
                assert(r[a] == before[a]);
            } else {
                assert(result_of(r[before.len() as int]).0 == m);
            }
        }
    }
}

/// Some expression of the list is for phi `p`.
pub open spec fn has_result(r: Seq<ShortModel>, p: usize) -> bool {
    exists|a: int| 0 <= a < r.len() && result_of(#[trigger] r[a]).0 == p
}

/// `s` stands in the list, is sound there, and no sound expression with the same control has a
/// smaller phi.
pub open spec fn chosen_from(ctx: &ValueDecisionContext, list: Seq<ShortModel>, s: ShortModel) -> bool {
    exists|i: int| {
        &&& 0 <= i < list.len()
        &&& #[trigger] list[i] == s
        &&& ctx.is_sound(list, i)
        &&& forall|j: int|
            0 <= j < list.len() && same_control(list[i], #[trigger] list[j]) && ctx.is_sound(list, j) ==> result_of(list[i]).0
                <= result_of(list[j]).0
    }
}

/// No two chosen expressions have the same control.
pub proof fn chosen_expressions_share_no_control(ctx: &ValueDecisionContext, list: Seq<ShortModel>, k: nat, a: int, b: int)
    requires
        k <= usize::MAX + 1,
        0 <= a < b < ctx.values_upto(list, k).len(),
    ensures
        !same_control(ctx.values_upto(list, k)[a], ctx.values_upto(list, k)[b]),
{
    one_expression_for_each_phi(ctx, list, k);
    let r = ctx.values_upto(list, k);
    assert(chosen_from(ctx, list, r[a]));
    assert(chosen_from(ctx, list, r[b]));
    assert(result_of(r[a]).0 < result_of(r[b]).0);
    let i = choose|i: int| {
        &&& 0 <= i < list.len()
        &&& #[trigger] list[i] == r[a]
        &&& ctx.is_sound(list, i)
        &&& forall|j: int|
            0 <= j < list.len() && same_control(list[i], #[trigger] list[j]) && ctx.is_sound(list, j) ==> result_of(list[i]).0
                <= result_of(list[j]).0
    };
    let q = choose|q: int| {
        &&& 0 <= q < list.len()
        &&& #[trigger] list[q] == r[b]
        &&& ctx.is_sound(list, q)
        &&& forall|j: int|
            0 <= j < list.len() && same_control(list[q], #[trigger] list[j]) && ctx.is_sound(list, j) ==> result_of(list[q]).0
                <= result_of(list[j]).0
    };
    if same_control(r[a], r[b]) {
        assert(same_control(list[q], list[i]));
    }
}

/// A sound expression that shares its control with no other sound one is chosen, or another
/// for the same phi is.
pub proof fn expressions_without_rivals_are_chosen(ctx: &ValueDecisionContext, list: Seq<ShortModel>, i: int, k: nat)
    requires
        0 <= i < list.len(),
        k <= usize::MAX + 1,
        ctx.is_sound(list, i),
        result_of(list[i]).0 < k,
        forall|j: int| 0 <= j < list.len() && j != i && ctx.is_sound(list, j) ==> !same_control(list[i], #[trigger] list[j]),
    ensures
        has_result(ctx.values_upto(list, k), result_of(list[i]).0),
{
    assert forall|j: int| 0 <= j < list.len() implies !#[trigger] ctx.displaces(list, j, i) by {
        assert(list[j] == list[j]);
    }
    assert(ctx.prevails(list, i));
    one_expression_for_each_phi(ctx, list, k);
}

/// Read `q` of the last instruction of node `i`, which is not the first node, is of the value.
pub open spec fn asks_for(ctx: &ValueDecisionContext, s: ShortModel, i: int, q: int, v: SsaValue) -> bool {
    let reads = ctx.dataflow.use_values@[ctx.cfg.range(s.nodes[i].header).end_at() - 1].fixed@;
    0 <= i < s.nodes.len() && s.nodes[i].header != s.header && 0 <= q < reads.len() && reads[q].1 == v
}

/// What the inner nodes of an expression test is what the last instruction of a node's block
/// reads, for a node other than the first.
pub proof fn inner_nodes_test_what_they_read(ctx: &ValueDecisionContext, s: ShortModel, v: SsaValue)
    ensures
        ctx.tested(s).contains(v) <==> exists|i: int, q: int| #[trigger] asks_for(ctx, s, i, q, v),
{
    if ctx.tested(s).contains(v) {
        let i = choose|i: int| 0 <= i < s.nodes.len() && #[trigger] ctx.tests_value(s, i, v);
        let at = ctx.cfg.range(s.nodes[i].header).end_at() - 1;
        let q = choose|q: int|
            0 <= q < ctx.dataflow.use_values@[at].fixed@.len() && (#[trigger] ctx.dataflow.use_values@[at].fixed@[q]).1 == v;
        assert(asks_for(ctx, s, i, q, v));
    }
    if exists|i: int, q: int| #[trigger] asks_for(ctx, s, i, q, v) {
        let (i, q) = choose|i: int, q: int| #[trigger] asks_for(ctx, s, i, q, v);
        let at = ctx.cfg.range(s.nodes[i].header).end_at() - 1;
        assert(ctx.dataflow.use_values@[at].fixed@[q].1 == v);
        assert(ctx.tests_value(s, i, v));
    }
}

} // verus!
