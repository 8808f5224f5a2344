//! What the values merged behind a branch say of the phis there.

use vstd::prelude::*;

use crate::branch_values::{is_merge_list, merge_kept, ValueMergeInput};
use crate::cfg::Cfg;
use crate::dataflow::{carries, DefId, PhiCandidate, SsaValue};
use crate::evidence::{BranchCandidate, BranchKind, BranchValueMergeArm, BranchValueMergeValue, ShortCircuitCandidate, ShortCircuitExit};
use crate::flood::step_in;
use crate::helpers::{merge_arm_preds, open_region};
use crate::ids::{BlockRef, Reg};
use crate::phi_arms::{arm_from, arm_has, ArmPreds, BranchValueMergeContext};
use crate::search::count_where;
use crate::walk::{is_walk, reaches};

verus! {

/// What is counted has been met: the `i`th of the indices that satisfy `p` stands somewhere.
proof fn counted_stands(n: nat, p: spec_fn(int) -> bool, i: nat) -> (k: int)
    requires
        i < count_where(n, p),
    ensures
        0 <= k < n,
        p(k),
        count_where(k as nat, p) == i,
    decreases n,
{
    let m = (n - 1) as nat;
    if i < count_where(m, p) {
        counted_stands(m, p, i)
    } else {
        m as int
    }
}

/// The arm's blocks come from `from` and are predecessors that the phi names; its values are
/// those that the phi takes from them, and what it calls old or new is among these.
#[verifier::opaque]
pub open spec fn reads_phi(phi: PhiCandidate, from: Set<BlockRef>, a: BranchValueMergeArm) -> bool {
    &&& forall|b: BlockRef| #[trigger]
        a.preds@.contains(b) ==> from.contains(b) && exists|k: int|
            0 <= k < phi.incoming@.len() && (#[trigger] phi.incoming@[k]).pred == Some(b)
    &&& forall|k: int|
        0 <= k < phi.incoming@.len() && (#[trigger] phi.incoming@[k]).pred is Some && from.contains(phi.incoming@[k].pred->0)
            ==> a.preds@.contains(phi.incoming@[k].pred->0) && a.values@.contains(phi.incoming@[k].value)
    &&& forall|v: SsaValue| #[trigger]
        a.values@.contains(v) ==> exists|k: int|
            0 <= k < phi.incoming@.len() && (#[trigger] phi.incoming@[k]).value == v && phi.incoming@[k].pred is Some
                && from.contains(phi.incoming@[k].pred->0)
    &&& forall|v: SsaValue| #[trigger] a.entry_values@.contains(v) ==> a.values@.contains(v)
    &&& forall|v: SsaValue| #[trigger] a.update_values@.contains(v) ==> a.values@.contains(v)
    &&& forall|v: SsaValue| #[trigger] a.values@.contains(v) ==> a.entry_values@.contains(v) || a.update_values@.contains(v)
}

proof fn arms_read_their_phi(ctx: &BranchValueMergeContext, phi: &PhiCandidate, from: Set<BlockRef>, a: &BranchValueMergeArm)
    requires
        ctx.arm_of(phi, from, a),
    ensures
        reads_phi(*phi, from, *a),
{
    reveal(reads_phi);
    assert forall|k: int|
        0 <= k < phi.incoming@.len() && (#[trigger] phi.incoming@[k]).pred is Some && from.contains(phi.incoming@[k].pred->0) implies a.preds@.contains(
        phi.incoming@[k].pred->0,
    ) && a.values@.contains(phi.incoming@[k].value) by {
        assert(arm_from(phi, from, phi.incoming@[k].pred->0));
        assert(arm_has(phi, from, phi.incoming@[k].value));
    }
}

/// `m` is the phi, with what it takes from either side; both sides bring something, and the
/// phi takes nothing from elsewhere but from blocks that do not matter.
#[verifier::opaque]
pub open spec fn merges_phi(phi: PhiCandidate, preds: ArmPreds, m: BranchValueMergeValue) -> bool {
    &&& m.phi_id == phi.id && m.reg == phi.reg
    &&& reads_phi(phi, preds.then_preds, m.then_arm)
    &&& reads_phi(phi, preds.else_preds.difference(preds.then_preds), m.else_arm)
    &&& exists|v: SsaValue| #[trigger] m.then_arm.values@.contains(v)
    &&& exists|v: SsaValue| #[trigger] m.else_arm.values@.contains(v)
    &&& forall|j: int|
        0 <= j < phi.incoming@.len() ==> (#[trigger] phi.incoming@[j]).pred is Some && (preds.then_preds.contains(
            phi.incoming@[j].pred->0,
        ) || preds.else_preds.contains(phi.incoming@[j].pred->0) || preds.ignored.contains(phi.incoming@[j].pred->0))
}

proof fn merges_read_their_phi(ctx: &BranchValueMergeContext, phi: &PhiCandidate, preds: ArmPreds, m: &BranchValueMergeValue)
    requires
        ctx.merges(phi, preds),
        ctx.merge_of(phi, preds, m),
    ensures
        merges_phi(*phi, preds, *m),
        m.reg == phi.reg,
{
    reveal(merges_phi);
    let els = preds.else_preds.difference(preds.then_preds);
    arms_read_their_phi(ctx, phi, preds.then_preds, &m.then_arm);
    arms_read_their_phi(ctx, phi, els, &m.else_arm);
    let v = choose|v: SsaValue| #[trigger] arm_has(phi, preds.then_preds, v);
    assert(m.then_arm.values@.contains(v));
    let w = choose|w: SsaValue| #[trigger] arm_has(phi, els, w);
    assert(m.else_arm.values@.contains(w));
}

/// Each value merged behind a branch is a phi there whose register is not left to others: its
/// two arms hold what the phi takes from the blocks of either side, each with its own values.
pub proof fn merged_values_are_phis(
    ctx: &BranchValueMergeContext,
    block: BlockRef,
    preds: ArmPreds,
    skipped: Set<Reg>,
    list: Seq<BranchValueMergeValue>,
    i: int,
)
    requires
        is_merge_list(ctx, block, preds, skipped, list),
        0 <= i < list.len(),
    ensures
        exists|k: int|
            0 <= k < ctx.dataflow.phis_in(block).len() && merges_phi(#[trigger] ctx.dataflow.phis_in(block)[k], preds, list[i])
                && !skipped.contains(list[i].reg),
{
    let phis = ctx.dataflow.phis_in(block);
    let p = merge_kept(ctx, block, preds, skipped);
    let k = counted_stands(phis.len(), p, i as nat);
    assert(p(k));
    assert(ctx.merge_of(&phis[k], preds, &list[i]));
    merges_read_their_phi(ctx, &phis[k], preds, &list[i]);
    assert(merges_phi(ctx.dataflow.phis_in(block)[k], preds, list[i]));
}

/// A phi whose incomings all come from the two sides, with a value from one side that the
/// other side does not bring, is merged, unless its register is left to others.
pub proof fn phis_that_differ_are_merged(
    ctx: &BranchValueMergeContext,
    block: BlockRef,
    preds: ArmPreds,
    skipped: Set<Reg>,
    list: Seq<BranchValueMergeValue>,
    k: int,
    a: int,
    b: int,
)
    requires
        is_merge_list(ctx, block, preds, skipped, list),
        0 <= k < ctx.dataflow.phis_in(block).len(),
        !skipped.contains(ctx.dataflow.phis_in(block)[k].reg),
        ({
            let phi = ctx.dataflow.phis_in(block)[k];
            &&& 0 <= a < phi.incoming@.len() && phi.incoming@[a].pred is Some && preds.then_preds.contains(phi.incoming@[a].pred->0)
            &&& 0 <= b < phi.incoming@.len() && phi.incoming@[b].pred is Some && preds.else_preds.contains(phi.incoming@[b].pred->0)
                && !preds.then_preds.contains(phi.incoming@[b].pred->0)
            &&& forall|j: int|
                0 <= j < phi.incoming@.len() ==> (#[trigger] phi.incoming@[j]).pred is Some && (preds.then_preds.contains(
                    phi.incoming@[j].pred->0,
                ) || preds.else_preds.contains(phi.incoming@[j].pred->0))
            &&& forall|j: int|
                0 <= j < phi.incoming@.len() && !preds.then_preds.contains((#[trigger] phi.incoming@[j]).pred->0)
                    ==> phi.incoming@[j].value != phi.incoming@[a].value
        }),
    ensures
        exists|i: int|
            0 <= i < list.len() && (#[trigger] list[i]).phi_id == ctx.dataflow.phis_in(block)[k].id && list[i].reg
                == ctx.dataflow.phis_in(block)[k].reg,
{
    let phi = &ctx.dataflow.phis_in(block)[k];
    let els = preds.else_preds.difference(preds.then_preds);
    let p = merge_kept(ctx, block, preds, skipped);
    assert(arm_has(phi, preds.then_preds, phi.incoming@[a].value));
    assert(arm_has(phi, els, phi.incoming@[b].value));
    assert(!arm_has(phi, els, phi.incoming@[a].value));
    assert(ctx.merges(phi, preds));
    assert(p(k));
    let i = count_where(k as nat, p) as int;
    assert(ctx.merge_of(phi, preds, &list[i]));
}

/// The blocks by which an arm flows into its merge are predecessors of the merge that the arm
/// reaches without passing it.
pub proof fn arms_flow_into_their_merge(cfg: &Cfg, entry: BlockRef, merge: BlockRef, b: BlockRef)
    ensures
        merge_arm_preds(cfg, entry, merge).contains(b) <==> entry != merge && cfg.links(b, merge) && cfg.reachable_blocks@.contains(
            entry,
        ) && exists|w: Seq<BlockRef>| {
            &&& #[trigger] is_walk(step_in(cfg, cfg.reachable_blocks@.remove(merge), false), w)
            &&& w.first() == entry && w.last() == b
        },
{
    let region = open_region(cfg, Some(merge), None);
    assert(region =~= cfg.reachable_blocks@.remove(merge));
    let step = step_in(cfg, region, false);
    if merge_arm_preds(cfg, entry, merge).contains(b) {
        assert(seq![entry][0] == entry);
        assert(reaches(step, entry, b));
    }
    if entry != merge && cfg.links(b, merge) && cfg.reachable_blocks@.contains(entry) && reaches(step, entry, b) {
        assert(seq![entry][0] == entry);
    }
}

/// The values behind a branch are split at its merge, by two sides that have no block in
/// common: its first arm flows in on one side; on the other the second arm or, for an `if`
/// with one arm, the branch's own block. A guard splits none.
pub proof fn branches_split_at_their_merge(input: &ValueMergeInput, b: &BranchCandidate)
    requires
        input.branch_split(b) is Some,
    ensures
        ({
            let s = input.branch_split(b)->0;
            &&& s.header == b.header && Some(s.merge) == b.merge
            &&& b.kind != BranchKind::Guard
            &&& forall|x: BlockRef| !(#[trigger] s.preds.then_preds.contains(x) && s.preds.else_preds.contains(x))
            &&& (exists|x: BlockRef| #[trigger] s.preds.then_preds.contains(x)) && (exists|x: BlockRef| #[trigger]
                s.preds.else_preds.contains(x))
            &&& forall|x: BlockRef| #[trigger]
                s.preds.then_preds.contains(x) ==> merge_arm_preds(input.cfg, b.then_entry, s.merge).contains(x)
            &&& forall|x: BlockRef| #[trigger]
                s.preds.else_preds.contains(x) ==> if b.kind == BranchKind::IfThen {
                    x == b.header
                } else {
                    b.else_entry is Some && merge_arm_preds(input.cfg, b.else_entry->0, s.merge).contains(x)
                }
        }),
{
    let s = input.branch_split(b)->0;
    not_empty(s.preds.then_preds);
    not_empty(s.preds.else_preds);
    assert(s.preds.then_preds.disjoint(s.preds.else_preds));
}

proof fn not_empty(s: Set<BlockRef>)
    requires
        s != Set::<BlockRef>::empty(),
    ensures
        exists|x: BlockRef| #[trigger] s.contains(x),
{
    if forall|x: BlockRef| !#[trigger] s.contains(x) {
        assert(s =~= Set::<BlockRef>::empty());
    }
}

/// A condition splits the values where its exits meet: what comes on its true side and what
/// comes on its false side have no block in common.
pub proof fn conditions_split_where_exits_meet(input: &ValueMergeInput, s: &ShortCircuitCandidate)
    requires
        input.short_split(s) is Some,
    ensures
        ({
            let a = input.short_split(s)->0;
            &&& a.header == s.header && a.merge != input.cfg.exit_block
            &&& forall|x: BlockRef| !(#[trigger] a.preds.then_preds.contains(x) && a.preds.else_preds.contains(x))
            &&& (exists|x: BlockRef| #[trigger] a.preds.then_preds.contains(x)) && (exists|x: BlockRef| #[trigger]
                a.preds.else_preds.contains(x))
            &&& match s.exit {
                ShortCircuitExit::BranchExit { truthy, falsy } => {
                    &&& forall|x: BlockRef| #[trigger]
                        a.preds.then_preds.contains(x) ==> if truthy == a.merge {
                            s.leaves_from(true, x)
                        } else {
                            merge_arm_preds(input.cfg, truthy, a.merge).contains(x)
                        }
                    &&& forall|x: BlockRef| #[trigger]
                        a.preds.else_preds.contains(x) ==> if falsy == a.merge {
                            s.leaves_from(false, x)
                        } else {
                            merge_arm_preds(input.cfg, falsy, a.merge).contains(x)
                        }
                },
                ShortCircuitExit::ValueMerge(_) => false,
            }
        }),
{
    let a = input.short_split(s)->0;
    not_empty(a.preds.then_preds);
    not_empty(a.preds.else_preds);
    assert(a.preds.then_preds.disjoint(a.preds.else_preds));
}

/// Some definition below the header flows into the value.
pub open spec fn is_made_below(ctx: &BranchValueMergeContext, v: SsaValue) -> bool {
    exists|d: DefId| #[trigger]
        carries(ctx.dataflow.phi_candidates@, v, SsaValue::Def(d)) && ctx.dataflow.defs@[d.0 as int].block != ctx.header
            && ctx.graph_facts.dom(ctx.header, ctx.dataflow.defs@[d.0 as int].block)
}

/// What does not carry the value from before the branch is an update. That value itself is
/// none, unless the branch heads a loop. What carries it besides is one just when a definition
/// below the header flows into it.
pub proof fn updates_are_made_in_the_arm(ctx: &BranchValueMergeContext, phi: &PhiCandidate, v: SsaValue)
    ensures
        ({
            let old_value = ctx.dataflow.exit_value(ctx.header, phi.reg);
            let kept = carries(ctx.dataflow.phi_candidates@, v, old_value);
            &&& !kept ==> ctx.is_update(phi, v)
            &&& v == old_value && !ctx.graph_facts.loop_headers@.contains(ctx.header) ==> !ctx.is_update(phi, v)
            &&& kept && v != old_value ==> (ctx.is_update(phi, v) <==> is_made_below(ctx, v))
            &&& kept && v == old_value && ctx.graph_facts.loop_headers@.contains(ctx.header) ==> (ctx.is_update(phi, v)
                <==> is_made_below(ctx, v))
        }),
{
}

/// Where blocks that flow into the merge belong to both arms and are told apart, one that a
/// single arm's entry dominates belongs to that arm alone, and any other stays with both.
pub proof fn shared_blocks_go_to_the_arm_above_them(
    input: &ValueMergeInput,
    b: &BranchCandidate,
    merge: BlockRef,
    x: BlockRef,
)
    requires
        input.parts_overlap(b, merge),
        b.kind != BranchKind::IfThen,
        merge_arm_preds(input.cfg, b.then_entry, merge).contains(x),
        merge_arm_preds(input.cfg, b.else_entry->0, merge).contains(x),
    ensures
        ({
            let above_then = input.graph.dom(b.then_entry, x);
            let above_else = input.graph.dom(b.else_entry->0, x);
            &&& input.then_preds(b, merge).contains(x) <==> above_then || !above_else
            &&& input.else_preds(b, merge).contains(x) <==> above_else || !above_then
        }),
{
}

/// What flows into the merge from one arm only stays with it.
pub proof fn unshared_blocks_stay_with_their_arm(input: &ValueMergeInput, b: &BranchCandidate, merge: BlockRef, x: BlockRef)
    requires
        b.else_entry is Some,
        b.kind != BranchKind::IfThen,
        merge_arm_preds(input.cfg, b.then_entry, merge).contains(x) != merge_arm_preds(
            input.cfg,
            b.else_entry->0,
            merge,
        ).contains(x),
    ensures
        input.then_preds(b, merge).contains(x) <==> merge_arm_preds(input.cfg, b.then_entry, merge).contains(x),
        input.else_preds(b, merge).contains(x) <==> merge_arm_preds(input.cfg, b.else_entry->0, merge).contains(x),
{
}

/// A branch leaves out the registers that an expression with the same header yields at the
/// same merge, and no others.
pub proof fn branches_leave_out_what_expressions_yield(input: &ValueMergeInput, b: &BranchCandidate, r: Reg)
    requires
        input.branch_split(b) is Some,
    ensures
        (input.branch_split(b)->0).skipped.contains(r) <==> exists|i: int|
            0 <= i < input.shorts@.len() && yields_for(&(#[trigger] input.shorts@[i]), b.header, b.merge->0, r),
{
    if exists|i: int|
        0 <= i < input.shorts@.len() && yields_for(&(#[trigger] input.shorts@[i]), b.header, b.merge->0, r) {
        let i = choose|i: int|
            0 <= i < input.shorts@.len() && yields_for(&(#[trigger] input.shorts@[i]), b.header, b.merge->0, r);
        assert(input.shorts@[i].header == b.header);
    }
}

/// The expression starts at the header and yields the register at the merge.
pub open spec fn yields_for(s: &ShortCircuitCandidate, header: BlockRef, merge: BlockRef, r: Reg) -> bool {
    s.header == header && s.exit == ShortCircuitExit::ValueMerge(merge) && s.result_reg == Some(r)
}

} // verus!
