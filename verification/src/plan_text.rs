//! The sections of a plan as text.

use vstd::prelude::*;

use crate::evidence::{GotoReason, LoopKindHint, PhiEdgeCopy};
use crate::ids::{BlockRef, EdgeRef};
use crate::plan::{
    BlockTerminatorKind, BlockTerminatorPlan, BranchArm, CleanupDisposition, ConditionArcPlan, ConditionArcPolarity,
    ConditionNodeId, ConditionNodePlan, ConditionPlan, ConditionPlanId, ConditionTarget, ConditionValuePlan,
    ControlFlowFeature, EdgeActionPlacement, EdgePlan, EdgeRegionRelation, EdgeTransfer, ForwardRouteId,
    ForwardRouteKind, ForwardRoutePlan, LabelPlacement, LabelPlan, LabelPlanId, PhiIncomingDisposition,
    PhiIncomingPlan, PhiPlan, PlanRequirement, ValueDecisionArcPlan, ValueDecisionLeafPlan, ValueDecisionNodePlan,
    ValueDecisionPlan, ValueDecisionTarget,
};
use crate::structure_plan::{chain, entry_at, DebugBindingConflict, DebugBindingFact, DebugBindingFacts, StructurePlan};
use crate::text::{
    block_set_text, block_text, edge_set_text, edge_text, flag_text, instr_list_text, instr_text, number,
    optional_def_text, optional_region_text, put_number, range_text, reg_text, value_text, write_block,
    write_block_set, write_edge, write_edge_set, write_flag, write_instr, write_instr_list, write_optional_def,
    write_optional_region, write_range, write_reg, write_value,
};

verus! {

/// The line of an empty section.
pub open spec fn none_text(t: Seq<char>, indent: Seq<char>) -> Seq<char> {
    t + indent + "    <none>\n"@
}

pub fn write_none(out: &mut String, indent: &str)
    ensures
        final(out)@ == none_text(old(out)@, indent@),
{
    out.append(indent);
    out.append("    <none>\n");
}

pub open spec fn polarity_text(t: Seq<char>, p: ConditionArcPolarity) -> Seq<char> {
    match p {
        ConditionArcPolarity::BranchTrue => t + "BranchTrue"@,
        ConditionArcPolarity::BranchFalse => t + "BranchFalse"@,
    }
}

fn write_polarity(out: &mut String, p: ConditionArcPolarity)
    ensures
        final(out)@ == polarity_text(old(out)@, p),
{
    match p {
        ConditionArcPolarity::BranchTrue => {
            out.append("BranchTrue");
        },
        ConditionArcPolarity::BranchFalse => {
            out.append("BranchFalse");
        },
    }
}

/// The name of a kind of loop.
pub open spec fn loop_kind_text(t: Seq<char>, k: LoopKindHint) -> Seq<char> {
    match k {
        LoopKindHint::WhileLike => t + "while"@,
        LoopKindHint::WhileTrueLike => t + "while-true"@,
        LoopKindHint::RepeatLike => t + "repeat"@,
        LoopKindHint::NumericForLike => t + "numeric-for"@,
        LoopKindHint::GenericForLike => t + "generic-for"@,
        LoopKindHint::Unknown => t + "unknown"@,
    }
}

pub fn write_loop_kind(out: &mut String, k: LoopKindHint)
    ensures
        final(out)@ == loop_kind_text(old(out)@, k),
{
    match k {
        LoopKindHint::WhileLike => {
            out.append("while");
        },
        LoopKindHint::WhileTrueLike => {
            out.append("while-true");
        },
        LoopKindHint::RepeatLike => {
            out.append("repeat");
        },
        LoopKindHint::NumericForLike => {
            out.append("numeric-for");
        },
        LoopKindHint::GenericForLike => {
            out.append("generic-for");
        },
        LoopKindHint::Unknown => {
            out.append("unknown");
        },
    }
}

/// The name of the reason for a jump.
pub open spec fn goto_reason_text(t: Seq<char>, r: GotoReason) -> Seq<char> {
    match r {
        GotoReason::IrreducibleFlow => t + "irreducible-flow"@,
        GotoReason::MultiEntryRegion => t + "multi-entry-region"@,
        GotoReason::UnstructuredBreakLike => t + "unstructured-break-like"@,
        GotoReason::UnstructuredContinueLike => t + "unstructured-continue-like"@,
        GotoReason::CrossLoopContinueLike => t + "cross-loop-continue-like"@,
    }
}

pub fn write_goto_reason(out: &mut String, r: GotoReason)
    ensures
        final(out)@ == goto_reason_text(old(out)@, r),
{
    match r {
        GotoReason::IrreducibleFlow => {
            out.append("irreducible-flow");
        },
        GotoReason::MultiEntryRegion => {
            out.append("multi-entry-region");
        },
        GotoReason::UnstructuredBreakLike => {
            out.append("unstructured-break-like");
        },
        GotoReason::UnstructuredContinueLike => {
            out.append("unstructured-continue-like");
        },
        GotoReason::CrossLoopContinueLike => {
            out.append("cross-loop-continue-like");
        },
    }
}

/// The name of a language feature.
pub open spec fn control_feature_text(t: Seq<char>, f: ControlFlowFeature) -> Seq<char> {
    match f {
        ControlFlowFeature::GotoLabel => t + "goto-label"@,
        ControlFlowFeature::ContinueStatement => t + "continue"@,
    }
}

fn write_control_feature(out: &mut String, f: ControlFlowFeature)
    ensures
        final(out)@ == control_feature_text(old(out)@, f),
{
    match f {
        ControlFlowFeature::GotoLabel => {
            out.append("goto-label");
        },
        ControlFlowFeature::ContinueStatement => {
            out.append("continue");
        },
    }
}

pub open spec fn branch_arm_text(t: Seq<char>, a: BranchArm) -> Seq<char> {
    match a {
        BranchArm::Truthy => t + "Truthy"@,
        BranchArm::Falsy => t + "Falsy"@,
        BranchArm::LoopBody => t + "LoopBody"@,
        BranchArm::LoopExit => t + "LoopExit"@,
    }
}

pub fn write_branch_arm(out: &mut String, a: BranchArm)
    ensures
        final(out)@ == branch_arm_text(old(out)@, a),
{
    match a {
        BranchArm::Truthy => {
            out.append("Truthy");
        },
        BranchArm::Falsy => {
            out.append("Falsy");
        },
        BranchArm::LoopBody => {
            out.append("LoopBody");
        },
        BranchArm::LoopExit => {
            out.append("LoopExit");
        },
    }
}

/// The name of an owner.
pub open spec fn phi_disposition_text(t: Seq<char>, d: PhiIncomingDisposition) -> Seq<char> {
    match d {
        PhiIncomingDisposition::Dead => t + "dead"@,
        PhiIncomingDisposition::EdgeCopy => t + "edge-copy"@,
        PhiIncomingDisposition::RegionInput(r) => number(t + "region-input:r"@, r.0 as nat),
        PhiIncomingDisposition::RegionResult(r) => number(t + "region-result:r"@, r.0 as nat),
        PhiIncomingDisposition::LoopCarried(r) => number(t + "loop-carried:r"@, r.0 as nat),
        PhiIncomingDisposition::DiagnosticUnresolved => t + "diagnostic-unresolved"@,
    }
}

pub fn write_phi_disposition(out: &mut String, d: PhiIncomingDisposition)
    ensures
        final(out)@ == phi_disposition_text(old(out)@, d),
{
    match d {
        PhiIncomingDisposition::Dead => {
            out.append("dead");
        },
        PhiIncomingDisposition::EdgeCopy => {
            out.append("edge-copy");
        },
        PhiIncomingDisposition::RegionInput(r) => {
            out.append("region-input:r");
            put_number(out, r.0);
        },
        PhiIncomingDisposition::RegionResult(r) => {
            out.append("region-result:r");
            put_number(out, r.0);
        },
        PhiIncomingDisposition::LoopCarried(r) => {
            out.append("loop-carried:r");
            put_number(out, r.0);
        },
        PhiIncomingDisposition::DiagnosticUnresolved => {
            out.append("diagnostic-unresolved");
        },
    }
}

/// The name of what a cleanup belongs to.
pub open spec fn cleanup_disposition_text(t: Seq<char>, d: CleanupDisposition) -> Seq<char> {
    match d {
        CleanupDisposition::Unreachable => t + "unreachable"@,
        CleanupDisposition::ExplicitTbc => t + "explicit-tbc"@,
        CleanupDisposition::LoopTbcBoundary(id) => number(t + "loop-tbc-boundary:r"@, id.0 as nat),
        CleanupDisposition::ExplicitTbcBoundary(id) => number(t + "explicit-tbc-boundary:t"@, id.0 as nat),
        CleanupDisposition::ExplicitTbcExit(id) => number(t + "explicit-tbc-exit:t"@, id.0 as nat),
        CleanupDisposition::LexicalScope(id) => number(t + "lexical-scope:s"@, id.0 as nat),
    }
}

pub fn write_cleanup_disposition(out: &mut String, d: CleanupDisposition)
    ensures
        final(out)@ == cleanup_disposition_text(old(out)@, d),
{
    match d {
        CleanupDisposition::Unreachable => {
            out.append("unreachable");
        },
        CleanupDisposition::ExplicitTbc => {
            out.append("explicit-tbc");
        },
        CleanupDisposition::LoopTbcBoundary(id) => {
            out.append("loop-tbc-boundary:r");
            put_number(out, id.0);
        },
        CleanupDisposition::ExplicitTbcBoundary(id) => {
            out.append("explicit-tbc-boundary:t");
            put_number(out, id.0);
        },
        CleanupDisposition::ExplicitTbcExit(id) => {
            out.append("explicit-tbc-exit:t");
            put_number(out, id.0);
        },
        CleanupDisposition::LexicalScope(id) => {
            out.append("lexical-scope:s");
            put_number(out, id.0);
        },
    }
}

/// The block of a label.
pub open spec fn label_block(plan: &StructurePlan, label: LabelPlanId) -> Option<BlockRef> {
    if label.0 < plan.labels@.len() {
        Some(plan.labels@[label.0 as int].block)
    } else {
        None
    }
}

fn find_label_block(plan: &StructurePlan, label: LabelPlanId) -> (r: Option<BlockRef>)
    ensures
        r == label_block(plan, label),
{
    if label.0 < plan.labels.len() {
        Some(plan.labels[label.0].block)
    } else {
        None
    }
}

pub open spec fn known_block_text(t: Seq<char>, b: Option<BlockRef>) -> Seq<char> {
    match b {
        Some(b) => block_text(t, b),
        None => t + "<missing>"@,
    }
}

fn write_known_block(out: &mut String, b: Option<BlockRef>)
    ensures
        final(out)@ == known_block_text(old(out)@, b),
{
    match b {
        Some(b) => {
            write_block(out, b);
        },
        None => {
            out.append("<missing>");
        },
    }
}

/// How control passes over an edge.
pub open spec fn edge_transfer_text(t: Seq<char>, plan: &StructurePlan, transfer: EdgeTransfer) -> Seq<char> {
    match transfer {
        EdgeTransfer::Unreachable => t + "unreachable"@,
        EdgeTransfer::Fallthrough => t + "fallthrough"@,
        EdgeTransfer::BranchArm(arm) => branch_arm_text(t + "branch-arm:"@, arm),
        EdgeTransfer::LoopBack(r) => number(t + "loop-back:r"@, r.0 as nat),
        EdgeTransfer::Break(r) => number(t + "break:r"@, r.0 as nat),
        EdgeTransfer::Continue(r) => number(t + "continue:r"@, r.0 as nat),
        EdgeTransfer::Return => t + "return"@,
        EdgeTransfer::TailCall => t + "tail-call"@,
        EdgeTransfer::Goto(label, reason) => {
            let t = number(t + "goto:l"@, label.0 as nat);
            let t = known_block_text(t + "("@, label_block(plan, label));
            goto_reason_text(t + "):"@, reason)
        },
    }
}

pub fn write_edge_transfer(out: &mut String, plan: &StructurePlan, transfer: EdgeTransfer)
    ensures
        final(out)@ == edge_transfer_text(old(out)@, plan, transfer),
{
    match transfer {
        EdgeTransfer::Unreachable => {
            out.append("unreachable");
        },
        EdgeTransfer::Fallthrough => {
            out.append("fallthrough");
        },
        EdgeTransfer::BranchArm(arm) => {
            out.append("branch-arm:");
            write_branch_arm(out, arm);
        },
        EdgeTransfer::LoopBack(r) => {
            out.append("loop-back:r");
            put_number(out, r.0);
        },
        EdgeTransfer::Break(r) => {
            out.append("break:r");
            put_number(out, r.0);
        },
        EdgeTransfer::Continue(r) => {
            out.append("continue:r");
            put_number(out, r.0);
        },
        EdgeTransfer::Return => {
            out.append("return");
        },
        EdgeTransfer::TailCall => {
            out.append("tail-call");
        },
        EdgeTransfer::Goto(label, reason) => {
            out.append("goto:l");
            put_number(out, label.0);
            out.append("(");
            write_known_block(out, find_label_block(plan, label));
            out.append("):");
            write_goto_reason(out, reason);
        },
    }
}

/// The first `n` variables, one to a line.
pub open spec fn accepted_bindings_text(t: Seq<char>, list: Seq<DebugBindingFact>, indent: Seq<char>, n: nat) -> Seq<char>
    decreases n,
{
    if n == 0 {
        t
    } else {
        let t = accepted_bindings_text(t, list, indent, (n - 1) as nat);
        let x = list[n - 1];
        let t = number(t + indent + "    scope#"@, x.scope as nat);
        let t = number(t + " source r"@, x.reg.0 as nat);
        let t = number(t + " pc="@, x.start_pc as nat);
        let t = number(t + ".."@, x.end_pc as nat);
        let t = value_text(t + " -> "@, x.value);
        t + "\n"@
    }
}

fn write_accepted_bindings(out: &mut String, list: &Vec<DebugBindingFact>, indent: &str)
    ensures
        final(out)@ == accepted_bindings_text(old(out)@, list@, indent@, list@.len()),
{
    let n = list.len();
    let ghost t = out@;
    let mut i: usize = 0;
    while i < n
        invariant
            n == list@.len(),
            i <= n,
            out@ == accepted_bindings_text(t, list@, indent@, i as nat),
        decreases n - i,
    {
        let x = list[i];
        out.append(indent);
        out.append("    scope#");
        put_number(out, x.scope);
        out.append(" source r");
        put_number(out, x.reg.0);
        out.append(" pc=");
        put_number(out, x.start_pc as usize);
        out.append("..");
        put_number(out, x.end_pc as usize);
        out.append(" -> ");
        write_value(out, x.value);
        out.append("\n");
        i = i + 1;
    }
}

/// The first `n` scopes, with commas between them.
pub open spec fn scope_list_text(t: Seq<char>, list: Seq<usize>, n: nat) -> Seq<char>
    decreases n,
{
    if n == 0 {
        t
    } else {
        let t = scope_list_text(t, list, (n - 1) as nat);
        let t = if n > 1 {
            t + ", "@
        } else {
            t
        };
        let x = list[n - 1];
        number(t + "scope#"@, x as nat)
    }
}

fn write_scope_list(out: &mut String, list: &Vec<usize>)
    ensures
        final(out)@ == scope_list_text(old(out)@, list@, list@.len()),
{
    let n = list.len();
    let ghost t = out@;
    let mut i: usize = 0;
    while i < n
        invariant
            n == list@.len(),
            i <= n,
            out@ == scope_list_text(t, list@, i as nat),
        decreases n - i,
    {
        if i > 0 {
            out.append(", ");
        }
        let x = list[i];
        out.append("scope#");
        put_number(out, x);
        i = i + 1;
    }
}

/// The first `n` conflicts, one to a line.
pub open spec fn binding_conflicts_text(
    t: Seq<char>,
    list: Seq<DebugBindingConflict>,
    indent: Seq<char>,
    n: nat,
) -> Seq<char>
    decreases n,
{
    if n == 0 {
        t
    } else {
        let t = binding_conflicts_text(t, list, indent, (n - 1) as nat);
        let x = &list[n - 1];
        let t = value_text(t + indent + "    ignored conflict value="@, x.value);
        let t = scope_list_text(t + " scopes=["@, x.scopes@, x.scopes@.len());
        t + "]\n"@
    }
}

fn write_binding_conflicts(out: &mut String, list: &Vec<DebugBindingConflict>, indent: &str)
    ensures
        final(out)@ == binding_conflicts_text(old(out)@, list@, indent@, list@.len()),
{
    let n = list.len();
    let ghost t = out@;
    let mut i: usize = 0;
    while i < n
        invariant
            n == list@.len(),
            i <= n,
            out@ == binding_conflicts_text(t, list@, indent@, i as nat),
        decreases n - i,
    {
        let x = &list[i];
        out.append(indent);
        out.append("    ignored conflict value=");
        write_value(out, x.value);
        out.append(" scopes=[");
        write_scope_list(out, &x.scopes);
        out.append("]\n");
        i = i + 1;
    }
}

/// The variables that source scopes give to values.
pub open spec fn debug_bindings_text(t: Seq<char>, indent: Seq<char>, facts: &DebugBindingFacts) -> Seq<char> {
    if facts.accepted@.len() == 0 && facts.conflicts@.len() == 0 {
        none_text(t, indent)
    } else {
        let t = accepted_bindings_text(t, facts.accepted@, indent, facts.accepted@.len());
        binding_conflicts_text(t, facts.conflicts@, indent, facts.conflicts@.len())
    }
}

pub fn write_debug_bindings(out: &mut String, indent: &str, facts: &DebugBindingFacts)
    ensures
        final(out)@ == debug_bindings_text(old(out)@, indent@, facts),
{
    if facts.accepted.len() == 0 && facts.conflicts.len() == 0 {
        write_none(out, indent);
    } else {
        write_accepted_bindings(out, &facts.accepted, indent);
        write_binding_conflicts(out, &facts.conflicts, indent);
    }
}

pub open spec fn decision_target_text(t: Seq<char>, target: ValueDecisionTarget) -> Seq<char> {
    match target {
        ValueDecisionTarget::Node(n) => number(t + "n"@, n.0 as nat),
        ValueDecisionTarget::Leaf(l) => number(t + "leaf"@, l.0 as nat),
        ValueDecisionTarget::CurrentValue(l) => {
            let t = number(t + "current(leaf"@, l.0 as nat);
            t + ")"@
        },
    }
}

fn write_decision_target(out: &mut String, target: ValueDecisionTarget)
    ensures
        final(out)@ == decision_target_text(old(out)@, target),
{
    match target {
        ValueDecisionTarget::Node(n) => {
            out.append("n");
            put_number(out, n.0);
        },
        ValueDecisionTarget::Leaf(l) => {
            out.append("leaf");
            put_number(out, l.0);
        },
        ValueDecisionTarget::CurrentValue(l) => {
            out.append("current(leaf");
            put_number(out, l.0);
            out.append(")");
        },
    }
}

pub open spec fn decision_arc_text(
    t: Seq<char>,
    indent: Seq<char>,
    semantic: Seq<char>,
    arc: &ValueDecisionArcPlan,
) -> Seq<char> {
    let t = polarity_text(t + indent + "        "@ + semantic + " polarity="@, arc.polarity);
    let t = edge_set_text(t + " route="@, arc.route@);
    let t = decision_target_text(t + " target="@, arc.target);
    t + "\n"@
}

fn write_decision_arc(out: &mut String, indent: &str, semantic: &str, arc: &ValueDecisionArcPlan)
    ensures
        final(out)@ == decision_arc_text(old(out)@, indent@, semantic@, arc),
{
    out.append(indent);
    out.append("        ");
    out.append(semantic);
    out.append(" polarity=");
    write_polarity(out, arc.polarity);
    out.append(" route=");
    write_edge_set(out, &arc.route);
    out.append(" target=");
    write_decision_target(out, arc.target);
    out.append("\n");
}

/// The first `n` nodes of a decision.
pub open spec fn decision_nodes_text(t: Seq<char>, list: Seq<ValueDecisionNodePlan>, indent: Seq<char>, n: nat) -> Seq<char>
    decreases n,
{
    if n == 0 {
        t
    } else {
        let t = decision_nodes_text(t, list, indent, (n - 1) as nat);
        let x = &list[n - 1];
        let t = number(t + indent + "      n"@, x.id.0 as nat);
        let t = number(t + " block=#"@, x.block.0 as nat);
        let t = number(t + " predicate=@"@, x.predicate.0 as nat);
        let t = flag_text(t + " predicate-negated="@, x.predicate_negated);
        let t = decision_arc_text(t + "\n"@, indent, "truthy"@, &x.truthy);
        decision_arc_text(t, indent, "falsy"@, &x.falsy)
    }
}

fn write_decision_nodes(out: &mut String, list: &Vec<ValueDecisionNodePlan>, indent: &str)
    ensures
        final(out)@ == decision_nodes_text(old(out)@, list@, indent@, list@.len()),
{
    let n = list.len();
    let ghost t = out@;
    let mut i: usize = 0;
    while i < n
        invariant
            n == list@.len(),
            i <= n,
            out@ == decision_nodes_text(t, list@, indent@, i as nat),
        decreases n - i,
    {
        let x = &list[i];
        out.append(indent);
        out.append("      n");
        put_number(out, x.id.0);
        out.append(" block=#");
        put_number(out, x.block.0);
        out.append(" predicate=@");
        put_number(out, x.predicate.0);
        out.append(" predicate-negated=");
        write_flag(out, x.predicate_negated);
        out.append("\n");
        write_decision_arc(out, indent, "truthy", &x.truthy);
        write_decision_arc(out, indent, "falsy", &x.falsy);
        i = i + 1;
    }
}

/// The first `n` leaves of a decision.
pub open spec fn decision_leaves_text(t: Seq<char>, list: Seq<ValueDecisionLeafPlan>, indent: Seq<char>, n: nat) -> Seq<char>
    decreases n,
{
    if n == 0 {
        t
    } else {
        let t = decision_leaves_text(t, list, indent, (n - 1) as nat);
        let x = &list[n - 1];
        let t = number(t + indent + "      leaf"@, x.id.0 as nat);
        let t = number(t + " block=#"@, x.block.0 as nat);
        let t = value_text(t + " value="@, x.value);
        let t = optional_def_text(t + " latest-def="@, x.latest_local_def);
        let t = edge_text(t + " terminal="@, x.terminal_edge);
        let t = number(t + " physical-pred=#"@, x.physical_pred.0 as nat);
        let t = value_text(t + " physical-value="@, x.physical_value);
        t + "\n"@
    }
}

fn write_decision_leaves(out: &mut String, list: &Vec<ValueDecisionLeafPlan>, indent: &str)
    ensures
        final(out)@ == decision_leaves_text(old(out)@, list@, indent@, list@.len()),
{
    let n = list.len();
    let ghost t = out@;
    let mut i: usize = 0;
    while i < n
        invariant
            n == list@.len(),
            i <= n,
            out@ == decision_leaves_text(t, list@, indent@, i as nat),
        decreases n - i,
    {
        let x = &list[i];
        out.append(indent);
        out.append("      leaf");
        put_number(out, x.id.0);
        out.append(" block=#");
        put_number(out, x.block.0);
        out.append(" value=");
        write_value(out, x.value);
        out.append(" latest-def=");
        write_optional_def(out, x.latest_local_def);
        out.append(" terminal=");
        write_edge(out, x.terminal_edge);
        out.append(" physical-pred=#");
        put_number(out, x.physical_pred.0);
        out.append(" physical-value=");
        write_value(out, x.physical_value);
        out.append("\n");
        i = i + 1;
    }
}

/// The first `n` decisions.
pub open spec fn decision_list_text(t: Seq<char>, list: Seq<ValueDecisionPlan>, indent: Seq<char>, n: nat) -> Seq<char>
    decreases n,
{
    if n == 0 {
        t
    } else {
        let t = decision_list_text(t, list, indent, (n - 1) as nat);
        let x = &list[n - 1];
        let t = number(t + indent + "    v"@, (n - 1) as nat);
        let t = number(t + " entry=n"@, x.entry.0 as nat);
        let t = number(t + " merge=#"@, x.merge.0 as nat);
        let t = number(t + " result=p"@, x.result_phi.0 as nat);
        let t = number(t + " reg=r"@, x.result_reg.0 as nat);
        let t = block_set_text(t + " blocks="@, x.blocks@);
        let t = decision_nodes_text(t + "\n"@, x.nodes@, indent, x.nodes@.len());
        decision_leaves_text(t, x.leaves@, indent, x.leaves@.len())
    }
}

fn write_decision_list(out: &mut String, list: &Vec<ValueDecisionPlan>, indent: &str)
    ensures
        final(out)@ == decision_list_text(old(out)@, list@, indent@, list@.len()),
{
    let n = list.len();
    let ghost t = out@;
    let mut i: usize = 0;
    while i < n
        invariant
            n == list@.len(),
            i <= n,
            out@ == decision_list_text(t, list@, indent@, i as nat),
        decreases n - i,
    {
        let x = &list[i];
        out.append(indent);
        out.append("    v");
        put_number(out, i);
        out.append(" entry=n");
        put_number(out, x.entry.0);
        out.append(" merge=#");
        put_number(out, x.merge.0);
        out.append(" result=p");
        put_number(out, x.result_phi.0);
        out.append(" reg=r");
        put_number(out, x.result_reg.0);
        out.append(" blocks=");
        write_block_set(out, &x.blocks);
        out.append("\n");
        write_decision_nodes(out, &x.nodes, indent);
        write_decision_leaves(out, &x.leaves, indent);
        i = i + 1;
    }
}

/// The decisions that work out values.
pub open spec fn value_decisions_text(t: Seq<char>, indent: Seq<char>, plan: &StructurePlan) -> Seq<char> {
    if plan.value_decisions@.len() == 0 {
        none_text(t, indent)
    } else {
        decision_list_text(t, plan.value_decisions@, indent, plan.value_decisions@.len())
    }
}

pub fn write_value_decisions(out: &mut String, indent: &str, plan: &StructurePlan)
    ensures
        final(out)@ == value_decisions_text(old(out)@, indent@, plan),
{
    if plan.value_decisions.len() == 0 {
        write_none(out, indent);
    } else {
        write_decision_list(out, &plan.value_decisions, indent);
    }
}

pub open spec fn linear_edge_text(t: Seq<char>, edge: Option<EdgeRef>) -> Seq<char> {
    match edge {
        Some(e) => edge_text(t + "linear edge="@, e),
        None => t + "linear edge=-"@,
    }
}

fn write_linear_edge(out: &mut String, edge: Option<EdgeRef>)
    ensures
        final(out)@ == linear_edge_text(old(out)@, edge),
{
    match edge {
        Some(e) => {
            out.append("linear edge=");
            write_edge(out, e);
        },
        None => {
            out.append("linear edge=-");
        },
    }
}

/// How a block ends.
pub open spec fn terminator_kind_text(t: Seq<char>, kind: BlockTerminatorKind) -> Seq<char> {
    match kind {
        BlockTerminatorKind::SyntheticExit => t + "synthetic-exit"@,
        BlockTerminatorKind::Linear { edge } => linear_edge_text(t, edge),
        BlockTerminatorKind::Jump { instr, edge } => {
            let t = instr_text(t + "jump instr="@, instr);
            edge_text(t + " edge="@, edge)
        },
        BlockTerminatorKind::Branch { instr, truthy, falsy } => {
            let t = instr_text(t + "branch instr="@, instr);
            let t = edge_text(t + " truthy="@, truthy);
            edge_text(t + " falsy="@, falsy)
        },
        BlockTerminatorKind::Return { instr, edge } => {
            let t = instr_text(t + "return instr="@, instr);
            edge_text(t + " edge="@, edge)
        },
        BlockTerminatorKind::TailCall { instr, edge } => {
            let t = instr_text(t + "tail-call instr="@, instr);
            edge_text(t + " edge="@, edge)
        },
        BlockTerminatorKind::NumericForInit { instr, body, exit } => {
            let t = instr_text(t + "numeric-for-init instr="@, instr);
            let t = edge_text(t + " body="@, body);
            edge_text(t + " exit="@, exit)
        },
        BlockTerminatorKind::NumericForLoop { instr, body, exit } => {
            let t = instr_text(t + "numeric-for-loop instr="@, instr);
            let t = edge_text(t + " body="@, body);
            edge_text(t + " exit="@, exit)
        },
        BlockTerminatorKind::GenericForLoop { instr, body, exit } => {
            let t = instr_text(t + "generic-for-loop instr="@, instr);
            let t = edge_text(t + " body="@, body);
            edge_text(t + " exit="@, exit)
        },
    }
}

fn write_terminator_kind(out: &mut String, kind: BlockTerminatorKind)
    ensures
        final(out)@ == terminator_kind_text(old(out)@, kind),
{
    match kind {
        BlockTerminatorKind::SyntheticExit => {
            out.append("synthetic-exit");
        },
        BlockTerminatorKind::Linear { edge } => {
            write_linear_edge(out, edge);
        },
        BlockTerminatorKind::Jump { instr, edge } => {
            out.append("jump instr=");
            write_instr(out, instr);
            out.append(" edge=");
            write_edge(out, edge);
        },
        BlockTerminatorKind::Branch { instr, truthy, falsy } => {
            out.append("branch instr=");
            write_instr(out, instr);
            out.append(" truthy=");
            write_edge(out, truthy);
            out.append(" falsy=");
            write_edge(out, falsy);
        },
        BlockTerminatorKind::Return { instr, edge } => {
            out.append("return instr=");
            write_instr(out, instr);
            out.append(" edge=");
            write_edge(out, edge);
        },
        BlockTerminatorKind::TailCall { instr, edge } => {
            out.append("tail-call instr=");
            write_instr(out, instr);
            out.append(" edge=");
            write_edge(out, edge);
        },
        BlockTerminatorKind::NumericForInit { instr, body, exit } => {
            out.append("numeric-for-init instr=");
            write_instr(out, instr);
            out.append(" body=");
            write_edge(out, body);
            out.append(" exit=");
            write_edge(out, exit);
        },
        BlockTerminatorKind::NumericForLoop { instr, body, exit } => {
            out.append("numeric-for-loop instr=");
            write_instr(out, instr);
            out.append(" body=");
            write_edge(out, body);
            out.append(" exit=");
            write_edge(out, exit);
        },
        BlockTerminatorKind::GenericForLoop { instr, body, exit } => {
            out.append("generic-for-loop instr=");
            write_instr(out, instr);
            out.append(" body=");
            write_edge(out, body);
            out.append(" exit=");
            write_edge(out, exit);
        },
    }
}

/// The first `n` blocks, with their ends.
pub open spec fn terminator_list_text(t: Seq<char>, list: Seq<BlockTerminatorPlan>, indent: Seq<char>, n: nat) -> Seq<char>
    decreases n,
{
    if n == 0 {
        t
    } else {
        let t = terminator_list_text(t, list, indent, (n - 1) as nat);
        let x = &list[n - 1];
        let t = block_text(t + indent + "    "@, x.block);
        let t = range_text(t + " instrs="@, x.instrs);
        let t = terminator_kind_text(t + " "@, x.kind);
        t + "\n"@
    }
}

fn write_terminator_list(out: &mut String, list: &Vec<BlockTerminatorPlan>, indent: &str)
    ensures
        final(out)@ == terminator_list_text(old(out)@, list@, indent@, list@.len()),
{
    let n = list.len();
    let ghost t = out@;
    let mut i: usize = 0;
    while i < n
        invariant
            n == list@.len(),
            i <= n,
            out@ == terminator_list_text(t, list@, indent@, i as nat),
        decreases n - i,
    {
        let x = &list[i];
        out.append(indent);
        out.append("    ");
        write_block(out, x.block);
        out.append(" instrs=");
        write_range(out, x.instrs);
        out.append(" ");
        write_terminator_kind(out, x.kind);
        out.append("\n");
        i = i + 1;
    }
}

/// How the blocks end.
pub open spec fn block_terminators_text(t: Seq<char>, indent: Seq<char>, plan: &StructurePlan) -> Seq<char> {
    if plan.block_terminators@.len() == 0 {
        none_text(t, indent)
    } else {
        terminator_list_text(t, plan.block_terminators@, indent, plan.block_terminators@.len())
    }
}

pub fn write_block_terminators(out: &mut String, indent: &str, plan: &StructurePlan)
    ensures
        final(out)@ == block_terminators_text(old(out)@, indent@, plan),
{
    if plan.block_terminators.len() == 0 {
        write_none(out, indent);
    } else {
        write_terminator_list(out, &plan.block_terminators, indent);
    }
}

pub open spec fn node_value_text(t: Seq<char>, value: Option<ConditionValuePlan>) -> Seq<char> {
    match value {
        Some(v) => {
            let t = number(t + "value=p"@, v.phi.0 as nat);
            let t = number(t + " consumer=n"@, v.consumer.0 as nat);
            let t = number(t + " use=@"@, v.use_instr.0 as nat);
            let t = flag_text(t + " negated="@, v.negated);
            optional_def_text(t + " forwarded-callee="@, v.forwarded_callee)
        },
        None => t + "control"@,
    }
}

fn write_node_value(out: &mut String, value: Option<ConditionValuePlan>)
    ensures
        final(out)@ == node_value_text(old(out)@, value),
{
    match value {
        Some(v) => {
            out.append("value=p");
            put_number(out, v.phi.0);
            out.append(" consumer=n");
            put_number(out, v.consumer.0);
            out.append(" use=@");
            put_number(out, v.use_instr.0);
            out.append(" negated=");
            write_flag(out, v.negated);
            out.append(" forwarded-callee=");
            write_optional_def(out, v.forwarded_callee);
        },
        None => {
            out.append("control");
        },
    }
}

pub open spec fn condition_target_text(t: Seq<char>, target: ConditionTarget) -> Seq<char> {
    match target {
        ConditionTarget::Node(n) => number(t + "n"@, n.0 as nat),
        ConditionTarget::Truthy => t + "truthy"@,
        ConditionTarget::Falsy => t + "falsy"@,
    }
}

fn write_condition_target(out: &mut String, target: ConditionTarget)
    ensures
        final(out)@ == condition_target_text(old(out)@, target),
{
    match target {
        ConditionTarget::Node(n) => {
            out.append("n");
            put_number(out, n.0);
        },
        ConditionTarget::Truthy => {
            out.append("truthy");
        },
        ConditionTarget::Falsy => {
            out.append("falsy");
        },
    }
}

pub open spec fn condition_arc_text(t: Seq<char>, indent: Seq<char>, arc: &ConditionArcPlan) -> Seq<char> {
    let t = polarity_text(t + indent + "        "@, arc.polarity);
    let t = edge_set_text(t + " route="@, arc.route@);
    let t = block_set_text(t + " connectors="@, arc.connector_blocks@);
    let t = condition_target_text(t + " target="@, arc.target);
    t + "\n"@
}

fn write_condition_arc(out: &mut String, indent: &str, arc: &ConditionArcPlan)
    ensures
        final(out)@ == condition_arc_text(old(out)@, indent@, arc),
{
    out.append(indent);
    out.append("        ");
    write_polarity(out, arc.polarity);
    out.append(" route=");
    write_edge_set(out, &arc.route);
    out.append(" connectors=");
    write_block_set(out, &arc.connector_blocks);
    out.append(" target=");
    write_condition_target(out, arc.target);
    out.append("\n");
}

/// The first `n` nodes of a condition.
pub open spec fn condition_nodes_text(t: Seq<char>, list: Seq<ConditionNodePlan>, indent: Seq<char>, n: nat) -> Seq<char>
    decreases n,
{
    if n == 0 {
        t
    } else {
        let t = condition_nodes_text(t, list, indent, (n - 1) as nat);
        let x = &list[n - 1];
        let t = number(t + indent + "      n"@, x.id.0 as nat);
        let t = number(t + " block=#"@, x.block.0 as nat);
        let t = number(t + " predicate=@"@, x.predicate.0 as nat);
        let t = flag_text(t + " predicate-negated="@, x.predicate_negated);
        let t = node_value_text(t + " "@, x.materialized_value);
        let t = condition_arc_text(t + "\n"@, indent, &x.arcs@[0]);
        condition_arc_text(t, indent, &x.arcs@[1])
    }
}

fn write_condition_nodes(out: &mut String, list: &Vec<ConditionNodePlan>, indent: &str)
    ensures
        final(out)@ == condition_nodes_text(old(out)@, list@, indent@, list@.len()),
{
    let n = list.len();
    let ghost t = out@;
    let mut i: usize = 0;
    while i < n
        invariant
            n == list@.len(),
            i <= n,
            out@ == condition_nodes_text(t, list@, indent@, i as nat),
        decreases n - i,
    {
        let x = &list[i];
        out.append(indent);
        out.append("      n");
        put_number(out, x.id.0);
        out.append(" block=#");
        put_number(out, x.block.0);
        out.append(" predicate=@");
        put_number(out, x.predicate.0);
        out.append(" predicate-negated=");
        write_flag(out, x.predicate_negated);
        out.append(" ");
        write_node_value(out, x.materialized_value);
        out.append("\n");
        write_condition_arc(out, indent, &x.arcs[0]);
        write_condition_arc(out, indent, &x.arcs[1]);
        i = i + 1;
    }
}

/// The first `n` conditions.
pub open spec fn condition_list_text(t: Seq<char>, list: Seq<ConditionPlan>, indent: Seq<char>, n: nat) -> Seq<char>
    decreases n,
{
    if n == 0 {
        t
    } else {
        let t = condition_list_text(t, list, indent, (n - 1) as nat);
        let x = &list[n - 1];
        let t = number(t + indent + "    c"@, (n - 1) as nat);
        let t = number(t + " entry=n"@, x.entry.0 as nat);
        let t = edge_text(t + " truthy="@, x.truthy);
        let t = edge_text(t + " falsy="@, x.falsy);
        condition_nodes_text(t + "\n"@, x.nodes@, indent, x.nodes@.len())
    }
}

fn write_condition_list(out: &mut String, list: &Vec<ConditionPlan>, indent: &str)
    ensures
        final(out)@ == condition_list_text(old(out)@, list@, indent@, list@.len()),
{
    let n = list.len();
    let ghost t = out@;
    let mut i: usize = 0;
    while i < n
        invariant
            n == list@.len(),
            i <= n,
            out@ == condition_list_text(t, list@, indent@, i as nat),
        decreases n - i,
    {
        let x = &list[i];
        out.append(indent);
        out.append("    c");
        put_number(out, i);
        out.append(" entry=n");
        put_number(out, x.entry.0);
        out.append(" truthy=");
        write_edge(out, x.truthy);
        out.append(" falsy=");
        write_edge(out, x.falsy);
        out.append("\n");
        write_condition_nodes(out, &x.nodes, indent);
        i = i + 1;
    }
}

/// The conditions.
pub open spec fn conditions_text(t: Seq<char>, indent: Seq<char>, plan: &StructurePlan) -> Seq<char> {
    if plan.conditions@.len() == 0 {
        none_text(t, indent)
    } else {
        condition_list_text(t, plan.conditions@, indent, plan.conditions@.len())
    }
}

pub fn write_conditions(out: &mut String, indent: &str, plan: &StructurePlan)
    ensures
        final(out)@ == conditions_text(old(out)@, indent@, plan),
{
    if plan.conditions.len() == 0 {
        write_none(out, indent);
    } else {
        write_condition_list(out, &plan.conditions, indent);
    }
}

pub open spec fn label_placement_text(t: Seq<char>, p: LabelPlacement) -> Seq<char> {
    match p {
        LabelPlacement::BeforeBlock => t + "BeforeBlock"@,
        LabelPlacement::BeforeRegion(r) => {
            let t = number(t + "BeforeRegion(RegionId("@, r.0 as nat);
            t + "))"@
        },
        LabelPlacement::AfterCleanup(i) => {
            let t = number(t + "AfterCleanup(InstrRef("@, i.0 as nat);
            t + "))"@
        },
    }
}

fn write_label_placement(out: &mut String, p: LabelPlacement)
    ensures
        final(out)@ == label_placement_text(old(out)@, p),
{
    match p {
        LabelPlacement::BeforeBlock => {
            out.append("BeforeBlock");
        },
        LabelPlacement::BeforeRegion(r) => {
            out.append("BeforeRegion(RegionId(");
            put_number(out, r.0);
            out.append("))");
        },
        LabelPlacement::AfterCleanup(i) => {
            out.append("AfterCleanup(InstrRef(");
            put_number(out, i.0);
            out.append("))");
        },
    }
}

/// The first `n` labels.
pub open spec fn label_list_text(t: Seq<char>, list: Seq<LabelPlan>, indent: Seq<char>, n: nat) -> Seq<char>
    decreases n,
{
    if n == 0 {
        t
    } else {
        let t = label_list_text(t, list, indent, (n - 1) as nat);
        let x = &list[n - 1];
        let t = number(t + indent + "    l"@, (n - 1) as nat);
        let t = number(t + " block=#"@, x.block.0 as nat);
        let t = label_placement_text(t + " placement="@, x.placement);
        let t = instr_list_text(t + " tbc=["@, x.tbc_barriers@, x.tbc_barriers@.len());
        t + "]\n"@
    }
}

fn write_label_list(out: &mut String, list: &Vec<LabelPlan>, indent: &str)
    ensures
        final(out)@ == label_list_text(old(out)@, list@, indent@, list@.len()),
{
    let n = list.len();
    let ghost t = out@;
    let mut i: usize = 0;
    while i < n
        invariant
            n == list@.len(),
            i <= n,
            out@ == label_list_text(t, list@, indent@, i as nat),
        decreases n - i,
    {
        let x = &list[i];
        out.append(indent);
        out.append("    l");
        put_number(out, i);
        out.append(" block=#");
        put_number(out, x.block.0);
        out.append(" placement=");
        write_label_placement(out, x.placement);
        out.append(" tbc=[");
        write_instr_list(out, &x.tbc_barriers);
        out.append("]\n");
        i = i + 1;
    }
}

/// The labels.
pub open spec fn labels_text(t: Seq<char>, indent: Seq<char>, plan: &StructurePlan) -> Seq<char> {
    if plan.labels@.len() == 0 {
        none_text(t, indent)
    } else {
        label_list_text(t, plan.labels@, indent, plan.labels@.len())
    }
}

pub fn write_labels(out: &mut String, indent: &str, plan: &StructurePlan)
    ensures
        final(out)@ == labels_text(old(out)@, indent@, plan),
{
    if plan.labels.len() == 0 {
        write_none(out, indent);
    } else {
        write_label_list(out, &plan.labels, indent);
    }
}

pub open spec fn forward_route_text(t: Seq<char>, route: Option<ForwardRouteId>) -> Seq<char> {
    match route {
        Some(r) => number(t + "fr"@, r.0 as nat),
        None => t + "-"@,
    }
}

fn write_forward_route(out: &mut String, route: Option<ForwardRouteId>)
    ensures
        final(out)@ == forward_route_text(old(out)@, route),
{
    match route {
        Some(r) => {
            out.append("fr");
            put_number(out, r.0);
        },
        None => {
            out.append("-");
        },
    }
}

/// The first `n` copies, with commas between them.
pub open spec fn copies_text(t: Seq<char>, list: Seq<PhiEdgeCopy>, n: nat) -> Seq<char>
    decreases n,
{
    if n == 0 {
        t
    } else {
        let t = copies_text(t, list, (n - 1) as nat);
        let t = if n > 1 {
            t + ", "@
        } else {
            t
        };
        let x = list[n - 1];
        let t = number(t + "p"@, x.phi_id.0 as nat);
        value_text(t + "<-"@, x.value)
    }
}

fn write_copies(out: &mut String, list: &Vec<PhiEdgeCopy>)
    ensures
        final(out)@ == copies_text(old(out)@, list@, list@.len()),
{
    let n = list.len();
    let ghost t = out@;
    let mut i: usize = 0;
    while i < n
        invariant
            n == list@.len(),
            i <= n,
            out@ == copies_text(t, list@, i as nat),
        decreases n - i,
    {
        if i > 0 {
            out.append(", ");
        }
        let x = list[i];
        out.append("p");
        put_number(out, x.phi_id.0);
        out.append("<-");
        write_value(out, x.value);
        i = i + 1;
    }
}

pub open spec fn action_placement_text(t: Seq<char>, p: EdgeActionPlacement) -> Seq<char> {
    match p {
        EdgeActionPlacement::BeforeTransfer => t + "before-transfer"@,
        EdgeActionPlacement::BeforeTrailingCleanup { cleanup } => range_text(t + "before-cleanup"@, cleanup),
    }
}

fn write_action_placement(out: &mut String, p: EdgeActionPlacement)
    ensures
        final(out)@ == action_placement_text(old(out)@, p),
{
    match p {
        EdgeActionPlacement::BeforeTransfer => {
            out.append("before-transfer");
        },
        EdgeActionPlacement::BeforeTrailingCleanup { cleanup } => {
            out.append("before-cleanup");
            write_range(out, cleanup);
        },
    }
}

pub open spec fn relation_text(t: Seq<char>, relation: Option<EdgeRegionRelation>) -> Seq<char> {
    match relation {
        Some(r) => {
            let t = optional_region_text(t + "relation=src:"@, r.source_owner);
            let t = optional_region_text(t + " dst:"@, r.target_owner);
            let t = optional_region_text(t + " lca:"@, r.lca);
            let t = optional_region_text(t + " src-child:"@, r.source_child);
            optional_region_text(t + " dst-child:"@, r.target_child)
        },
        None => t + "relation=-"@,
    }
}

fn write_relation(out: &mut String, relation: Option<EdgeRegionRelation>)
    ensures
        final(out)@ == relation_text(old(out)@, relation),
{
    match relation {
        Some(r) => {
            out.append("relation=src:");
            write_optional_region(out, r.source_owner);
            out.append(" dst:");
            write_optional_region(out, r.target_owner);
            out.append(" lca:");
            write_optional_region(out, r.lca);
            out.append(" src-child:");
            write_optional_region(out, r.source_child);
            out.append(" dst-child:");
            write_optional_region(out, r.target_child);
        },
        None => {
            out.append("relation=-");
        },
    }
}

/// The first `n` edges.
pub open spec fn edge_plan_list_text(
    t: Seq<char>,
    list: Seq<EdgePlan>,
    indent: Seq<char>,
    plan: &StructurePlan,
    n: nat,
) -> Seq<char>
    decreases n,
{
    if n == 0 {
        t
    } else {
        let t = edge_plan_list_text(t, list, indent, plan, (n - 1) as nat);
        let x = &list[n - 1];
        let t = edge_text(t + indent + "    "@, x.edge);
        let t = number(t + " owner=r"@, x.owner.0 as nat);
        let t = edge_transfer_text(t + " transfer="@, plan, x.transfer);
        let t = action_placement_text(t + " actions="@, x.action_placement);
        let t = forward_route_text(t + " forwarded="@, x.forward_route);
        let t = relation_text(t + " "@, entry_at(plan.navigation.relations@, x.edge.0));
        let t = copies_text(t + " phi=["@, x.phi_copies@, x.phi_copies@.len());
        t + "]\n"@
    }
}

fn write_edge_plan_list(out: &mut String, list: &Vec<EdgePlan>, indent: &str, plan: &StructurePlan)
    ensures
        final(out)@ == edge_plan_list_text(old(out)@, list@, indent@, plan, list@.len()),
{
    let n = list.len();
    let ghost t = out@;
    let mut i: usize = 0;
    while i < n
        invariant
            n == list@.len(),
            i <= n,
            out@ == edge_plan_list_text(t, list@, indent@, plan, i as nat),
        decreases n - i,
    {
        let x = &list[i];
        out.append(indent);
        out.append("    ");
        write_edge(out, x.edge);
        out.append(" owner=r");
        put_number(out, x.owner.0);
        out.append(" transfer=");
        write_edge_transfer(out, plan, x.transfer);
        out.append(" actions=");
        write_action_placement(out, x.action_placement);
        out.append(" forwarded=");
        write_forward_route(out, x.forward_route);
        out.append(" ");
        write_relation(out, plan.edge_region_relation(x.edge));
        out.append(" phi=[");
        write_copies(out, &x.phi_copies);
        out.append("]\n");
        i = i + 1;
    }
}

/// The edges.
pub open spec fn edges_text(t: Seq<char>, indent: Seq<char>, plan: &StructurePlan) -> Seq<char> {
    if plan.edge_plans@.len() == 0 {
        none_text(t, indent)
    } else {
        edge_plan_list_text(t, plan.edge_plans@, indent, plan, plan.edge_plans@.len())
    }
}

pub fn write_edges(out: &mut String, indent: &str, plan: &StructurePlan)
    ensures
        final(out)@ == edges_text(old(out)@, indent@, plan),
{
    if plan.edge_plans.len() == 0 {
        write_none(out, indent);
    } else {
        write_edge_plan_list(out, &plan.edge_plans, indent, plan);
    }
}

pub open spec fn route_kind_text(t: Seq<char>, kind: ForwardRouteKind) -> Seq<char> {
    match kind {
        ForwardRouteKind::ExclusiveBreak => t + "ExclusiveBreak"@,
        ForwardRouteKind::ContinueToTarget => t + "ContinueToTarget"@,
        ForwardRouteKind::ContinueLatch => t + "ContinueLatch"@,
        ForwardRouteKind::RepeatConditionArc(arc) => {
            let t = number(t + "RepeatConditionArc(ConditionArcRef { condition: ConditionPlanId("@, arc.condition.0 as nat);
            let t = number(t + "), node: ConditionNodeId("@, arc.node.0 as nat);
            let t = polarity_text(t + "), polarity: "@, arc.polarity);
            t + " })"@
        },
    }
}

fn write_route_kind(out: &mut String, kind: ForwardRouteKind)
    ensures
        final(out)@ == route_kind_text(old(out)@, kind),
{
    match kind {
        ForwardRouteKind::ExclusiveBreak => {
            out.append("ExclusiveBreak");
        },
        ForwardRouteKind::ContinueToTarget => {
            out.append("ContinueToTarget");
        },
        ForwardRouteKind::ContinueLatch => {
            out.append("ContinueLatch");
        },
        ForwardRouteKind::RepeatConditionArc(arc) => {
            out.append("RepeatConditionArc(ConditionArcRef { condition: ConditionPlanId(");
            put_number(out, arc.condition.0);
            out.append("), node: ConditionNodeId(");
            put_number(out, arc.node.0);
            out.append("), polarity: ");
            write_polarity(out, arc.polarity);
            out.append(" })");
        },
    }
}

/// The first `n` routes.
pub open spec fn route_list_text(
    t: Seq<char>,
    list: Seq<ForwardRoutePlan>,
    indent: Seq<char>,
    plan: &StructurePlan,
    n: nat,
) -> Seq<char>
    decreases n,
{
    if n == 0 {
        t
    } else {
        let t = route_list_text(t, list, indent, plan, (n - 1) as nat);
        let x = &list[n - 1];
        let t = number(t + indent + "    fr"@, (n - 1) as nat);
        let t = number(t + " owner=r"@, x.loop_region.0 as nat);
        let t = route_kind_text(t + " kind="@, x.kind);
        let t = edge_set_text(t + " edges="@, chain(plan.forward_next@, Some(x.first), x.len as nat));
        t + "\n"@
    }
}

fn write_route_list(out: &mut String, list: &Vec<ForwardRoutePlan>, indent: &str, plan: &StructurePlan)
    requires
        list@ == plan.forward_routes@,
    ensures
        final(out)@ == route_list_text(old(out)@, list@, indent@, plan, list@.len()),
{
    let n = list.len();
    let ghost t = out@;
    let mut i: usize = 0;
    while i < n
        invariant
            list@ == plan.forward_routes@,
            n == list@.len(),
            i <= n,
            out@ == route_list_text(t, list@, indent@, plan, i as nat),
        decreases n - i,
    {
        let x = &list[i];
        out.append(indent);
        out.append("    fr");
        put_number(out, i);
        out.append(" owner=r");
        put_number(out, x.loop_region.0);
        out.append(" kind=");
        write_route_kind(out, x.kind);
        out.append(" edges=");
        write_edge_set(out, &plan.forward_route_edges(ForwardRouteId(i)));
        out.append("\n");
        i = i + 1;
    }
}

/// The routes.
pub open spec fn forward_routes_text(t: Seq<char>, indent: Seq<char>, plan: &StructurePlan) -> Seq<char> {
    if plan.forward_routes@.len() == 0 {
        none_text(t, indent)
    } else {
        route_list_text(t, plan.forward_routes@, indent, plan, plan.forward_routes@.len())
    }
}

pub fn write_forward_routes(out: &mut String, indent: &str, plan: &StructurePlan)
    ensures
        final(out)@ == forward_routes_text(old(out)@, indent@, plan),
{
    if plan.forward_routes.len() == 0 {
        write_none(out, indent);
    } else {
        write_route_list(out, &plan.forward_routes, indent, plan);
    }
}

pub open spec fn condition_value_text(t: Seq<char>, owner: Option<(ConditionPlanId, ConditionNodeId)>) -> Seq<char> {
    match owner {
        Some((c, n)) => {
            let t = number(t + " condition-value=c"@, c.0 as nat);
            number(t + "/n"@, n.0 as nat)
        },
        None => t,
    }
}

fn write_condition_value(out: &mut String, owner: Option<(ConditionPlanId, ConditionNodeId)>)
    ensures
        final(out)@ == condition_value_text(old(out)@, owner),
{
    match owner {
        Some((c, n)) => {
            out.append(" condition-value=c");
            put_number(out, c.0);
            out.append("/n");
            put_number(out, n.0);
        },
        None => {},
    }
}

pub open spec fn incoming_edge_text(t: Seq<char>, edge: Option<EdgeRef>) -> Seq<char> {
    match edge {
        Some(e) => edge_text(t, e),
        None => t + "entry"@,
    }
}

fn write_incoming_edge(out: &mut String, edge: Option<EdgeRef>)
    ensures
        final(out)@ == incoming_edge_text(old(out)@, edge),
{
    match edge {
        Some(e) => {
            write_edge(out, e);
        },
        None => {
            out.append("entry");
        },
    }
}

/// The first `n` values that flow into a phi.
pub open spec fn incoming_list_text(t: Seq<char>, list: Seq<PhiIncomingPlan>, indent: Seq<char>, n: nat) -> Seq<char>
    decreases n,
{
    if n == 0 {
        t
    } else {
        let t = incoming_list_text(t, list, indent, (n - 1) as nat);
        let x = list[n - 1];
        let t = incoming_edge_text(t + indent + "      "@, x.edge);
        let t = value_text(t + " value="@, x.value);
        let t = phi_disposition_text(t + " owner="@, x.disposition);
        t + "\n"@
    }
}

fn write_incoming_list(out: &mut String, list: &Vec<PhiIncomingPlan>, indent: &str)
    ensures
        final(out)@ == incoming_list_text(old(out)@, list@, indent@, list@.len()),
{
    let n = list.len();
    let ghost t = out@;
    let mut i: usize = 0;
    while i < n
        invariant
            n == list@.len(),
            i <= n,
            out@ == incoming_list_text(t, list@, indent@, i as nat),
        decreases n - i,
    {
        let x = list[i];
        out.append(indent);
        out.append("      ");
        write_incoming_edge(out, x.edge);
        out.append(" value=");
        write_value(out, x.value);
        out.append(" owner=");
        write_phi_disposition(out, x.disposition);
        out.append("\n");
        i = i + 1;
    }
}

/// The first `n` phis.
pub open spec fn phi_list_text(
    t: Seq<char>,
    list: Seq<PhiPlan>,
    indent: Seq<char>,
    plan: &StructurePlan,
    n: nat,
) -> Seq<char>
    decreases n,
{
    if n == 0 {
        t
    } else {
        let t = phi_list_text(t, list, indent, plan, (n - 1) as nat);
        let x = &list[n - 1];
        let t = number(t + indent + "    p"@, x.phi.0 as nat);
        let t = number(t + " block=#"@, x.block.0 as nat);
        let t = reg_text(t + " reg="@, x.reg);
        let t = condition_value_text(t, entry_at(plan.condition_value_by_phi@, x.phi.0));
        incoming_list_text(t + "\n"@, x.incomings@, indent, x.incomings@.len())
    }
}

fn write_phi_list(out: &mut String, list: &Vec<PhiPlan>, indent: &str, plan: &StructurePlan)
    ensures
        final(out)@ == phi_list_text(old(out)@, list@, indent@, plan, list@.len()),
{
    let n = list.len();
    let ghost t = out@;
    let mut i: usize = 0;
    while i < n
        invariant
            n == list@.len(),
            i <= n,
            out@ == phi_list_text(t, list@, indent@, plan, i as nat),
        decreases n - i,
    {
        let x = &list[i];
        out.append(indent);
        out.append("    p");
        put_number(out, x.phi.0);
        out.append(" block=#");
        put_number(out, x.block.0);
        out.append(" reg=");
        write_reg(out, x.reg);
        write_condition_value(out, plan.condition_value_owner(x.phi));
        out.append("\n");
        write_incoming_list(out, &x.incomings, indent);
        i = i + 1;
    }
}

/// The values, with their owners.
pub open spec fn values_text(t: Seq<char>, indent: Seq<char>, plan: &StructurePlan) -> Seq<char> {
    if plan.phis@.len() == 0 {
        none_text(t, indent)
    } else {
        phi_list_text(t, plan.phis@, indent, plan, plan.phis@.len())
    }
}

pub fn write_values(out: &mut String, indent: &str, plan: &StructurePlan)
    ensures
        final(out)@ == values_text(old(out)@, indent@, plan),
{
    if plan.phis.len() == 0 {
        write_none(out, indent);
    } else {
        write_phi_list(out, &plan.phis, indent, plan);
    }
}

pub open spec fn cleanup_line_text(t: Seq<char>, indent: Seq<char>, at: usize, d: Option<CleanupDisposition>) -> Seq<char> {
    match d {
        Some(d) => {
            let t = number(t + indent + "    @"@, at as nat);
            let t = cleanup_disposition_text(t + " owner="@, d);
            t + "\n"@
        },
        None => t,
    }
}

fn write_cleanup_line(out: &mut String, indent: &str, at: usize, d: Option<CleanupDisposition>)
    ensures
        final(out)@ == cleanup_line_text(old(out)@, indent@, at, d),
{
    match d {
        Some(d) => {
            out.append(indent);
            out.append("    @");
            put_number(out, at);
            out.append(" owner=");
            write_cleanup_disposition(out, d);
            out.append("\n");
        },
        None => {},
    }
}

/// The first `n` instructions, those that clean up only.
pub open spec fn cleanup_list_text(
    t: Seq<char>,
    list: Seq<Option<CleanupDisposition>>,
    indent: Seq<char>,
    n: nat,
) -> Seq<char>
    decreases n,
{
    if n == 0 {
        t
    } else {
        let t = cleanup_list_text(t, list, indent, (n - 1) as nat);
        let x = list[n - 1];
        cleanup_line_text(t, indent, (n - 1) as usize, x)
    }
}

fn write_cleanup_list(out: &mut String, list: &Vec<Option<CleanupDisposition>>, indent: &str)
    ensures
        final(out)@ == cleanup_list_text(old(out)@, list@, indent@, list@.len()),
{
    let n = list.len();
    let ghost t = out@;
    let mut i: usize = 0;
    while i < n
        invariant
            n == list@.len(),
            i <= n,
            out@ == cleanup_list_text(t, list@, indent@, i as nat),
        decreases n - i,
    {
        let x = list[i];
        write_cleanup_line(out, indent, i, x);
        i = i + 1;
    }
}

/// Nothing is cleaned up.
pub open spec fn no_cleanup(plan: &StructurePlan) -> bool {
    forall|i: int| 0 <= i < plan.cleanup_dispositions@.len() ==> (#[trigger] plan.cleanup_dispositions@[i]) is None
}

/// The cleanups.
pub open spec fn cleanups_text(t: Seq<char>, indent: Seq<char>, plan: &StructurePlan) -> Seq<char> {
    if no_cleanup(plan) {
        none_text(t, indent)
    } else {
        cleanup_list_text(t, plan.cleanup_dispositions@, indent, plan.cleanup_dispositions@.len())
    }
}

fn check_no_cleanup(plan: &StructurePlan) -> (r: bool)
    ensures
        r == no_cleanup(plan),
{
    let n = plan.cleanup_dispositions.len();
    let mut i: usize = 0;
    while i < n
        invariant
            n == plan.cleanup_dispositions@.len(),
            i <= n,
            forall|k: int| 0 <= k < i ==> (#[trigger] plan.cleanup_dispositions@[k]) is None,
        decreases n - i,
    {
        if plan.cleanup_dispositions[i].is_some() {
            assert(plan.cleanup_dispositions@[i as int] is Some);
            return false;
        }
        i = i + 1;
    }
    true
}

pub fn write_cleanups(out: &mut String, indent: &str, plan: &StructurePlan)
    ensures
        final(out)@ == cleanups_text(old(out)@, indent@, plan),
{
    if check_no_cleanup(plan) {
        write_none(out, indent);
    } else {
        write_cleanup_list(out, &plan.cleanup_dispositions, indent);
    }
}

/// The first `n` features, with commas between them.
pub open spec fn feature_list_text(t: Seq<char>, list: Seq<ControlFlowFeature>, n: nat) -> Seq<char>
    decreases n,
{
    if n == 0 {
        t
    } else {
        let t = feature_list_text(t, list, (n - 1) as nat);
        let t = if n > 1 {
            t + ", "@
        } else {
            t
        };
        let x = list[n - 1];
        control_feature_text(t, x)
    }
}

fn write_feature_list(out: &mut String, list: &Vec<ControlFlowFeature>)
    ensures
        final(out)@ == feature_list_text(old(out)@, list@, list@.len()),
{
    let n = list.len();
    let ghost t = out@;
    let mut i: usize = 0;
    while i < n
        invariant
            n == list@.len(),
            i <= n,
            out@ == feature_list_text(t, list@, i as nat),
        decreases n - i,
    {
        if i > 0 {
            out.append(", ");
        }
        let x = list[i];
        write_control_feature(out, x);
        i = i + 1;
    }
}

pub open spec fn requirement_text(t: Seq<char>, plan: &StructurePlan, r: PlanRequirement) -> Seq<char> {
    match r {
        PlanRequirement::Goto { edge, label, reason } => {
            let t = edge_text(t + "goto edge="@, edge);
            let t = number(t + " label=l"@, label.0 as nat);
            let t = known_block_text(t + " block="@, label_block(plan, label));
            goto_reason_text(t + " reason="@, reason)
        },
        PlanRequirement::Continue { edge, loop_region } => {
            let t = edge_text(t + "continue edge="@, edge);
            number(t + " loop=r"@, loop_region.0 as nat)
        },
        PlanRequirement::MultiEntryIsland { region, entry_count } => {
            let t = number(t + "multi-entry-island region=r"@, region.0 as nat);
            number(t + " entries="@, entry_count as nat)
        },
        PlanRequirement::UnresolvedValue { phi_id, block, reg } => {
            let t = number(t + "unresolved-value phi=p"@, phi_id.0 as nat);
            let t = number(t + " block=#"@, block.0 as nat);
            reg_text(t + " reg="@, reg)
        },
    }
}

fn write_requirement(out: &mut String, plan: &StructurePlan, r: PlanRequirement)
    ensures
        final(out)@ == requirement_text(old(out)@, plan, r),
{
    match r {
        PlanRequirement::Goto { edge, label, reason } => {
            out.append("goto edge=");
            write_edge(out, edge);
            out.append(" label=l");
            put_number(out, label.0);
            out.append(" block=");
            write_known_block(out, find_label_block(plan, label));
            out.append(" reason=");
            write_goto_reason(out, reason);
        },
        PlanRequirement::Continue { edge, loop_region } => {
            out.append("continue edge=");
            write_edge(out, edge);
            out.append(" loop=r");
            put_number(out, loop_region.0);
        },
        PlanRequirement::MultiEntryIsland { region, entry_count } => {
            out.append("multi-entry-island region=r");
            put_number(out, region.0);
            out.append(" entries=");
            put_number(out, entry_count);
        },
        PlanRequirement::UnresolvedValue { phi_id, block, reg } => {
            out.append("unresolved-value phi=p");
            put_number(out, phi_id.0);
            out.append(" block=#");
            put_number(out, block.0);
            out.append(" reg=");
            write_reg(out, reg);
        },
    }
}

/// The first `n` requirements.
pub open spec fn requirement_list_text(
    t: Seq<char>,
    list: Seq<PlanRequirement>,
    indent: Seq<char>,
    plan: &StructurePlan,
    n: nat,
) -> Seq<char>
    decreases n,
{
    if n == 0 {
        t
    } else {
        let t = requirement_list_text(t, list, indent, plan, (n - 1) as nat);
        let x = list[n - 1];
        let t = number(t + indent + "    q"@, (n - 1) as nat);
        let t = requirement_text(t + " "@, plan, x);
        t + "\n"@
    }
}

fn write_requirement_list(out: &mut String, list: &Vec<PlanRequirement>, indent: &str, plan: &StructurePlan)
    ensures
        final(out)@ == requirement_list_text(old(out)@, list@, indent@, plan, list@.len()),
{
    let n = list.len();
    let ghost t = out@;
    let mut i: usize = 0;
    while i < n
        invariant
            n == list@.len(),
            i <= n,
            out@ == requirement_list_text(t, list@, indent@, plan, i as nat),
        decreases n - i,
    {
        let x = list[i];
        out.append(indent);
        out.append("    q");
        put_number(out, i);
        out.append(" ");
        write_requirement(out, plan, x);
        out.append("\n");
        i = i + 1;
    }
}

/// What the plan asks of the language.
pub open spec fn requirements_text(t: Seq<char>, indent: Seq<char>, plan: &StructurePlan) -> Seq<char> {
    let required = plan.requirements.required_features.seq();
    let unavailable = plan.requirements.unavailable_features.seq();
    let t = feature_list_text(t + indent + "    features=["@, required, required.len());
    let t = feature_list_text(t + "] unavailable=["@, unavailable, unavailable.len()) + "]\n"@;
    if plan.requirements.entries@.len() == 0 {
        none_text(t, indent)
    } else {
        requirement_list_text(t, plan.requirements.entries@, indent, plan, plan.requirements.entries@.len())
    }
}

pub fn write_requirements(out: &mut String, indent: &str, plan: &StructurePlan)
    ensures
        final(out)@ == requirements_text(old(out)@, indent@, plan),
{
    let required = plan.requirements.required_features.to_vec();
    let unavailable = plan.requirements.unavailable_features.to_vec();
    out.append(indent);
    out.append("    features=[");
    write_feature_list(out, &required);
    out.append("] unavailable=[");
    write_feature_list(out, &unavailable);
    out.append("]\n");
    if plan.requirements.entries.len() == 0 {
        write_none(out, indent);
    } else {
        write_requirement_list(out, &plan.requirements.entries, indent, plan);
    }
}

} // verus!
