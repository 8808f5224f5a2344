//! The tree of regions as text.

use vstd::prelude::*;

use crate::forest::up;
use crate::ids::{BlockRef, EdgeRef};
use crate::owners::{depth_is_bounded, parents, tree_fault};
use crate::plan::{
    BlockEmissionPlan, BranchPlanData, BranchPlanId, LoopExitTailPlan, LoopNormalTailPlan, LoopPlanData, LoopPlanId,
    RegionId, RegionPlan, UnstructuredLayoutItem, ValueDecisionPlanId,
};
use crate::plan_text::{loop_kind_text, write_loop_kind};
use crate::structure_plan::StructurePlan;
use crate::text::{
    edge_set_text, edge_text, flag_text, instr_list_text, number, optional_block_text, optional_region_text, phi_text,
    put_number, range_text, write_edge, write_edge_set, write_flag, write_instr_list, write_optional_block,
    write_optional_region, write_phi, write_range,
};
use crate::tree::up_compose;

verus! {

/// The start of the line of a region.
pub open spec fn region_name_text(t: Seq<char>, indent: Seq<char>, role: Seq<char>, id: RegionId) -> Seq<char> {
    number(t + indent + role + ": r"@, id.0 as nat)
}

fn write_region_name(out: &mut String, indent: &str, role: &str, id: RegionId)
    ensures
        final(out)@ == region_name_text(old(out)@, indent@, role@, id),
{
    out.append(indent);
    out.append(role);
    out.append(": r");
    put_number(out, id.0);
}

pub open spec fn emission_text(t: Seq<char>, e: Option<BlockEmissionPlan>) -> Seq<char> {
    match e {
        Some(BlockEmissionPlan::ForwardedControl { outgoing }) => edge_text(t + " forwarded="@, outgoing),
        _ => t,
    }
}

fn write_emission(out: &mut String, e: Option<BlockEmissionPlan>)
    ensures
        final(out)@ == emission_text(old(out)@, e),
{
    match e {
        Some(BlockEmissionPlan::ForwardedControl { outgoing }) => {
            out.append(" forwarded=");
            write_edge(out, outgoing);
        },
        _ => {},
    }
}

/// What the plan says of a branch.
pub open spec fn branch_payload_text(t: Seq<char>, p: &BranchPlanData) -> Seq<char> {
    let t = number(t + " condition=c"@, p.condition.0 as nat);
    let t = flag_text(t + " inverted="@, p.condition_inverted);
    let t = edge_text(t + " then="@, p.then_edge);
    let t = edge_text(t + " else="@, p.else_edge);
    t + "\n"@
}

fn write_branch_payload(out: &mut String, p: &BranchPlanData)
    ensures
        final(out)@ == branch_payload_text(old(out)@, p),
{
    out.append(" condition=c");
    put_number(out, p.condition.0);
    out.append(" inverted=");
    write_flag(out, p.condition_inverted);
    out.append(" then=");
    write_edge(out, p.then_edge);
    out.append(" else=");
    write_edge(out, p.else_edge);
    out.append("\n");
}

pub open spec fn branch_line_text(
    t: Seq<char>,
    plan: &StructurePlan,
    branch: BranchPlanId,
    entry: BlockRef,
    continuation: Option<BlockRef>,
) -> Seq<char> {
    let t = number(t + " branch b"@, branch.0 as nat);
    let t = number(t + " entry=#"@, entry.0 as nat);
    let t = optional_block_text(t + " continuation="@, continuation);
    if branch.0 < plan.branches@.len() {
        branch_payload_text(t, &plan.branches@[branch.0 as int])
    } else {
        t + " condition=? inverted=false then=? else=?\n"@
    }
}

fn write_branch_line(
    out: &mut String,
    plan: &StructurePlan,
    branch: BranchPlanId,
    entry: BlockRef,
    continuation: Option<BlockRef>,
)
    ensures
        final(out)@ == branch_line_text(old(out)@, plan, branch, entry, continuation),
{
    out.append(" branch b");
    put_number(out, branch.0);
    out.append(" entry=#");
    put_number(out, entry.0);
    out.append(" continuation=");
    write_optional_block(out, continuation);
    if branch.0 < plan.branches.len() {
        write_branch_payload(out, &plan.branches[branch.0]);
    } else {
        out.append(" condition=? inverted=false then=? else=?\n");
    }
}

pub open spec fn decision_line_text(
    t: Seq<char>,
    plan: &StructurePlan,
    decision: ValueDecisionPlanId,
    entry: BlockRef,
    continuation: BlockRef,
) -> Seq<char> {
    let t = number(t + " value-decision v"@, decision.0 as nat);
    let t = number(t + " entry=#"@, entry.0 as nat);
    let t = number(t + " continuation=#"@, continuation.0 as nat);
    if decision.0 < plan.value_decisions@.len() {
        phi_text(t + " result="@, plan.value_decisions@[decision.0 as int].result_phi) + "\n"@
    } else {
        t + " result="@ + "?"@ + "\n"@
    }
}

fn write_decision_line(
    out: &mut String,
    plan: &StructurePlan,
    decision: ValueDecisionPlanId,
    entry: BlockRef,
    continuation: BlockRef,
)
    ensures
        final(out)@ == decision_line_text(old(out)@, plan, decision, entry, continuation),
{
    out.append(" value-decision v");
    put_number(out, decision.0);
    out.append(" entry=#");
    put_number(out, entry.0);
    out.append(" continuation=#");
    put_number(out, continuation.0);
    out.append(" result=");
    if decision.0 < plan.value_decisions.len() {
        write_phi(out, plan.value_decisions[decision.0].result_phi);
    } else {
        out.append("?");
    }
    out.append("\n");
}

/// The first `n` edges by their type.
pub open spec fn edge_ref_list_text(t: Seq<char>, list: Seq<EdgeRef>, n: nat) -> Seq<char>
    decreases n,
{
    if n == 0 {
        t
    } else {
        let t = edge_ref_list_text(t, list, (n - 1) as nat);
        let t = if n > 1 {
            t + ", "@
        } else {
            t
        };
        let x = list[n - 1];
        let t = number(t + "EdgeRef("@, x.0 as nat);
        t + ")"@
    }
}

fn write_edge_ref_list(out: &mut String, list: &Vec<EdgeRef>)
    ensures
        final(out)@ == edge_ref_list_text(old(out)@, list@, list@.len()),
{
    let n = list.len();
    let ghost t = out@;
    let mut i: usize = 0;
    while i < n
        invariant
            n == list@.len(),
            i <= n,
            out@ == edge_ref_list_text(t, list@, i as nat),
        decreases n - i,
    {
        if i > 0 {
            out.append(", ");
        }
        let x = list[i];
        out.append("EdgeRef(");
        put_number(out, x.0);
        out.append(")");
        i = i + 1;
    }
}

pub open spec fn tail_text(t: Seq<char>, tail: &LoopNormalTailPlan) -> Seq<char> {
    let t = number(t + "LoopNormalTailPlan { entry: BlockRef("@, tail.entry.0 as nat);
    let t = number(t + "), continuation: BlockRef("@, tail.continuation.0 as nat);
    let t = edge_ref_list_text(t + "), early_exits: ["@, tail.early_exits@, tail.early_exits@.len());
    let t = edge_ref_list_text(t + "], normal_exits: ["@, tail.normal_exits@, tail.normal_exits@.len());
    let t = edge_ref_list_text(t + "], completion_exits: ["@, tail.completion_exits@, tail.completion_exits@.len());
    t + "] }"@
}

fn write_tail(out: &mut String, tail: &LoopNormalTailPlan)
    ensures
        final(out)@ == tail_text(old(out)@, tail),
{
    out.append("LoopNormalTailPlan { entry: BlockRef(");
    put_number(out, tail.entry.0);
    out.append("), continuation: BlockRef(");
    put_number(out, tail.continuation.0);
    out.append("), early_exits: [");
    write_edge_ref_list(out, &tail.early_exits);
    out.append("], normal_exits: [");
    write_edge_ref_list(out, &tail.normal_exits);
    out.append("], completion_exits: [");
    write_edge_ref_list(out, &tail.completion_exits);
    out.append("] }");
}

pub open spec fn normal_tail_text(t: Seq<char>, tail: Option<LoopNormalTailPlan>) -> Seq<char> {
    match tail {
        Some(x) => tail_text(t + "Some("@, &x) + ")"@,
        None => t + "None"@,
    }
}

fn write_normal_tail(out: &mut String, tail: &Option<LoopNormalTailPlan>)
    ensures
        final(out)@ == normal_tail_text(old(out)@, *tail),
{
    match tail {
        Some(x) => {
            out.append("Some(");
            write_tail(out, x);
            out.append(")");
        },
        None => {
            out.append("None");
        },
    }
}

/// What the plan says of a loop.
pub open spec fn loop_payload_text(t: Seq<char>, indent: Seq<char>, entry: BlockRef, l: &LoopPlanData) -> Seq<char> {
    let t = loop_kind_text(t + " kind="@, l.kind);
    let t = number(t + " entry=#"@, entry.0 as nat);
    let t = optional_block_text(t + " continuation="@, l.continuation);
    let t = normal_tail_text(t + "\n"@ + indent + "  normal-tail="@, l.normal_tail);
    let t = optional_region_text(t + "\n"@ + indent + "  propagated-break="@, l.propagated_break);
    t + "\n"@
}

fn write_loop_payload(out: &mut String, indent: &str, entry: BlockRef, l: &LoopPlanData)
    ensures
        final(out)@ == loop_payload_text(old(out)@, indent@, entry, l),
{
    out.append(" kind=");
    write_loop_kind(out, l.kind);
    out.append(" entry=#");
    put_number(out, entry.0);
    out.append(" continuation=");
    write_optional_block(out, l.continuation);
    out.append("\n");
    out.append(indent);
    out.append("  normal-tail=");
    write_normal_tail(out, &l.normal_tail);
    out.append("\n");
    out.append(indent);
    out.append("  propagated-break=");
    write_optional_region(out, l.propagated_break);
    out.append("\n");
}

/// The part of a loop that only its normal exit runs.
pub open spec fn exit_tail_line_text(t: Seq<char>, indent: Seq<char>, x: &LoopExitTailPlan) -> Seq<char> {
    let t = edge_text(t + indent + "  exit-tail: normal="@, x.normal_exit);
    let t = number(t + " block=#"@, x.block.0 as nat);
    let t = range_text(t + " instrs="@, x.range);
    let t = number(t + " continuation=#"@, x.continuation.0 as nat);
    let t = edge_set_text(t + " early=["@, x.early_exits@);
    let t = number(t + "] cleanup-block=#"@, x.cleanup_block.0 as nat);
    let t = edge_set_text(t + " cleanup-route=["@, x.cleanup_route@);
    let t = instr_list_text(t + "] cleanup=["@, x.cleanup@, x.cleanup@.len());
    t + "]\n"@
}

fn write_exit_tail_line(out: &mut String, indent: &str, x: &LoopExitTailPlan)
    ensures
        final(out)@ == exit_tail_line_text(old(out)@, indent@, x),
{
    out.append(indent);
    out.append("  exit-tail: normal=");
    write_edge(out, x.normal_exit);
    out.append(" block=#");
    put_number(out, x.block.0);
    out.append(" instrs=");
    write_range(out, x.range);
    out.append(" continuation=#");
    put_number(out, x.continuation.0);
    out.append(" early=[");
    write_edge_set(out, &x.early_exits);
    out.append("] cleanup-block=#");
    put_number(out, x.cleanup_block.0);
    out.append(" cleanup-route=[");
    write_edge_set(out, &x.cleanup_route);
    out.append("] cleanup=[");
    write_instr_list(out, &x.cleanup);
    out.append("]\n");
}

pub open spec fn loop_line_text(
    t: Seq<char>,
    plan: &StructurePlan,
    indent: Seq<char>,
    id: LoopPlanId,
    entry: BlockRef,
) -> Seq<char> {
    let t = number(t + " loop l"@, id.0 as nat);
    if id.0 < plan.loops@.len() {
        loop_payload_text(t, indent, entry, &plan.loops@[id.0 as int])
    } else {
        number(t + " kind=<missing> entry=#"@, entry.0 as nat) + " continuation=-\n"@
    }
}

fn write_loop_line(out: &mut String, plan: &StructurePlan, indent: &str, id: LoopPlanId, entry: BlockRef)
    ensures
        final(out)@ == loop_line_text(old(out)@, plan, indent@, id, entry),
{
    out.append(" loop l");
    put_number(out, id.0);
    if id.0 < plan.loops.len() {
        write_loop_payload(out, indent, entry, &plan.loops[id.0]);
    } else {
        out.append(" kind=<missing> entry=#");
        put_number(out, entry.0);
        out.append(" continuation=-\n");
    }
}

pub open spec fn loop_end_text(t: Seq<char>, plan: &StructurePlan, indent: Seq<char>, id: LoopPlanId) -> Seq<char> {
    if id.0 < plan.loops@.len() {
        match plan.loops@[id.0 as int].exit_tail {
            Some(x) => exit_tail_line_text(t, indent, &x),
            None => t,
        }
    } else {
        t
    }
}

fn write_loop_end(out: &mut String, plan: &StructurePlan, indent: &str, id: LoopPlanId)
    ensures
        final(out)@ == loop_end_text(old(out)@, plan, indent@, id),
{
    if id.0 < plan.loops.len() {
        if let Some(x) = &plan.loops[id.0].exit_tail {
            write_exit_tail_line(out, indent, x);
        }
    }
}

pub open spec fn layout_item_text(t: Seq<char>, x: UnstructuredLayoutItem) -> Seq<char> {
    match x {
        UnstructuredLayoutItem::Block(b) => number(t + "#"@, b.0 as nat),
        UnstructuredLayoutItem::Region(r) => number(t + "r"@, r.0 as nat),
    }
}

fn write_layout_item(out: &mut String, x: UnstructuredLayoutItem)
    ensures
        final(out)@ == layout_item_text(old(out)@, x),
{
    match x {
        UnstructuredLayoutItem::Block(b) => {
            out.append("#");
            put_number(out, b.0);
        },
        UnstructuredLayoutItem::Region(r) => {
            out.append("r");
            put_number(out, r.0);
        },
    }
}

/// The first `n` parts of an island, with commas between them.
pub open spec fn layout_text(t: Seq<char>, list: Seq<UnstructuredLayoutItem>, n: nat) -> Seq<char>
    decreases n,
{
    if n == 0 {
        t
    } else {
        let t = layout_text(t, list, (n - 1) as nat);
        let t = if n > 1 {
            t + ", "@
        } else {
            t
        };
        let x = list[n - 1];
        layout_item_text(t, x)
    }
}

fn write_layout(out: &mut String, list: &Vec<UnstructuredLayoutItem>)
    ensures
        final(out)@ == layout_text(old(out)@, list@, list@.len()),
{
    let n = list.len();
    let ghost t = out@;
    let mut i: usize = 0;
    while i < n
        invariant
            n == list@.len(),
            i <= n,
            out@ == layout_text(t, list@, i as nat),
        decreases n - i,
    {
        if i > 0 {
            out.append(", ");
        }
        let x = list[i];
        write_layout_item(out, x);
        i = i + 1;
    }
}

pub open spec fn island_line_text(
    t: Seq<char>,
    entry: BlockRef,
    entries: Seq<EdgeRef>,
    layout: Seq<UnstructuredLayoutItem>,
    exits: Seq<EdgeRef>,
) -> Seq<char> {
    let t = number(t + " island entry=#"@, entry.0 as nat);
    let t = edge_set_text(t + " entry-ports="@, entries);
    let t = edge_set_text(t + " exit-ports="@, exits);
    let t = layout_text(t + " layout=["@, layout, layout.len());
    t + "]\n"@
}

fn write_island_line(
    out: &mut String,
    entry: BlockRef,
    entries: &Vec<EdgeRef>,
    layout: &Vec<UnstructuredLayoutItem>,
    exits: &Vec<EdgeRef>,
)
    ensures
        final(out)@ == island_line_text(old(out)@, entry, entries@, layout@, exits@),
{
    out.append(" island entry=#");
    put_number(out, entry.0);
    out.append(" entry-ports=");
    write_edge_set(out, entries);
    out.append(" exit-ports=");
    write_edge_set(out, exits);
    out.append(" layout=[");
    write_layout(out, layout);
    out.append("]\n");
}

/// The regions among the first `n` parts of an island.
pub open spec fn inner_regions(layout: Seq<UnstructuredLayoutItem>, n: nat) -> Seq<RegionId>
    decreases n,
{
    if n == 0 {
        Seq::empty()
    } else {
        let rest = inner_regions(layout, (n - 1) as nat);
        match layout[n - 1] {
            UnstructuredLayoutItem::Region(r) => rest.push(r),
            UnstructuredLayoutItem::Block(_) => rest,
        }
    }
}

fn collect_inner(layout: &Vec<UnstructuredLayoutItem>) -> (r: Vec<RegionId>)
    ensures
        r@ == inner_regions(layout@, layout@.len()),
{
    let n = layout.len();
    let mut r: Vec<RegionId> = Vec::new();
    let mut i: usize = 0;
    while i < n
        invariant
            n == layout@.len(),
            i <= n,
            r@ == inner_regions(layout@, i as nat),
        decreases n - i,
    {
        if let UnstructuredLayoutItem::Region(x) = layout[i] {
            r.push(x);
        }
        i = i + 1;
    }
    r
}

/// The emission of a block.
pub open spec fn emission_of(plan: &StructurePlan, block: BlockRef) -> Option<BlockEmissionPlan> {
    if block.0 < plan.block_emissions@.len() {
        Some(plan.block_emissions@[block.0 as int])
    } else {
        None
    }
}

/// A region that may be missing from its parent.
pub open spec fn optional_child_text(
    t: Seq<char>,
    plan: &StructurePlan,
    child: Option<RegionId>,
    indent: Seq<char>,
    role: Seq<char>,
    fuel: nat,
) -> Seq<char>
    decreases fuel, 1nat,
{
    match child {
        Some(r) => region_text(t, plan, r, indent, role, fuel),
        None => t,
    }
}

/// The first `n` regions of a list, each with what lies in it.
pub open spec fn regions_text(
    t: Seq<char>,
    plan: &StructurePlan,
    list: Seq<RegionId>,
    n: nat,
    indent: Seq<char>,
    role: Seq<char>,
    fuel: nat,
) -> Seq<char>
    decreases fuel, n,
{
    if n == 0 {
        t
    } else {
        region_text(regions_text(t, plan, list, (n - 1) as nat, indent, role, fuel), plan, list[n - 1], indent, role, fuel)
    }
}

/// A region, with what lies in it down to `fuel` levels.
pub open spec fn region_text(
    t: Seq<char>,
    plan: &StructurePlan,
    id: RegionId,
    indent: Seq<char>,
    role: Seq<char>,
    fuel: nat,
) -> Seq<char>
    decreases fuel, 0nat,
{
    let inner = indent + "  "@;
    let down = (fuel - 1) as nat;
    if fuel == 0 {
        t
    } else if id.0 >= plan.regions@.len() {
        region_name_text(t, indent, role, id) + " <missing>\n"@
    } else {
        let t = region_name_text(t, indent, role, id);
        match plan.regions@[id.0 as int] {
            RegionPlan::Block { parent, block } => emission_text(number(t + " block #"@, block.0 as nat), emission_of(plan, block)) + "\n"@,
            RegionPlan::Sequence { parent, children } => {
                let t = number(t + " sequence children="@, children@.len()) + "\n"@;
                regions_text(t, plan, children@, children@.len(), inner, "item"@, down)
            },
            RegionPlan::Branch { parent, plan: branch, entry, condition, then_arm, else_arm, continuation } => {
                let t = branch_line_text(t, plan, branch, entry, continuation);
                let t = region_text(t, plan, condition, inner, "condition"@, down);
                let t = region_text(t, plan, then_arm, inner, "then"@, down);
                optional_child_text(t, plan, else_arm, inner, "else"@, down)
            },
            RegionPlan::ValueDecision { parent, plan: decision, entry, continuation } => decision_line_text(
                t,
                plan,
                decision,
                entry,
                continuation,
            ),
            RegionPlan::Loop { parent, plan: id, entry, preheader, control, body, normal_tail } => {
                let t = loop_line_text(t, plan, indent, id, entry);
                let t = optional_child_text(t, plan, preheader, inner, "preheader"@, down);
                let t = region_text(t, plan, control, inner, "control"@, down);
                let t = region_text(t, plan, body, inner, "body"@, down);
                let t = optional_child_text(t, plan, normal_tail, inner, "normal-tail"@, down);
                loop_end_text(t, plan, indent, id)
            },
            RegionPlan::Unstructured { parent, entry, entries, layout, exits } => {
                let t = island_line_text(t, entry, entries@, layout@, exits@);
                let list = inner_regions(layout@, layout@.len());
                regions_text(t, plan, list, list.len(), inner, "structured-item"@, down)
            },
        }
    }
}

fn write_optional_child(
    out: &mut String,
    plan: &StructurePlan,
    child: Option<RegionId>,
    indent: &str,
    role: &str,
    fuel: usize,
)
    ensures
        final(out)@ == optional_child_text(old(out)@, plan, child, indent@, role@, fuel as nat),
    decreases fuel, 1nat,
{
    if let Some(r) = child {
        write_region(out, plan, r, indent, role, fuel);
    }
}

fn write_regions(
    out: &mut String,
    plan: &StructurePlan,
    list: &Vec<RegionId>,
    n: usize,
    indent: &str,
    role: &str,
    fuel: usize,
)
    requires
        n <= list@.len(),
    ensures
        final(out)@ == regions_text(old(out)@, plan, list@, n as nat, indent@, role@, fuel as nat),
    decreases fuel, n,
{
    if n > 0 {
        write_regions(out, plan, list, n - 1, indent, role, fuel);
        write_region(out, plan, list[n - 1], indent, role, fuel);
    }
}

/// Writes a region with what lies in it, down to `fuel` levels.
pub fn write_region(out: &mut String, plan: &StructurePlan, id: RegionId, indent: &str, role: &str, fuel: usize)
    ensures
        final(out)@ == region_text(old(out)@, plan, id, indent@, role@, fuel as nat),
    decreases fuel, 0nat,
{
    if fuel == 0 {
        return;
    }
    let mut deeper = String::new();
    deeper.append(indent);
    deeper.append("  ");
    let inner = deeper.as_str();
    assert(inner@ =~= indent@ + "  "@);
    let down = fuel - 1;
    write_region_name(out, indent, role, id);
    if id.0 >= plan.regions.len() {
        out.append(" <missing>\n");
        return;
    }
    match &plan.regions[id.0] {
        RegionPlan::Block { parent: _, block } => {
            out.append(" block #");
            put_number(out, block.0);
            write_emission(out, plan.block_emission(*block));
            out.append("\n");
        },
        RegionPlan::Sequence { parent: _, children } => {
            out.append(" sequence children=");
            put_number(out, children.len());
            out.append("\n");
            write_regions(out, plan, children, children.len(), inner, "item", down);
        },
        RegionPlan::Branch { parent: _, plan: branch, entry, condition, then_arm, else_arm, continuation } => {
            write_branch_line(out, plan, *branch, *entry, *continuation);
            write_region(out, plan, *condition, inner, "condition", down);
            write_region(out, plan, *then_arm, inner, "then", down);
            write_optional_child(out, plan, *else_arm, inner, "else", down);
        },
        RegionPlan::ValueDecision { parent: _, plan: decision, entry, continuation } => {
            write_decision_line(out, plan, *decision, *entry, *continuation);
        },
        RegionPlan::Loop { parent: _, plan: l, entry, preheader, control, body, normal_tail } => {
            write_loop_line(out, plan, indent, *l, *entry);
            write_optional_child(out, plan, *preheader, inner, "preheader", down);
            write_region(out, plan, *control, inner, "control", down);
            write_region(out, plan, *body, inner, "body", down);
            write_optional_child(out, plan, *normal_tail, inner, "normal-tail", down);
            write_loop_end(out, plan, indent, *l);
        },
        RegionPlan::Unstructured { parent: _, entry, entries, layout, exits } => {
            write_island_line(out, *entry, entries, layout, exits);
            let list = collect_inner(layout);
            write_regions(out, plan, &list, list.len(), inner, "structured-item", down);
        },
    }
}

/// The regions that lie directly in a region.
pub open spec fn children_of(region: RegionPlan) -> Seq<RegionId> {
    match region {
        RegionPlan::Block { .. } | RegionPlan::ValueDecision { .. } => Seq::empty(),
        RegionPlan::Sequence { parent, children } => children@,
        RegionPlan::Branch { parent, plan, entry, condition, then_arm, else_arm, continuation } => seq![condition, then_arm] + listed(
            else_arm,
        ),
        RegionPlan::Loop { parent, plan, entry, preheader, control, body, normal_tail } => listed(preheader) + seq![control, body]
            + listed(normal_tail),
        RegionPlan::Unstructured { parent, entry, entries, layout, exits } => inner_regions(layout@, layout@.len()),
    }
}

pub open spec fn listed(r: Option<RegionId>) -> Seq<RegionId> {
    match r {
        Some(r) => seq![r],
        None => Seq::empty(),
    }
}

/// Every way down from the region has fewer than `levels` steps.
pub open spec fn is_shallow(plan: &StructurePlan, id: RegionId, levels: nat) -> bool
    decreases levels,
{
    levels > 0 && (id.0 < plan.regions@.len() ==> forall|k: int|
        0 <= k < children_of(plan.regions@[id.0 as int]).len() ==> is_shallow(
            plan,
            #[trigger] children_of(plan.regions@[id.0 as int])[k],
            (levels - 1) as nat,
        ))
}

/// The text of a region does not depend on the number of levels that are allowed, once
/// there are enough of them.
pub proof fn enough_levels(
    t: Seq<char>,
    plan: &StructurePlan,
    id: RegionId,
    indent: Seq<char>,
    role: Seq<char>,
    levels: nat,
    more: nat,
)
    requires
        is_shallow(plan, id, levels),
        levels <= more,
    ensures
        region_text(t, plan, id, indent, role, levels) == region_text(t, plan, id, indent, role, more),
    decreases levels, 0nat,
{
    if id.0 < plan.regions@.len() {
        let inner = indent + "  "@;
        let a = (levels - 1) as nat;
        let b = (more - 1) as nat;
        let region = plan.regions@[id.0 as int];
        let list = children_of(region);
        let t0 = region_name_text(t, indent, role, id);
        assert forall|k: int| 0 <= k < list.len() implies is_shallow(plan, #[trigger] list[k], a) by {}
        match region {
            RegionPlan::Sequence { parent, children } => {
                let t1 = number(t0 + " sequence children="@, children@.len()) + "\n"@;
                enough_levels_each(t1, plan, children@, children@.len(), inner, "item"@, a, b);
            },
            RegionPlan::Branch { parent, plan: branch, entry, condition, then_arm, else_arm, continuation } => {
                assert(list[0] == condition && list[1] == then_arm);
                let t1 = branch_line_text(t0, plan, branch, entry, continuation);
                enough_levels(t1, plan, condition, inner, "condition"@, a, b);
                let t2 = region_text(t1, plan, condition, inner, "condition"@, a);
                enough_levels(t2, plan, then_arm, inner, "then"@, a, b);
                let t3 = region_text(t2, plan, then_arm, inner, "then"@, a);
                if let Some(r) = else_arm {
                    assert(list[2] == r);
                    enough_levels(t3, plan, r, inner, "else"@, a, b);
                }
                assert(optional_child_text(t3, plan, else_arm, inner, "else"@, a) == optional_child_text(t3, plan, else_arm, inner, "else"@, b));
            },
            RegionPlan::Loop { parent, plan: l, entry, preheader, control, body, normal_tail } => {
                let skip = listed(preheader).len() as int;
                let t1 = loop_line_text(t0, plan, indent, l, entry);
                if let Some(r) = preheader {
                    assert(list[0] == r);
                    enough_levels(t1, plan, r, inner, "preheader"@, a, b);
                }
                assert(optional_child_text(t1, plan, preheader, inner, "preheader"@, a) == optional_child_text(
                    t1,
                    plan,
                    preheader,
                    inner,
                    "preheader"@,
                    b,
                ));
                let t2 = optional_child_text(t1, plan, preheader, inner, "preheader"@, a);
                assert(list[skip] == control && list[skip + 1] == body);
                enough_levels(t2, plan, control, inner, "control"@, a, b);
                let t3 = region_text(t2, plan, control, inner, "control"@, a);
                enough_levels(t3, plan, body, inner, "body"@, a, b);
                let t4 = region_text(t3, plan, body, inner, "body"@, a);
                if let Some(r) = normal_tail {
                    assert(list[skip + 2] == r);
                    enough_levels(t4, plan, r, inner, "normal-tail"@, a, b);
                }
                assert(optional_child_text(t4, plan, normal_tail, inner, "normal-tail"@, a) == optional_child_text(
                    t4,
                    plan,
                    normal_tail,
                    inner,
                    "normal-tail"@,
                    b,
                ));
            },
            RegionPlan::Unstructured { parent, entry, entries, layout, exits } => {
                let t1 = island_line_text(t0, entry, entries@, layout@, exits@);
                enough_levels_each(t1, plan, list, list.len(), inner, "structured-item"@, a, b);
            },
            _ => {},
        }
    }
}

proof fn enough_levels_each(
    t: Seq<char>,
    plan: &StructurePlan,
    list: Seq<RegionId>,
    n: nat,
    indent: Seq<char>,
    role: Seq<char>,
    levels: nat,
    more: nat,
)
    requires
        n <= list.len(),
        forall|k: int| 0 <= k < list.len() ==> is_shallow(plan, #[trigger] list[k], levels),
        levels <= more,
    ensures
        regions_text(t, plan, list, n, indent, role, levels) == regions_text(t, plan, list, n, indent, role, more),
    decreases levels, n,
{
    if n > 0 {
        enough_levels_each(t, plan, list, (n - 1) as nat, indent, role, levels, more);
        let before = regions_text(t, plan, list, (n - 1) as nat, indent, role, levels);
        assert(is_shallow(plan, list[n - 1], levels));
        enough_levels(before, plan, list[n - 1], indent, role, levels, more);
    }
}

/// Every region that another holds names it as its parent.
pub open spec fn children_match(plan: &StructurePlan) -> bool {
    forall|r: int, k: int|
        0 <= r < plan.regions@.len() && 0 <= k < children_of(plan.regions@[r]).len() && (#[trigger] children_of(
            plan.regions@[r],
        )[k]).0 < plan.regions@.len() ==> plan.regions@[children_of(plan.regions@[r])[k].0 as int].parent_of() == Some(
            RegionId(r as usize),
        )
}

/// A region that lies `depth` steps below the root.
proof fn shallow_below(plan: &StructurePlan, r: RegionId, depth: nat, levels: nat)
    requires
        tree_fault(plan) is None,
        children_match(plan),
        plan.regions@.len() <= usize::MAX,
        r.0 < plan.regions@.len(),
        up(parents(plan), r.0, depth) == Some(plan.root.0),
        depth + levels >= plan.regions@.len() + 1,
    ensures
        is_shallow(plan, r, levels),
    decreases levels,
{
    let parent = parents(plan);
    let list = children_of(plan.regions@[r.0 as int]);
    depth_is_bounded(plan, r.0, depth);
    assert forall|k: int| 0 <= k < list.len() implies is_shallow(plan, #[trigger] list[k], (levels - 1) as nat) by {
        let c = list[k];
        if c.0 < plan.regions@.len() {
            assert(plan.regions@[c.0 as int].parent_of() == Some(RegionId(r.0)));
            assert(parent[c.0 as int] == Some(r.0));
            assert(up(parent, c.0, 1) == Some(r.0)) by {
                reveal_with_fuel(up, 2);
            }
            up_compose(parent, c.0, 1, depth);
            shallow_below(plan, c, depth + 1, (levels - 1) as nat);
        }
    }
}

/// Where the regions form a tree, one level more than there are regions is enough to write
/// all of them.
pub proof fn trees_are_shallow(plan: &StructurePlan)
    requires
        tree_fault(plan) is None,
        children_match(plan),
    ensures
        is_shallow(plan, plan.root, plan.regions@.len() + 1),
{
    assert(plan.regions.len() <= usize::MAX);
    assert(up(parents(plan), plan.root.0, 0) == Some(plan.root.0));
    shallow_below(plan, plan.root, 0, plan.regions@.len() + 1);
}

} // verus!
