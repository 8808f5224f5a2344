//! Plans as text, prototype by prototype.

use vstd::prelude::*;

use crate::plan::RegionPlan;
use crate::plan_text::{
    block_terminators_text, cleanups_text, conditions_text, debug_bindings_text, edges_text, forward_routes_text,
    labels_text, requirements_text, value_decisions_text, values_text, write_block_terminators, write_cleanups,
    write_conditions, write_debug_bindings, write_edges, write_forward_routes, write_labels, write_requirements,
    write_value_decisions, write_values,
};
use crate::region_text::{region_text, write_region};
use crate::structure_plan::{DebugBindingFacts, StructureFacts, StructurePlan};
use crate::text::{number, put_number};

verus! {

/// A prototype among those that are shown.
#[derive(Debug, Clone, Copy)]
pub struct ProtoEntry<'a> {
    pub id: usize,
    pub parent: Option<usize>,
    pub depth: usize,
    pub facts: &'a StructureFacts,
}

/// A prototype and everything nested in it, outermost first, numbered from `base` on.
pub open spec fn entries_of<'a>(
    facts: &'a StructureFacts,
    parent: Option<usize>,
    depth: nat,
    base: nat,
) -> Seq<ProtoEntry<'a>>
    decreases facts, facts.children@.len() + 1,
{
    seq![ProtoEntry { id: base as usize, parent, depth: depth as usize, facts }] + nested_entries(facts, facts.children@.len(), depth, base)
}

/// The entries of the first `n` prototypes nested in the one with number `base`.
pub open spec fn nested_entries<'a>(facts: &'a StructureFacts, n: nat, depth: nat, base: nat) -> Seq<ProtoEntry<'a>>
    decreases facts, n,
    when n <= facts.children@.len()
{
    if n == 0 {
        Seq::empty()
    } else {
        let rest = nested_entries(facts, (n - 1) as nat, depth, base);
        rest + entries_of(&facts.children@[n - 1], Some(base as usize), depth + 1, base + 1 + rest.len())
    }
}

fn add_entries<'a>(facts: &'a StructureFacts, parent: Option<usize>, depth: usize, out: &mut Vec<ProtoEntry<'a>>)
    requires
        depth <= old(out)@.len(),
    ensures
        final(out)@ == old(out)@ + entries_of(facts, parent, depth as nat, old(out)@.len()),
    decreases facts,
{
    let id = out.len();
    let ghost start = out@;
    out.push(ProtoEntry { id, parent, depth, facts });
    let n = facts.children.len();
    assert(out.len() <= usize::MAX);
    let ghost own = seq![ProtoEntry { id, parent, depth, facts }];
    let mut i: usize = 0;
    assert(out@ =~= start + own + nested_entries(facts, 0, depth as nat, id as nat));
    while i < n
        invariant
            n == facts.children@.len(),
            i <= n,
            start == old(out)@,
            id == start.len(),
            depth <= id,
            id < usize::MAX,
            own == seq![ProtoEntry { id, parent, depth, facts }],
            out@ == start + own + nested_entries(facts, i as nat, depth as nat, id as nat),
        decreases n - i,
    {
        let ghost before = nested_entries(facts, i as nat, depth as nat, id as nat);
        add_entries(&facts.children[i], Some(id), depth + 1, out);
        proof {
            let added = entries_of(&facts.children@[i as int], Some(id), (depth + 1) as nat, (id + 1 + before.len()) as nat);
            assert(start + own + before + added =~= start + own + (before + added));
        }
        i = i + 1;
    }
    proof {
        let nested = nested_entries(facts, n as nat, depth as nat, id as nat);
        assert(start + own + nested =~= start + (own + nested));
    }
}

/// A prototype and everything nested in it, outermost first.
pub fn collect_proto_entries(root: &StructureFacts) -> (r: Vec<ProtoEntry<'_>>)
    ensures
        r@ == entries_of(root, None, 0, 0),
{
    let mut r: Vec<ProtoEntry<'_>> = Vec::new();
    add_entries(root, None, 0, &mut r);
    assert(r@ =~= entries_of(root, None, 0, 0));
    r
}

/// How much is shown of each prototype.
#[derive(Debug, Clone, Copy, PartialEq, Eq, Structural)]
pub enum DebugDetail {
    Summary,
    Normal,
    Verbose,
}

/// How a prototype appears.
#[derive(Debug)]
pub enum ProtoDisplay {
    Visible,
    /// Only as a line that stands for it.
    Elided(String),
    Hidden,
}

/// What is shown of the prototypes.
#[derive(Debug)]
pub struct DumpSelection {
    pub detail: DebugDetail,
    pub proto: Option<usize>,
    pub proto_depth: usize,
    /// The way to the prototype that was asked for.
    pub breadcrumb: Option<String>,
    /// A prototype was found that was asked for.
    pub focused: bool,
    /// By the number of the prototype; the rest is hidden.
    pub display: Vec<ProtoDisplay>,
}

/// The blanks in front of a prototype.
pub open spec fn indentation(depth: nat) -> Seq<char>
    decreases depth,
{
    if depth == 0 {
        Seq::empty()
    } else {
        indentation((depth - 1) as nat) + "  "@
    }
}

fn make_indentation(depth: usize) -> (r: String)
    ensures
        r@ == indentation(depth as nat),
{
    let mut r = String::new();
    let mut i: usize = 0;
    while i < depth
        invariant
            i <= depth,
            r@ == indentation(i as nat),
        decreases depth - i,
    {
        r.append("  ");
        i = i + 1;
    }
    r
}

/// The islands among the first `n` regions.
pub open spec fn island_count(regions: Seq<RegionPlan>, n: nat) -> nat
    decreases n,
{
    if n == 0 {
        0
    } else {
        island_count(regions, (n - 1) as nat) + if regions[n - 1] is Unstructured {
            1nat
        } else {
            0nat
        }
    }
}

fn count_islands(regions: &Vec<RegionPlan>) -> (r: usize)
    ensures
        r == island_count(regions@, regions@.len()),
{
    let n = regions.len();
    let mut r: usize = 0;
    let mut i: usize = 0;
    while i < n
        invariant
            n == regions@.len(),
            i <= n,
            r <= i,
            r == island_count(regions@, i as nat),
        decreases n - i,
    {
        if let RegionPlan::Unstructured { .. } = &regions[i] {
            r = r + 1;
        }
        i = i + 1;
    }
    r
}

/// How much there is of everything.
pub open spec fn proto_counts_text(
    t: Seq<char>,
    indent: Seq<char>,
    id: usize,
    plan: &StructurePlan,
    bindings: &DebugBindingFacts,
) -> Seq<char> {
    let t = number(t + indent + "proto#"@, id as nat);
    let t = number(t + " regions="@, plan.regions@.len() as nat);
    let t = number(t + " branches="@, plan.branches@.len() as nat);
    let t = number(t + " loops="@, plan.loops@.len() as nat);
    let t = number(t + " conditions="@, plan.conditions@.len() as nat);
    let t = number(t + " islands="@, island_count(plan.regions@, plan.regions@.len()) as nat);
    let t = number(t + " labels="@, plan.labels@.len() as nat);
    let t = number(t + " edges="@, plan.edge_plans@.len() as nat);
    let t = number(t + " phis="@, plan.phis@.len() as nat);
    let t = number(t + " scopes="@, plan.scopes@.len() as nat);
    let t = number(t + " debug-bindings="@, bindings.accepted@.len() as nat);
    let t = number(t + " debug-conflicts="@, bindings.conflicts@.len() as nat);
    let t = number(t + " requirements="@, plan.requirements.entries@.len() as nat);
    t + "\n"@
}

fn write_proto_counts(out: &mut String, indent: &str, id: usize, plan: &StructurePlan, bindings: &DebugBindingFacts)
    ensures
        final(out)@ == proto_counts_text(old(out)@, indent@, id, plan, bindings),
{
    out.append(indent);
    out.append("proto#");
    put_number(out, id);
    out.append(" regions=");
    put_number(out, plan.regions.len());
    out.append(" branches=");
    put_number(out, plan.branches.len());
    out.append(" loops=");
    put_number(out, plan.loops.len());
    out.append(" conditions=");
    put_number(out, plan.conditions.len());
    out.append(" islands=");
    put_number(out, count_islands(&plan.regions));
    out.append(" labels=");
    put_number(out, plan.labels.len());
    out.append(" edges=");
    put_number(out, plan.edge_plans.len());
    out.append(" phis=");
    put_number(out, plan.phis.len());
    out.append(" scopes=");
    put_number(out, plan.scopes.len());
    out.append(" debug-bindings=");
    put_number(out, bindings.accepted.len());
    out.append(" debug-conflicts=");
    put_number(out, bindings.conflicts.len());
    out.append(" requirements=");
    put_number(out, plan.requirements.entries.len());
    out.append("\n");
}

/// The tree of regions. A way down that meets no region twice has at most as many
/// steps as there are regions, and one more to a missing one.
pub open spec fn tree_text(t: Seq<char>, plan: &StructurePlan, indent: Seq<char>) -> Seq<char> {
    region_text(t, plan, plan.root, indent, "root"@, plan.regions@.len() + 1)
}

fn write_tree(out: &mut String, plan: &StructurePlan, indent: &str)
    requires
        plan.regions@.len() < usize::MAX,
    ensures
        final(out)@ == tree_text(old(out)@, plan, indent@),
{
    write_region(out, plan, plan.root, indent, "root", plan.regions.len() + 1);
}

/// Everything that a plan says.
pub open spec fn sections_text(
    t: Seq<char>,
    indent: Seq<char>,
    deeper: Seq<char>,
    plan: &StructurePlan,
    bindings: &DebugBindingFacts,
) -> Seq<char> {
    let t = tree_text(t + indent + "  region tree\n"@, plan, deeper);
    let t = debug_bindings_text(t + indent + "  debug binding facts\n"@, indent, bindings);
    let t = block_terminators_text(t + indent + "  block terminators\n"@, indent, plan);
    let t = conditions_text(t + indent + "  condition plans\n"@, indent, plan);
    let t = value_decisions_text(t + indent + "  value decision plans\n"@, indent, plan);
    let t = labels_text(t + indent + "  planned labels\n"@, indent, plan);
    let t = forward_routes_text(t + indent + "  forward routes\n"@, indent, plan);
    let t = edges_text(t + indent + "  edge transfers\n"@, indent, plan);
    let t = values_text(t + indent + "  value owners\n"@, indent, plan);
    let t = cleanups_text(t + indent + "  cleanup owners\n"@, indent, plan);
    requirements_text(t + indent + "  requirements\n"@, indent, plan)
}

fn write_sections(out: &mut String, indent: &str, deeper: &str, plan: &StructurePlan, bindings: &DebugBindingFacts)
    requires
        plan.regions@.len() < usize::MAX,
    ensures
        final(out)@ == sections_text(old(out)@, indent@, deeper@, plan, bindings),
{
    out.append(indent);
    out.append("  region tree\n");
    write_tree(out, plan, deeper);
    out.append(indent);
    out.append("  debug binding facts\n");
    write_debug_bindings(out, indent, bindings);
    out.append(indent);
    out.append("  block terminators\n");
    write_block_terminators(out, indent, plan);
    out.append(indent);
    out.append("  condition plans\n");
    write_conditions(out, indent, plan);
    out.append(indent);
    out.append("  value decision plans\n");
    write_value_decisions(out, indent, plan);
    out.append(indent);
    out.append("  planned labels\n");
    write_labels(out, indent, plan);
    out.append(indent);
    out.append("  forward routes\n");
    write_forward_routes(out, indent, plan);
    out.append(indent);
    out.append("  edge transfers\n");
    write_edges(out, indent, plan);
    out.append(indent);
    out.append("  value owners\n");
    write_values(out, indent, plan);
    out.append(indent);
    out.append("  cleanup owners\n");
    write_cleanups(out, indent, plan);
    out.append(indent);
    out.append("  requirements\n");
    write_requirements(out, indent, plan);
}

/// A prototype in full.
pub open spec fn proto_text(t: Seq<char>, entry: ProtoEntry, detail: DebugDetail) -> Seq<char> {
    let indent = indentation(entry.depth as nat);
    let t = proto_counts_text(t, indent, entry.id, &entry.facts.plan, &entry.facts.debug_bindings);
    if detail is Summary {
        t
    } else {
        sections_text(t, indent, indent + "    "@, &entry.facts.plan, &entry.facts.debug_bindings)
    }
}

fn write_proto(out: &mut String, entry: ProtoEntry, detail: DebugDetail)
    requires
        entry.facts.plan.regions@.len() < usize::MAX,
    ensures
        final(out)@ == proto_text(old(out)@, entry, detail),
{
    let indent = make_indentation(entry.depth);
    write_proto_counts(out, indent.as_str(), entry.id, &entry.facts.plan, &entry.facts.debug_bindings);
    if detail != DebugDetail::Summary {
        let mut deeper = String::new();
        deeper.append(indent.as_str());
        deeper.append("    ");
        assert(deeper@ =~= indent@ + "    "@);
        write_sections(out, indent.as_str(), deeper.as_str(), &entry.facts.plan, &entry.facts.debug_bindings);
    }
}

/// The first `n` prototypes, as far as they are shown.
pub open spec fn protos_text(t: Seq<char>, entries: Seq<ProtoEntry>, selection: &DumpSelection, n: nat) -> Seq<char>
    decreases n,
{
    if n == 0 {
        t
    } else {
        let t = protos_text(t, entries, selection, (n - 1) as nat);
        let entry = entries[n - 1];
        if entry.id < selection.display@.len() {
            match selection.display@[entry.id as int] {
                ProtoDisplay::Visible => proto_text(t, entry, selection.detail),
                ProtoDisplay::Elided(row) => t + indentation(entry.depth as nat) + row@ + "\n"@,
                ProtoDisplay::Hidden => t,
            }
        } else {
            t
        }
    }
}

/// No plan has as many regions as there are indices.
pub open spec fn plans_fit(entries: Seq<ProtoEntry>) -> bool {
    forall|k: int| 0 <= k < entries.len() ==> (#[trigger] entries[k]).facts.plan.regions@.len() < usize::MAX
}

fn write_protos(out: &mut String, entries: &Vec<ProtoEntry>, selection: &DumpSelection)
    requires
        plans_fit(entries@),
    ensures
        final(out)@ == protos_text(old(out)@, entries@, selection, entries@.len()),
{
    let n = entries.len();
    let ghost t = out@;
    let mut i: usize = 0;
    while i < n
        invariant
            n == entries@.len(),
            plans_fit(entries@),
            i <= n,
            out@ == protos_text(t, entries@, selection, i as nat),
        decreases n - i,
    {
        let entry = entries[i];
        if entry.id < selection.display.len() {
            match &selection.display[entry.id] {
                ProtoDisplay::Visible => {
                    write_proto(out, entry, selection.detail);
                },
                ProtoDisplay::Elided(row) => {
                    let indent = make_indentation(entry.depth);
                    out.append(indent.as_str());
                    out.append(row.as_str());
                    out.append("\n");
                },
                ProtoDisplay::Hidden => {},
            }
        }
        i = i + 1;
    }
}

pub open spec fn detail_text(t: Seq<char>, d: DebugDetail) -> Seq<char> {
    match d {
        DebugDetail::Summary => t + "summary"@,
        DebugDetail::Normal => t + "normal"@,
        DebugDetail::Verbose => t + "verbose"@,
    }
}

fn write_detail(out: &mut String, d: DebugDetail)
    ensures
        final(out)@ == detail_text(old(out)@, d),
{
    match d {
        DebugDetail::Summary => {
            out.append("summary");
        },
        DebugDetail::Normal => {
            out.append("normal");
        },
        DebugDetail::Verbose => {
            out.append("verbose");
        },
    }
}

pub open spec fn proto_filter_text(t: Seq<char>, p: Option<usize>) -> Seq<char> {
    match p {
        Some(p) => {
            let t = number(t + "filters proto=proto#"@, p as nat);
            t + "\n"@
        },
        None => t,
    }
}

fn write_proto_filter(out: &mut String, p: Option<usize>)
    ensures
        final(out)@ == proto_filter_text(old(out)@, p),
{
    match p {
        Some(p) => {
            out.append("filters proto=proto#");
            put_number(out, p);
            out.append("\n");
        },
        None => {},
    }
}

pub open spec fn focus_text(t: Seq<char>, breadcrumb: Option<String>) -> Seq<char> {
    match breadcrumb {
        Some(b) => t + "focus "@ + b@ + "\n"@,
        None => t,
    }
}

fn write_focus(out: &mut String, breadcrumb: &Option<String>)
    ensures
        final(out)@ == focus_text(old(out)@, *breadcrumb),
{
    if let Some(b) = breadcrumb {
        out.append("focus ");
        out.append(b.as_str());
        out.append("\n");
    }
}

/// The lines above the prototypes.
pub open spec fn dump_head_text(t: Seq<char>, count: usize, selection: &DumpSelection) -> Seq<char> {
    let t = detail_text(t + "===== Dump Structure =====\nstructure detail="@, selection.detail);
    let t = number(t + " protos="@, count as nat);
    let t = proto_filter_text(t + "\n"@, selection.proto);
    let t = number(t + "filters proto_depth="@, selection.proto_depth as nat);
    let t = focus_text(t + "\n"@, selection.breadcrumb);
    t + "\n"@
}

fn write_dump_head(out: &mut String, count: usize, selection: &DumpSelection)
    ensures
        final(out)@ == dump_head_text(old(out)@, count, selection),
{
    out.append("===== Dump Structure =====\nstructure detail=");
    write_detail(out, selection.detail);
    out.append(" protos=");
    put_number(out, count);
    out.append("\n");
    write_proto_filter(out, selection.proto);
    out.append("filters proto_depth=");
    put_number(out, selection.proto_depth);
    out.append("\n");
    write_focus(out, &selection.breadcrumb);
    out.append("\n");
}

/// The plans of a prototype and of everything nested in it, as far as they are shown.
pub open spec fn structure_facts_text(structure: &StructureFacts, selection: &DumpSelection) -> Seq<char> {
    let entries = entries_of(structure, None, 0, 0);
    let t = dump_head_text(Seq::empty(), entries.len() as usize, selection);
    if !selection.focused {
        t + "  <no proto matched filters>\n"@
    } else {
        protos_text(t, entries, selection, entries.len())
    }
}

/// The plans of a prototype and of everything nested in it, as text.
pub fn dump_structure_facts(structure: &StructureFacts, selection: &DumpSelection) -> (r: String)
    requires
        plans_fit(entries_of(structure, None, 0, 0)),
    ensures
        r@ == structure_facts_text(structure, selection),
{
    let entries = collect_proto_entries(structure);
    let mut out = String::new();
    write_dump_head(&mut out, entries.len(), selection);
    if !selection.focused {
        out.append("  <no proto matched filters>\n");
    } else {
        write_protos(&mut out, &entries, selection);
    }
    out
}

/// The output with a section behind it: an empty line between them, a line end last.
pub open spec fn with_section(output: Seq<char>, section: Seq<char>) -> Seq<char> {
    let t = if output.len() > 0 {
        output + "\n"@
    } else {
        output
    };
    let t = t + section;
    if t.len() > 0 && t.last() == '\n' {
        t
    } else {
        t + "\n"@
    }
}

/// Adds a section.
pub fn append_section(output: &mut String, section: &str)
    ensures
        final(output)@ == with_section(old(output)@, section@),
{
    if output.as_str().unicode_len() > 0 {
        output.append("\n");
    }
    output.append(section);
    let n = output.as_str().unicode_len();
    if n == 0 || output.as_str().get_char(n - 1) != '\n' {
        output.append("\n");
    }
}

} // verus!
