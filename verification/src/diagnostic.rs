//! Short accounts of a prototype for a reader who looks into a failure.

use vstd::prelude::*;

use crate::cfg::Cfg;
use crate::dataflow::{DataflowFacts, PhiCandidate, PhiIncoming, SsaValue};
use crate::ids::{BlockRef, EdgeRef};
use crate::structure_plan::StructurePlan;
use crate::text::{
    block_text, number, optional_block_text, padded, put_number, put_padded, reg_set_text, reg_text, write_block,
    write_optional_block, write_reg, write_reg_set,
};

verus! {

/// The registers that an instruction reads or writes; a dash if nothing is known.
pub open spec fn reads_text(t: Seq<char>, facts: &DataflowFacts, i: int) -> Seq<char> {
    if i < facts.instr_effects@.len() {
        reg_set_text(t, facts.instr_effects@[i].fixed_uses.seq())
    } else {
        t + "[-]"@
    }
}

pub open spec fn writes_text(t: Seq<char>, facts: &DataflowFacts, i: int) -> Seq<char> {
    if i < facts.instr_effects@.len() {
        reg_set_text(t, facts.instr_effects@[i].fixed_must_defs.seq())
    } else {
        t + "[-]"@
    }
}

/// The block of an instruction.
pub open spec fn block_at(cfg: &Cfg, i: int) -> Option<BlockRef> {
    if i < cfg.instr_to_block@.len() {
        Some(cfg.instr_to_block@[i])
    } else {
        None
    }
}

/// The first `n` instructions, one to a line; `instrs` holds each as text.
pub open spec fn instrs_text(t: Seq<char>, instrs: Seq<String>, cfg: &Cfg, facts: &DataflowFacts, n: nat) -> Seq<char>
    decreases n,
{
    if n == 0 {
        t
    } else {
        let t = instrs_text(t, instrs, cfg, facts, (n - 1) as nat);
        let t = padded(t + "  @"@, (n - 1) as nat);
        let t = optional_block_text(t + " block="@, block_at(cfg, n - 1));
        let t = reads_text(t + " "@ + instrs[n - 1]@ + " reads="@, facts, n - 1);
        writes_text(t + " writes="@, facts, n - 1) + "\n"@
    }
}

fn write_instrs(out: &mut String, instrs: &Vec<String>, cfg: &Cfg, facts: &DataflowFacts)
    ensures
        final(out)@ == instrs_text(old(out)@, instrs@, cfg, facts, instrs@.len()),
{
    let n = instrs.len();
    let ghost t = out@;
    let mut i: usize = 0;
    while i < n
        invariant
            n == instrs@.len(),
            i <= n,
            out@ == instrs_text(t, instrs@, cfg, facts, i as nat),
        decreases n - i,
    {
        out.append("  @");
        put_padded(out, i);
        out.append(" block=");
        let block = if i < cfg.instr_to_block.len() {
            Some(cfg.instr_to_block[i])
        } else {
            None
        };
        write_optional_block(out, block);
        out.append(" ");
        out.append(instrs[i].as_str());
        out.append(" reads=");
        if i < facts.instr_effects.len() {
            write_reg_set(out, &facts.instr_effects[i].fixed_uses.to_vec());
        } else {
            out.append("[-]");
        }
        out.append(" writes=");
        if i < facts.instr_effects.len() {
            write_reg_set(out, &facts.instr_effects[i].fixed_must_defs.to_vec());
        } else {
            out.append("[-]");
        }
        out.append("\n");
        i = i + 1;
    }
}

pub open spec fn incoming_edge_ref_text(t: Seq<char>, e: Option<EdgeRef>) -> Seq<char> {
    match e {
        Some(e) => {
            let t = number(t + "Some(EdgeRef("@, e.0 as nat);
            t + "))"@
        },
        None => t + "None"@,
    }
}

fn write_incoming_edge_ref(out: &mut String, e: Option<EdgeRef>)
    ensures
        final(out)@ == incoming_edge_ref_text(old(out)@, e),
{
    match e {
        Some(e) => {
            out.append("Some(EdgeRef(");
            put_number(out, e.0);
            out.append("))");
        },
        None => {
            out.append("None");
        },
    }
}

pub open spec fn incoming_block_ref_text(t: Seq<char>, b: Option<BlockRef>) -> Seq<char> {
    match b {
        Some(b) => {
            let t = number(t + "Some(BlockRef("@, b.0 as nat);
            t + "))"@
        },
        None => t + "None"@,
    }
}

fn write_incoming_block_ref(out: &mut String, b: Option<BlockRef>)
    ensures
        final(out)@ == incoming_block_ref_text(old(out)@, b),
{
    match b {
        Some(b) => {
            out.append("Some(BlockRef(");
            put_number(out, b.0);
            out.append("))");
        },
        None => {
            out.append("None");
        },
    }
}

pub open spec fn value_ref_text(t: Seq<char>, v: SsaValue) -> Seq<char> {
    match v {
        SsaValue::Entry(r) => {
            let t = number(t + "Entry(Reg("@, r.0 as nat);
            t + "))"@
        },
        SsaValue::Def(d) => {
            let t = number(t + "Def(DefId("@, d.0 as nat);
            t + "))"@
        },
        SsaValue::Phi(p) => {
            let t = number(t + "Phi(PhiId("@, p.0 as nat);
            t + "))"@
        },
    }
}

pub fn write_value_ref(out: &mut String, v: SsaValue)
    ensures
        final(out)@ == value_ref_text(old(out)@, v),
{
    match v {
        SsaValue::Entry(r) => {
            out.append("Entry(Reg(");
            put_number(out, r.0);
            out.append("))");
        },
        SsaValue::Def(d) => {
            out.append("Def(DefId(");
            put_number(out, d.0);
            out.append("))");
        },
        SsaValue::Phi(p) => {
            out.append("Phi(PhiId(");
            put_number(out, p.0);
            out.append("))");
        },
    }
}

/// The first `n` values that flow into a phi, with commas between them.
pub open spec fn incomings_text(t: Seq<char>, list: Seq<PhiIncoming>, n: nat) -> Seq<char>
    decreases n,
{
    if n == 0 {
        t
    } else {
        let t = incomings_text(t, list, (n - 1) as nat);
        let t = if n > 1 {
            t + ", "@
        } else {
            t
        };
        let x = list[n - 1];
        let t = incoming_edge_ref_text(t + "PhiIncoming { edge: "@, x.edge);
        let t = incoming_block_ref_text(t + ", pred: "@, x.pred);
        let t = value_ref_text(t + ", value: "@, x.value);
        t + " }"@
    }
}

fn write_incomings(out: &mut String, list: &Vec<PhiIncoming>)
    ensures
        final(out)@ == incomings_text(old(out)@, list@, list@.len()),
{
    let n = list.len();
    let ghost t = out@;
    let mut i: usize = 0;
    while i < n
        invariant
            n == list@.len(),
            i <= n,
            out@ == incomings_text(t, list@, i as nat),
        decreases n - i,
    {
        if i > 0 {
            out.append(", ");
        }
        let x = list[i];
        out.append("PhiIncoming { edge: ");
        write_incoming_edge_ref(out, x.edge);
        out.append(", pred: ");
        write_incoming_block_ref(out, x.pred);
        out.append(", value: ");
        write_value_ref(out, x.value);
        out.append(" }");
        i = i + 1;
    }
}

/// The first `n` phis, one to a line.
pub open spec fn phis_text(t: Seq<char>, list: Seq<PhiCandidate>, n: nat) -> Seq<char>
    decreases n,
{
    if n == 0 {
        t
    } else {
        let t = phis_text(t, list, (n - 1) as nat);
        let x = &list[n - 1];
        let t = block_text(t + "  phi block="@, x.block);
        let t = reg_text(t + " reg="@, x.reg);
        let t = incomings_text(t + " incoming=["@, x.incoming@, x.incoming@.len());
        t + "]\n"@
    }
}

fn write_phis(out: &mut String, list: &Vec<PhiCandidate>)
    ensures
        final(out)@ == phis_text(old(out)@, list@, list@.len()),
{
    let n = list.len();
    let ghost t = out@;
    let mut i: usize = 0;
    while i < n
        invariant
            n == list@.len(),
            i <= n,
            out@ == phis_text(t, list@, i as nat),
        decreases n - i,
    {
        let x = &list[i];
        out.append("  phi block=");
        write_block(out, x.block);
        out.append(" reg=");
        write_reg(out, x.reg);
        out.append(" incoming=[");
        write_incomings(out, &x.incoming);
        out.append("]\n");
        i = i + 1;
    }
}

/// What is known of the values of a prototype; `instrs` holds its instructions as text.
pub open spec fn dataflow_proto_text(
    t: Seq<char>,
    proto_id: usize,
    instrs: Seq<String>,
    cfg: &Cfg,
    facts: &DataflowFacts,
) -> Seq<char> {
    let t = number(t + "dataflow proto#"@, proto_id as nat);
    let t = number(t + " blocks="@, cfg.block_order@.len() as nat);
    let t = number(t + " defs="@, facts.defs@.len() as nat);
    let t = number(t + " open-defs="@, facts.open_defs@.len() as nat);
    let t = number(t + " phis="@, facts.phi_candidates@.len() as nat);
    let t = instrs_text(t + "\n"@, instrs, cfg, facts, instrs.len());
    phis_text(t, facts.phi_candidates@, facts.phi_candidates@.len())
}

fn write_dataflow_proto(out: &mut String, proto_id: usize, instrs: &Vec<String>, cfg: &Cfg, facts: &DataflowFacts)
    ensures
        final(out)@ == dataflow_proto_text(old(out)@, proto_id, instrs@, cfg, facts),
{
    out.append("dataflow proto#");
    put_number(out, proto_id);
    out.append(" blocks=");
    put_number(out, cfg.block_order.len());
    out.append(" defs=");
    put_number(out, facts.defs.len());
    out.append(" open-defs=");
    put_number(out, facts.open_defs.len());
    out.append(" phis=");
    put_number(out, facts.phi_candidates.len());
    out.append("\n");
    write_instrs(out, instrs, cfg, facts);
    write_phis(out, &facts.phi_candidates);
}

/// What is known of the values of a prototype, as text.
pub fn dump_dataflow_proto(proto_id: usize, instrs: &Vec<String>, cfg: &Cfg, facts: &DataflowFacts) -> (r: String)
    ensures
        r@ == dataflow_proto_text(Seq::empty(), proto_id, instrs@, cfg, facts),
{
    let mut out = String::new();
    write_dataflow_proto(&mut out, proto_id, instrs, cfg, facts);
    out
}

/// The parts of a plan, each as text.
#[derive(Debug)]
pub struct PlanRows {
    pub regions: Vec<String>,
    pub branches: Vec<String>,
    pub loops: Vec<String>,
    pub phis: Vec<String>,
    pub requirements: Vec<String>,
}

/// The first `n` rows under their numbers.
pub open spec fn rows_text(t: Seq<char>, kind: Seq<char>, rows: Seq<String>, n: nat) -> Seq<char>
    decreases n,
{
    if n == 0 {
        t
    } else {
        let t = rows_text(t, kind, rows, (n - 1) as nat);
        number(t + kind, (n - 1) as nat) + " "@ + rows[n - 1]@ + "\n"@
    }
}

fn write_rows(out: &mut String, kind: &str, rows: &Vec<String>)
    ensures
        final(out)@ == rows_text(old(out)@, kind@, rows@, rows@.len()),
{
    let n = rows.len();
    let ghost t = out@;
    let mut i: usize = 0;
    while i < n
        invariant
            n == rows@.len(),
            i <= n,
            out@ == rows_text(t, kind@, rows@, i as nat),
        decreases n - i,
    {
        out.append(kind);
        put_number(out, i);
        out.append(" ");
        out.append(rows[i].as_str());
        out.append("\n");
        i = i + 1;
    }
}

/// The first `n` phis.
pub open spec fn phi_rows_text(t: Seq<char>, rows: Seq<String>, n: nat) -> Seq<char>
    decreases n,
{
    if n == 0 {
        t
    } else {
        phi_rows_text(t, rows, (n - 1) as nat) + "  phi "@ + rows[n - 1]@ + "\n"@
    }
}

fn write_phi_rows(out: &mut String, rows: &Vec<String>)
    ensures
        final(out)@ == phi_rows_text(old(out)@, rows@, rows@.len()),
{
    let n = rows.len();
    let ghost t = out@;
    let mut i: usize = 0;
    while i < n
        invariant
            n == rows@.len(),
            i <= n,
            out@ == phi_rows_text(t, rows@, i as nat),
        decreases n - i,
    {
        out.append("  phi ");
        out.append(rows[i].as_str());
        out.append("\n");
        i = i + 1;
    }
}

/// A plan; `rows` holds its parts as text.
pub open spec fn structure_proto_text(t: Seq<char>, proto_id: usize, plan: &StructurePlan, rows: &PlanRows) -> Seq<char> {
    let t = number(t + "structure proto#"@, proto_id as nat);
    let t = number(t + " root=r"@, plan.root.0 as nat);
    let t = number(t + " regions="@, plan.regions@.len() as nat);
    let t = number(t + " branches="@, plan.branches@.len() as nat);
    let t = number(t + " loops="@, plan.loops@.len() as nat);
    let t = number(t + " conditions="@, plan.conditions@.len() as nat);
    let t = number(t + " phis="@, plan.phis@.len() as nat);
    let t = number(t + " labels="@, plan.labels@.len() as nat);
    let t = number(t + " requirements="@, plan.requirements.entries@.len() as nat);
    let t = rows_text(t + "\n"@, "  region r"@, rows.regions@, rows.regions@.len());
    let t = rows_text(t, "  branch b"@, rows.branches@, rows.branches@.len());
    let t = rows_text(t, "  loop l"@, rows.loops@, rows.loops@.len());
    let t = phi_rows_text(t, rows.phis@, rows.phis@.len());
    rows_text(t, "  requirement q"@, rows.requirements@, rows.requirements@.len())
}

fn write_structure_proto(out: &mut String, proto_id: usize, plan: &StructurePlan, rows: &PlanRows)
    ensures
        final(out)@ == structure_proto_text(old(out)@, proto_id, plan, rows),
{
    out.append("structure proto#");
    put_number(out, proto_id);
    out.append(" root=r");
    put_number(out, plan.root.0);
    out.append(" regions=");
    put_number(out, plan.regions.len());
    out.append(" branches=");
    put_number(out, plan.branches.len());
    out.append(" loops=");
    put_number(out, plan.loops.len());
    out.append(" conditions=");
    put_number(out, plan.conditions.len());
    out.append(" phis=");
    put_number(out, plan.phis.len());
    out.append(" labels=");
    put_number(out, plan.labels.len());
    out.append(" requirements=");
    put_number(out, plan.requirements.entries.len());
    out.append("\n");
    write_rows(out, "  region r", &rows.regions);
    write_rows(out, "  branch b", &rows.branches);
    write_rows(out, "  loop l", &rows.loops);
    write_phi_rows(out, &rows.phis);
    write_rows(out, "  requirement q", &rows.requirements);
}

/// A plan as text.
pub fn dump_structure_proto(proto_id: usize, plan: &StructurePlan, rows: &PlanRows) -> (r: String)
    ensures
        r@ == structure_proto_text(Seq::empty(), proto_id, plan, rows),
{
    let mut out = String::new();
    write_structure_proto(&mut out, proto_id, plan, rows);
    out
}

} // verus!
