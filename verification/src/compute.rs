//! The data-flow facts of a prototype and of everything nested in it.

use vstd::prelude::*;

use crate::cfg::{Cfg, CfgGraph};
use crate::dataflow::{DataflowFacts, InstrEffect, SideEffectSummary};
use crate::error::{Fault, StructureError};
use crate::graph::{facts_are_sized, GraphFacts};
use crate::ids::Reg;
use crate::lists::copy_list;
use crate::open_values::{analyze_open_values, OpenAnalysis};
use crate::renaming::{SsaAnalysis, SsaInput};
use crate::ssa::{
    bad_register, collect_defs, defs_upto, extends_uses, ids_at, instr_known, solve_liveness, BlockLiveness,
};
use crate::tracks::analysable;

verus! {

/// What the instructions of a prototype do to its registers, and those of nested ones.
pub struct ProtoEffects {
    pub instr_effects: Vec<InstrEffect>,
    pub effect_summaries: Vec<SideEffectSummary>,
    pub reg_count: usize,
    /// The first register of the open arguments, for a function with a variable number.
    pub entry_open_start: Option<Reg>,
    pub children: Vec<ProtoEffects>,
}

pub open spec fn same_effect(a: &InstrEffect, b: &InstrEffect) -> bool {
    &&& a.fixed_uses.seq() == b.fixed_uses.seq()
    &&& a.fixed_must_defs.seq() == b.fixed_must_defs.seq()
    &&& a.open_use == b.open_use
    &&& a.open_must_def == b.open_must_def
}

pub open spec fn same_effects(a: Seq<InstrEffect>, b: Seq<InstrEffect>) -> bool {
    a.len() == b.len() && forall|i: int| 0 <= i < a.len() ==> same_effect(&(#[trigger] a[i]), &b[i])
}

pub open spec fn same_summaries(a: Seq<SideEffectSummary>, b: Seq<SideEffectSummary>) -> bool {
    a.len() == b.len() && forall|i: int| 0 <= i < a.len() ==> (#[trigger] a[i]).tags@ == b[i].tags@
}

fn copy_effects(list: &Vec<InstrEffect>) -> (r: Vec<InstrEffect>)
    ensures
        same_effects(r@, list@),
{
    let n = list.len();
    let mut r: Vec<InstrEffect> = Vec::new();
    let mut i: usize = 0;
    while i < n
        invariant
            n == list@.len(),
            i <= n,
            r@.len() == i,
            forall|k: int| 0 <= k < i ==> same_effect(&(#[trigger] r@[k]), &list@[k]),
        decreases n - i,
    {
        r.push(
            InstrEffect {
                fixed_uses: list[i].fixed_uses.clone(),
                fixed_must_defs: list[i].fixed_must_defs.clone(),
                open_use: list[i].open_use,
                open_must_def: list[i].open_must_def,
            },
        );
        i = i + 1;
    }
    r
}

fn copy_summaries(list: &Vec<SideEffectSummary>) -> (r: Vec<SideEffectSummary>)
    ensures
        same_summaries(r@, list@),
{
    let n = list.len();
    let mut r: Vec<SideEffectSummary> = Vec::new();
    let mut i: usize = 0;
    while i < n
        invariant
            n == list@.len(),
            i <= n,
            r@.len() == i,
            forall|k: int| 0 <= k < i ==> (#[trigger] r@[k]).tags@ == list@[k].tags@,
        decreases n - i,
    {
        r.push(SideEffectSummary { tags: copy_list(&list[i].tags) });
        i = i + 1;
    }
    r
}

/// The effects belong to the graph, and an open use begins at most behind the last register.
pub open spec fn level_computable(proto: &ProtoEffects, cfg: &Cfg, graph: &GraphFacts) -> bool {
    &&& analysable(cfg)
    &&& graph.describes(cfg)
    &&& proto.instr_effects@.len() == cfg.instr_to_block@.len()
    &&& forall|i: int|
        0 <= i < proto.instr_effects@.len() && (#[trigger] proto.instr_effects@[i]).open_use is Some
            ==> (proto.instr_effects@[i].open_use->0).0 <= proto.reg_count
}

/// The number of nested prototypes that all three trees have.
pub open spec fn nested_count(proto: &ProtoEffects, g: &CfgGraph, graph: &GraphFacts) -> nat {
    let a = if proto.children@.len() < g.children@.len() {
        proto.children@.len()
    } else {
        g.children@.len()
    };
    if a < graph.children@.len() {
        a
    } else {
        graph.children@.len()
    }
}

pub open spec fn computable(proto: &ProtoEffects, g: &CfgGraph, graph: &GraphFacts) -> bool
    decreases proto,
{
    &&& level_computable(proto, &g.cfg, graph)
    &&& forall|k: int|
        0 <= k < nested_count(proto, g, graph) && 0 <= k < proto.children@.len() ==> computable(
            #[trigger] &proto.children@[k],
            &g.children@[k],
            &graph.children@[k],
        )
}

/// The first register that does not exist: in the prototype, then in the nested ones.
pub open spec fn dataflow_fault(proto: &ProtoEffects, g: &CfgGraph, graph: &GraphFacts) -> Option<Fault>
    decreases proto, proto.children@.len() + 1,
{
    match bad_register(&g.cfg, proto.instr_effects@, proto.reg_count) {
        Some(r) => Some(Fault::LivenessRegister(r, proto.reg_count)),
        None => nested_dataflow_fault(proto, g, graph, nested_count(proto, g, graph)),
    }
}

pub open spec fn nested_dataflow_fault(proto: &ProtoEffects, g: &CfgGraph, graph: &GraphFacts, n: nat) -> Option<Fault>
    decreases proto, n,
    when n <= proto.children@.len()
{
    if n == 0 {
        None
    } else {
        match nested_dataflow_fault(proto, g, graph, (n - 1) as nat) {
            Some(f) => Some(f),
            None => dataflow_fault(&proto.children@[n - 1], &g.children@[n - 1], &graph.children@[n - 1]),
        }
    }
}

/// The facts are put together from these three analyses of the prototype.
pub open spec fn made_of(
    f: &DataflowFacts,
    proto: &ProtoEffects,
    cfg: &Cfg,
    graph: &GraphFacts,
    open: &OpenAnalysis,
    live: &BlockLiveness,
    ssa: &SsaAnalysis,
) -> bool {
    &&& same_effects(f.instr_effects@, proto.instr_effects@)
    &&& same_summaries(f.effect_summaries@, proto.effect_summaries@)
    &&& f.defs@ == defs_upto(cfg, proto.instr_effects@, cfg.block_order@.len())
    &&& f.instr_defs@.len() == proto.instr_effects@.len()
    &&& forall|i: int| 0 <= i < f.instr_defs@.len() ==> (#[trigger] f.instr_defs@[i])@ == ids_at(f.defs@, i, f.defs@.len())
    &&& open.describes(cfg, graph, proto.instr_effects@, proto.reg_count, proto.entry_open_start)
    &&& f.open_defs == open.defs
    &&& f.open_use_sources == open.use_sources
    &&& f.open_live_in == open.live_in
    &&& f.open_live_out == open.live_out
    &&& live.describes(cfg, open.fixed_liveness_use_regs@, f.defs@, proto.reg_count)
    &&& f.live_in == live.live_in
    &&& f.live_out == live.live_out
    &&& ssa.describes(
        &(SsaInput {
            cfg,
            graph,
            defs: &f.defs,
            uses: &open.fixed_ssa_use_regs,
            live_uses: &open.fixed_liveness_use_regs,
            live,
            reg_count: proto.reg_count,
        }),
    )
    &&& f.phi_candidates == ssa.phis
    &&& f.phi_block_ranges == ssa.phi_block_ranges
    &&& f.block_entry_values == ssa.block_entry_values
    &&& f.block_exit_values == ssa.block_exit_values
    &&& f.use_values == ssa.use_values
    &&& f.def_uses == ssa.uses.def_uses
    &&& f.def_phi_uses == ssa.uses.def_phi_uses
    &&& f.phi_uses == ssa.uses.phi_uses
    &&& f.phi_phi_uses == ssa.uses.phi_phi_uses
    &&& f.phi_use_blocks == ssa.uses.phi_use_blocks
}

/// The facts are those of one prototype.
pub open spec fn level_facts(f: &DataflowFacts, proto: &ProtoEffects, cfg: &Cfg, graph: &GraphFacts) -> bool {
    exists|open: OpenAnalysis, live: BlockLiveness, ssa: SsaAnalysis| #[trigger] made_of(f, proto, cfg, graph, &open, &live, &ssa)
}

/// The facts are those of the prototype, and the nested facts those of the nested ones.
pub open spec fn dataflow_of(f: &DataflowFacts, proto: &ProtoEffects, g: &CfgGraph, graph: &GraphFacts) -> bool
    decreases proto,
{
    &&& level_facts(f, proto, &g.cfg, graph)
    &&& f.children@.len() == nested_count(proto, g, graph)
    &&& forall|k: int|
        0 <= k < f.children@.len() && 0 <= k < proto.children@.len() ==> dataflow_of(
            &f.children@[k],
            #[trigger] &proto.children@[k],
            &g.children@[k],
            &graph.children@[k],
        )
}

/// What the open uses add to what is read exists.
proof fn prefix_known(open: &OpenAnalysis, proto: &ProtoEffects, cfg: &Cfg, graph: &GraphFacts)
    requires
        level_computable(proto, cfg, graph),
        open.describes(cfg, graph, proto.instr_effects@, proto.reg_count, proto.entry_open_start),
    ensures
        forall|i: int|
            0 <= i < proto.instr_effects@.len() ==> extends_uses(
                &proto.instr_effects@[i],
                #[trigger] open.fixed_liveness_use_regs@[i]@,
                proto.reg_count,
            ),
        forall|i: int|
            0 <= i < proto.instr_effects@.len() ==> extends_uses(
                &proto.instr_effects@[i],
                #[trigger] open.fixed_ssa_use_regs@[i]@,
                proto.reg_count,
            ),
{
    assert forall|i: int| 0 <= i < proto.instr_effects@.len() implies extends_uses(
        &proto.instr_effects@[i],
        #[trigger] open.fixed_liveness_use_regs@[i]@,
        proto.reg_count,
    ) by {
        assert(open.instr_ok(cfg, graph, proto.instr_effects@, proto.reg_count, proto.entry_open_start, i));
        assert(proto.instr_effects@[i].open_use is Some ==> (proto.instr_effects@[i].open_use->0).0 <= proto.reg_count);
    }
    assert forall|i: int| 0 <= i < proto.instr_effects@.len() implies extends_uses(
        &proto.instr_effects@[i],
        #[trigger] open.fixed_ssa_use_regs@[i]@,
        proto.reg_count,
    ) by {
        assert(open.instr_ok(cfg, graph, proto.instr_effects@, proto.reg_count, proto.entry_open_start, i));
        assert(proto.instr_effects@[i].open_use is Some ==> (proto.instr_effects@[i].open_use->0).0 <= proto.reg_count);
    }
}

/// The facts of one prototype, without nested ones.
fn compute_level(proto: &ProtoEffects, cfg: &Cfg, graph: &GraphFacts) -> (r: Result<DataflowFacts, StructureError>)
    requires
        level_computable(proto, cfg, graph),
    ensures
        match r {
            Ok(f) => bad_register(cfg, proto.instr_effects@, proto.reg_count) is None && level_facts(&f, proto, cfg, graph)
                && f.children@.len() == 0,
            Err(e) => bad_register(cfg, proto.instr_effects@, proto.reg_count) is Some && e.fault == Fault::LivenessRegister(
                bad_register(cfg, proto.instr_effects@, proto.reg_count)->0,
                proto.reg_count,
            ),
        },
{
    proof {
        facts_are_sized(graph, cfg);
    }
    let effects = &proto.instr_effects;
    let open = analyze_open_values(cfg, graph, effects, proto.reg_count, proto.entry_open_start);
    proof {
        prefix_known(&open, proto, cfg, graph);
    }
    let (defs, instr_defs) = collect_defs(cfg, effects);
    let live = match solve_liveness(cfg, effects, &open.fixed_liveness_use_regs, &defs, proto.reg_count) {
        Ok(l) => l,
        Err(e) => {
            return Err(e);
        },
    };
    let input = SsaInput {
        cfg,
        graph,
        defs: &defs,
        uses: &open.fixed_ssa_use_regs,
        live_uses: &open.fixed_liveness_use_regs,
        live: &live,
        reg_count: proto.reg_count,
    };
    proof {
        assert forall|i: int, x: Reg|
            0 <= i < input.uses@.len() && #[trigger] input.uses@[i]@.contains(x) implies x.0 < input.reg_count by {
            assert(extends_uses(&proto.instr_effects@[i], open.fixed_ssa_use_regs@[i]@, proto.reg_count));
            assert(instr_known(effects@, proto.reg_count, i));
        }
    }
    let ssa = input.build_ssa();
    let ghost whole_open = open;
    let ghost whole_live = live;
    let ghost whole_ssa = ssa;
    let f = DataflowFacts {
        instr_effects: copy_effects(effects),
        effect_summaries: copy_summaries(&proto.effect_summaries),
        defs,
        open_defs: open.defs,
        instr_defs,
        block_entry_values: ssa.block_entry_values,
        block_exit_values: ssa.block_exit_values,
        use_values: ssa.use_values,
        def_uses: ssa.uses.def_uses,
        def_phi_uses: ssa.uses.def_phi_uses,
        phi_uses: ssa.uses.phi_uses,
        phi_phi_uses: ssa.uses.phi_phi_uses,
        open_use_sources: open.use_sources,
        live_in: live.live_in,
        live_out: live.live_out,
        open_live_in: open.live_in,
        open_live_out: open.live_out,
        phi_candidates: ssa.phis,
        phi_block_ranges: ssa.phi_block_ranges,
        phi_use_blocks: ssa.uses.phi_use_blocks,
        children: Vec::new(),
    };
    assert(made_of(&f, proto, cfg, graph, &whole_open, &whole_live, &whole_ssa));
    Ok(f)
}

/// Computes the data-flow facts of a prototype and of everything nested in it.
pub fn compute_dataflow_facts(
    proto: &ProtoEffects,
    g: &CfgGraph,
    graph: &GraphFacts,
) -> (r: Result<DataflowFacts, StructureError>)
    requires
        computable(proto, g, graph),
    ensures
        match r {
            Ok(f) => dataflow_fault(proto, g, graph) is None && dataflow_of(&f, proto, g, graph),
            Err(e) => dataflow_fault(proto, g, graph) == Some(e.fault),
        },
    decreases proto,
{
    let mut f = match compute_level(proto, &g.cfg, graph) {
        Ok(f) => f,
        Err(e) => {
            return Err(e);
        },
    };
    let ghost level = f;
    let a = if proto.children.len() < g.children.len() {
        proto.children.len()
    } else {
        g.children.len()
    };
    let n = if a < graph.children.len() {
        a
    } else {
        graph.children.len()
    };
    let mut children: Vec<DataflowFacts> = Vec::new();
    let mut i: usize = 0;
    while i < n
        invariant
            computable(proto, g, graph),
            n == nested_count(proto, g, graph),
            n <= proto.children@.len(),
            n <= g.children@.len(),
            n <= graph.children@.len(),
            bad_register(&g.cfg, proto.instr_effects@, proto.reg_count) is None,
            i <= n,
            children@.len() == i,
            nested_dataflow_fault(proto, g, graph, i as nat) is None,
            forall|k: int|
                0 <= k < i ==> dataflow_of(
                    &children@[k],
                    #[trigger] &proto.children@[k],
                    &g.children@[k],
                    &graph.children@[k],
                ),
        decreases n - i,
    {
        let ghost before = children@;
        assert(computable(&proto.children@[i as int], &g.children@[i as int], &graph.children@[i as int]));
        match compute_dataflow_facts(&proto.children[i], &g.children[i], &graph.children[i]) {
            Ok(c) => {
                children.push(c);
                proof {
                    assert forall|k: int| 0 <= k < i + 1 implies dataflow_of(
                        &children@[k],
                        #[trigger] &proto.children@[k],
                        &g.children@[k],
                        &graph.children@[k],
                    ) by {
                        if k < i {
                            assert(children@[k] == before[k]);
                            assert(dataflow_of(&before[k], &proto.children@[k], &g.children@[k], &graph.children@[k]));
                        }
                    }
                }
            },
            Err(e) => {
                proof {
                    assert(nested_dataflow_fault(proto, g, graph, (i + 1) as nat) == Some(e.fault));
                    nested_dataflow_fault_stable(proto, g, graph, (i + 1) as nat, n as nat);
                }
                return Err(e);
            },
        }
        i = i + 1;
    }
    f.children = children;
    proof {
        let (open, live, ssa) = choose|open: OpenAnalysis, live: BlockLiveness, ssa: SsaAnalysis| #[trigger]
            made_of(&level, proto, &g.cfg, graph, &open, &live, &ssa);
        assert(made_of(&f, proto, &g.cfg, graph, &open, &live, &ssa));
    }
    Ok(f)
}

proof fn nested_dataflow_fault_stable(proto: &ProtoEffects, g: &CfgGraph, graph: &GraphFacts, m: nat, n: nat)
    requires
        m <= n <= proto.children@.len(),
        nested_dataflow_fault(proto, g, graph, m) is Some,
    ensures
        nested_dataflow_fault(proto, g, graph, n) == nested_dataflow_fault(proto, g, graph, m),
    decreases n,
{
    if m < n {
        nested_dataflow_fault_stable(proto, g, graph, m, (n - 1) as nat);
    }
}

} // verus!
