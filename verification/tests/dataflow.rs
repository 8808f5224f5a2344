use structure::cfg::{BasicBlock, BlockKind, Cfg, CfgEdge, CfgGraph, EdgeKind, InstrRange};
use structure::compute::{compute_dataflow_facts, ProtoEffects};
use structure::dataflow::{
    DataflowFacts, DefId, InstrEffect, InstrUseValues, PhiCandidate, PhiId, PhiIncoming, SideEffectSummary, SsaRegMap,
    SsaValue,
};
use structure::error::Fault;
use structure::graph::analyze_graph_facts;
use structure::helpers::{
    collect_region_entry_edges, collect_region_exit_edges, collect_region_exits, is_reducible_region,
};
use structure::ids::{BlockRef, EdgeRef, InstrRef, Reg};
use structure::idset::IdSet;
use structure::uses::index_uses;

/// Blocks of one instruction each, then an empty exit.
fn graph(count: usize, edges: &[(usize, usize)]) -> Cfg {
    let mut blocks = Vec::new();
    for i in 0..count {
        blocks.push(BasicBlock {
            kind: BlockKind::Normal,
            instrs: InstrRange::new(InstrRef(i), 1),
        });
    }
    blocks.push(BasicBlock {
        kind: BlockKind::SyntheticExit,
        instrs: InstrRange::new(InstrRef(count), 0),
    });
    let mut preds = vec![Vec::new(); count + 1];
    let mut succs = vec![Vec::new(); count + 1];
    let mut list = Vec::new();
    for (i, (from, to)) in edges.iter().enumerate() {
        succs[*from].push(EdgeRef(i));
        preds[*to].push(EdgeRef(i));
        list.push(CfgEdge {
            from: BlockRef(*from),
            to: BlockRef(*to),
            kind: EdgeKind::Jump,
        });
    }
    let mut reachable = IdSet::new();
    let mut pending = vec![0];
    while let Some(b) = pending.pop() {
        if reachable.insert(BlockRef(b)) {
            for (from, to) in edges {
                if *from == b {
                    pending.push(*to);
                }
            }
        }
    }
    Cfg {
        blocks,
        edges: list,
        entry_block: BlockRef(0),
        exit_block: BlockRef(count),
        block_order: (0..count).map(BlockRef).collect(),
        instr_to_block: (0..count).map(BlockRef).collect(),
        preds,
        succs,
        reachable_blocks: reachable,
    }
}

fn regs(list: &[usize]) -> IdSet<Reg> {
    let mut r = IdSet::new();
    for x in list {
        r.insert(Reg(*x));
    }
    r
}

fn effect(uses: &[usize], defs: &[usize]) -> InstrEffect {
    InstrEffect {
        fixed_uses: regs(uses),
        fixed_must_defs: regs(defs),
        open_use: None,
        open_must_def: None,
    }
}

fn analyse(cfg: Cfg, effects: Vec<InstrEffect>, reg_count: usize) -> Result<DataflowFacts, Fault> {
    let n = effects.len();
    let graphs = CfgGraph {
        cfg,
        children: Vec::new(),
    };
    let facts = match analyze_graph_facts(&graphs) {
        Ok(facts) => facts,
        Err(error) => return Err(error.fault),
    };
    let proto = ProtoEffects {
        instr_effects: effects,
        effect_summaries: (0..n).map(|_| SideEffectSummary { tags: Vec::new() }).collect(),
        reg_count,
        entry_open_start: None,
        children: Vec::new(),
    };
    compute_dataflow_facts(&proto, &graphs, &facts).map_err(|error| error.fault)
}

fn diamond() -> DataflowFacts {
    let cfg = graph(4, &[(0, 1), (0, 2), (1, 3), (2, 3), (3, 4)]);
    let effects = vec![effect(&[], &[1]), effect(&[], &[0]), effect(&[], &[0]), effect(&[0, 1], &[])];
    match analyse(cfg, effects, 2) {
        Ok(facts) => facts,
        Err(fault) => panic!("{fault:?}"),
    }
}

#[test]
fn two_definitions_meet_in_a_phi() {
    let facts = diamond();
    assert_eq!(facts.defs.len(), 3);
    assert_eq!(facts.phi_candidates.len(), 1);
    let phi = &facts.phi_candidates[0];
    assert_eq!(phi.block, BlockRef(3));
    assert_eq!(phi.reg, Reg(0));
    assert_eq!(phi.incoming.len(), 2);
    assert_eq!(phi.incoming[0].edge, Some(EdgeRef(2)));
    assert_eq!(phi.incoming[0].value, SsaValue::Def(DefId(1)));
    assert_eq!(phi.incoming[1].edge, Some(EdgeRef(3)));
    assert_eq!(phi.incoming[1].value, SsaValue::Def(DefId(2)));
    assert_eq!(facts.use_value(InstrRef(3), Reg(0)), SsaValue::Phi(PhiId(0)));
    assert_eq!(facts.use_value(InstrRef(3), Reg(1)), SsaValue::Def(DefId(0)));
}

#[test]
fn every_edge_brings_the_value_or_feeds_the_phi() {
    let facts = diamond();
    assert_eq!(facts.block_entry_value(BlockRef(3), Reg(0)), SsaValue::Phi(PhiId(0)));
    assert_eq!(facts.block_exit_value(BlockRef(1), Reg(0)), SsaValue::Def(DefId(1)));
    assert_eq!(facts.block_exit_value(BlockRef(2), Reg(0)), SsaValue::Def(DefId(2)));
    assert_eq!(facts.block_entry_value(BlockRef(3), Reg(1)), SsaValue::Def(DefId(0)));
    assert_eq!(facts.block_exit_value(BlockRef(1), Reg(1)), SsaValue::Def(DefId(0)));
    assert_eq!(facts.block_exit_value(BlockRef(2), Reg(1)), SsaValue::Def(DefId(0)));
}

#[test]
fn liveness_is_what_is_still_read() {
    let facts = diamond();
    assert_eq!(facts.live_in_regs(BlockRef(0)).to_vec(), vec![]);
    assert_eq!(facts.live_in_regs(BlockRef(1)).to_vec(), vec![Reg(1)]);
    assert_eq!(facts.live_out_regs(BlockRef(1)).to_vec(), vec![Reg(0), Reg(1)]);
    assert_eq!(facts.live_in_regs(BlockRef(3)).to_vec(), vec![Reg(0), Reg(1)]);
    assert_eq!(facts.live_out_regs(BlockRef(3)).to_vec(), vec![]);
}

#[test]
fn uses_are_indexed() {
    let facts = diamond();
    assert_eq!(facts.def_phi_uses[1], vec![PhiId(0)]);
    assert_eq!(facts.def_uses[0].len(), 1);
    assert_eq!(facts.def_uses[0][0].instr, InstrRef(3));
    assert_eq!(facts.phi_use_count(PhiId(0)), 1);
    assert!(facts.phi_used_only_in_block(PhiId(0), BlockRef(3)));
    assert!(facts.value_used_only_by(SsaValue::Def(DefId(0)), InstrRef(3), Reg(1)));
    assert!(!facts.value_used_only_by(SsaValue::Def(DefId(1)), InstrRef(3), Reg(0)));
    assert!(facts.value_contains(SsaValue::Phi(PhiId(0)), SsaValue::Def(DefId(2))));
    assert_eq!(facts.leaf_defs(SsaValue::Phi(PhiId(0))).to_vec(), vec![DefId(1), DefId(2)]);
    assert!(facts.compute_truly_dead_phis().is_empty());
}

#[test]
fn a_loop_carries_its_variable() {
    let cfg = graph(4, &[(0, 1), (1, 2), (2, 1), (1, 3), (3, 4)]);
    let effects = vec![effect(&[], &[0]), effect(&[0], &[]), effect(&[0], &[0]), effect(&[0], &[])];
    let facts = match analyse(cfg, effects, 1) {
        Ok(facts) => facts,
        Err(fault) => panic!("{fault:?}"),
    };
    assert_eq!(facts.phi_candidates.len(), 1);
    let phi = &facts.phi_candidates[0];
    assert_eq!(phi.block, BlockRef(1));
    assert_eq!(phi.incoming[0].value, SsaValue::Def(DefId(0)));
    assert_eq!(phi.incoming[1].value, SsaValue::Def(DefId(1)));
    assert_eq!(facts.use_value(InstrRef(3), Reg(0)), SsaValue::Phi(PhiId(0)));
    assert_eq!(facts.phi_candidate_for_reg(BlockRef(1), Reg(0)).map(|phi| phi.id), Some(PhiId(0)));
    assert!(facts.phi_candidate_for_reg(BlockRef(2), Reg(0)).is_none());
    assert_eq!(facts.phi_candidates_in_block(BlockRef(1)).len(), 1);
}

#[test]
fn the_entry_of_a_function_can_be_a_loop() {
    let cfg = graph(2, &[(0, 1), (1, 0), (0, 2)]);
    let effects = vec![effect(&[0], &[]), effect(&[], &[0])];
    let facts = match analyse(cfg, effects, 1) {
        Ok(facts) => facts,
        Err(fault) => panic!("{fault:?}"),
    };
    assert_eq!(facts.phi_candidates.len(), 1);
    let phi = &facts.phi_candidates[0];
    assert_eq!(phi.block, BlockRef(0));
    assert_eq!(phi.incoming[0].edge, None);
    assert_eq!(phi.incoming[0].value, SsaValue::Entry(Reg(0)));
    assert_eq!(phi.incoming[1].edge, Some(EdgeRef(1)));
    assert_eq!(phi.incoming[1].value, SsaValue::Def(DefId(0)));
}

#[test]
fn a_value_that_is_not_read_needs_no_phi() {
    let cfg = graph(4, &[(0, 1), (0, 2), (1, 3), (2, 3), (3, 4)]);
    let effects = vec![effect(&[], &[]), effect(&[], &[0]), effect(&[], &[0]), effect(&[], &[])];
    match analyse(cfg, effects, 1) {
        Ok(facts) => assert!(facts.phi_candidates.is_empty()),
        Err(fault) => panic!("{fault:?}"),
    }
}

#[test]
fn unreachable_instructions_read_nothing() {
    let cfg = graph(3, &[(0, 1), (1, 3), (2, 1)]);
    let effects = vec![effect(&[], &[0]), effect(&[0], &[]), effect(&[0], &[0])];
    let facts = match analyse(cfg, effects, 1) {
        Ok(facts) => facts,
        Err(fault) => panic!("{fault:?}"),
    };
    assert_eq!(facts.use_value(InstrRef(1), Reg(0)), SsaValue::Def(DefId(0)));
    assert_eq!(facts.use_values_at(InstrRef(2)).len(), 0);
}

#[test]
fn a_register_that_does_not_exist_is_refused() {
    let cfg = graph(2, &[(0, 1), (1, 2)]);
    let effects = vec![effect(&[], &[0]), effect(&[4], &[])];
    match analyse(cfg, effects, 2) {
        Ok(_) => panic!("the register was accepted"),
        Err(fault) => assert_eq!(fault, Fault::LivenessRegister(Reg(4), 2)),
    }
}

#[test]
fn an_open_use_reads_up_to_the_open_definition() {
    // r1 = ..; r2.. = call; return r1..
    let cfg = graph(3, &[(0, 1), (1, 2), (2, 3)]);
    let mut call = effect(&[], &[]);
    call.open_must_def = Some(Reg(2));
    let mut give = effect(&[], &[]);
    give.open_use = Some(Reg(1));
    let facts = match analyse(cfg, vec![effect(&[], &[1]), call, give], 3) {
        Ok(facts) => facts,
        Err(fault) => panic!("{fault:?}"),
    };
    assert_eq!(facts.open_defs.len(), 1);
    assert_eq!(facts.open_defs[0].instr, InstrRef(1));
    let sources = facts.open_use_sources_at(InstrRef(2));
    assert!(!sources.has_entry());
    assert_eq!(sources.defs().to_vec().len(), 1);
    assert!(facts.live_in_regs(BlockRef(2)).contains(Reg(1)));
    assert!(facts.block_open_live_in(BlockRef(2)));
    assert!(!facts.block_open_live_in(BlockRef(1)));
}

#[test]
fn nested_prototypes_are_analysed() {
    let inner = CfgGraph {
        cfg: graph(1, &[(0, 1)]),
        children: Vec::new(),
    };
    let graphs = CfgGraph {
        cfg: graph(1, &[(0, 1)]),
        children: vec![inner],
    };
    let facts = match analyze_graph_facts(&graphs) {
        Ok(facts) => facts,
        Err(error) => panic!("{}", error.detail()),
    };
    let nested = ProtoEffects {
        instr_effects: vec![effect(&[9], &[])],
        effect_summaries: vec![SideEffectSummary { tags: Vec::new() }],
        reg_count: 3,
        entry_open_start: None,
        children: Vec::new(),
    };
    let proto = ProtoEffects {
        instr_effects: vec![effect(&[], &[0])],
        effect_summaries: vec![SideEffectSummary { tags: Vec::new() }],
        reg_count: 1,
        entry_open_start: None,
        children: vec![nested],
    };
    match compute_dataflow_facts(&proto, &graphs, &facts) {
        Ok(_) => panic!("the nested register was accepted"),
        Err(error) => assert_eq!(error.fault, Fault::LivenessRegister(Reg(9), 3)),
    }
}

#[test]
fn an_instruction_defines_what_it_always_writes() {
    let facts = diamond();
    let cfg = graph(4, &[(0, 1), (0, 2), (1, 3), (2, 3), (3, 4)]);
    assert_eq!(facts.instr_def_for_reg(InstrRef(0), Reg(1)), Some(DefId(0)));
    assert_eq!(facts.instr_def_for_reg(InstrRef(0), Reg(0)), None);
    assert_eq!(facts.instr_def_for_reg(InstrRef(2), Reg(0)), Some(DefId(2)));
    assert_eq!(facts.instr_def_for_reg(InstrRef(3), Reg(0)), None);
    assert_eq!(facts.instr_def_for_reg(InstrRef(9), Reg(0)), None);
    assert_eq!(facts.def_instr(DefId(2)), InstrRef(2));
    assert_eq!(facts.def_reg(DefId(2)), Reg(0));
    assert_eq!(facts.def_block(DefId(2)), cfg.instr_to_block[2]);
}

#[test]
fn the_phis_of_a_block_stand_by_register() {
    let cfg = graph(7, &[(0, 1), (0, 2), (1, 3), (2, 3), (3, 4), (3, 5), (4, 6), (5, 6), (6, 7)]);
    let effects = vec![
        effect(&[], &[]),
        effect(&[], &[0, 1]),
        effect(&[], &[0, 1]),
        effect(&[0, 1], &[]),
        effect(&[], &[1]),
        effect(&[], &[1]),
        effect(&[1], &[]),
    ];
    let facts = match analyse(cfg, effects, 2) {
        Ok(facts) => facts,
        Err(fault) => panic!("{fault:?}"),
    };
    let regs_at = |block: usize| -> Vec<(PhiId, Reg)> {
        facts.phi_candidates_in_block(BlockRef(block)).iter().map(|phi| (phi.id, phi.reg)).collect()
    };
    assert_eq!(regs_at(3), vec![(PhiId(0), Reg(0)), (PhiId(1), Reg(1))]);
    assert_eq!(regs_at(6), vec![(PhiId(2), Reg(1))]);
    let mut all = Vec::new();
    for block in 0..8 {
        for phi in facts.phi_candidates_in_block(BlockRef(block)) {
            assert_eq!(phi.block, BlockRef(block));
            all.push(phi.id);
        }
    }
    assert_eq!(all, vec![PhiId(0), PhiId(1), PhiId(2)]);
    assert_eq!(facts.phi_candidates.len(), 3);
    assert!(regs_at(20).is_empty());
}

fn blocks(list: &[usize]) -> IdSet<BlockRef> {
    let mut r = IdSet::new();
    for x in list {
        r.insert(BlockRef(*x));
    }
    r
}

#[test]
fn only_reads_are_uses_outside() {
    // The phi at 3 is read only through the phi at 5.
    let edges = [(0, 1), (0, 2), (0, 4), (1, 3), (2, 3), (3, 5), (4, 5), (5, 6)];
    let effects = vec![
        effect(&[], &[]),
        effect(&[], &[0]),
        effect(&[], &[0]),
        effect(&[], &[]),
        effect(&[], &[0]),
        effect(&[0], &[]),
    ];
    let facts = match analyse(graph(6, &edges), effects, 1) {
        Ok(facts) => facts,
        Err(fault) => panic!("{fault:?}"),
    };
    let cfg = graph(6, &edges);
    assert_eq!(facts.phi_candidates.len(), 2);
    assert_eq!(facts.use_value(InstrRef(5), Reg(0)), SsaValue::Phi(PhiId(1)));
    assert!(facts.value_contains(SsaValue::Phi(PhiId(1)), SsaValue::Def(DefId(0))));
    assert!(facts.def_has_use_outside(&cfg, DefId(0), &blocks(&[])));
    assert!(facts.def_has_use_outside(&cfg, DefId(0), &blocks(&[1, 3])));
    assert!(!facts.def_has_use_outside(&cfg, DefId(0), &blocks(&[5])));
    assert!(!facts.def_has_use_outside(&cfg, DefId(0), &blocks(&[3, 5])));
    assert!(!facts.def_has_use_outside(&cfg, DefId(9), &blocks(&[])));
}

#[test]
fn parallel_edges_lead_to_one_block() {
    let cfg = graph(2, &[(0, 1), (0, 1), (1, 2)]);
    assert_eq!(cfg.unique_reachable_successor(BlockRef(0)), Some(BlockRef(1)));
    assert_eq!(cfg.unique_reachable_successor(BlockRef(2)), None);
    assert_eq!(cfg.unique_reachable_predecessor(BlockRef(1), &blocks(&[0]), false), Some(BlockRef(0)));
    assert_eq!(cfg.unique_reachable_predecessor(BlockRef(1), &blocks(&[0]), true), None);
    let fork = graph(3, &[(0, 1), (0, 2), (1, 2), (2, 3)]);
    assert_eq!(fork.unique_reachable_successor(BlockRef(0)), None);
    assert_eq!(fork.unique_reachable_successor(BlockRef(1)), Some(BlockRef(2)));
    assert_eq!(fork.unique_reachable_predecessor(BlockRef(2), &blocks(&[]), true), None);
    assert_eq!(fork.unique_reachable_predecessor(BlockRef(2), &blocks(&[1]), true), Some(BlockRef(0)));
}

fn edge(from: usize, to: usize, kind: EdgeKind) -> CfgEdge {
    CfgEdge {
        from: BlockRef(from),
        to: BlockRef(to),
        kind,
    }
}

#[test]
fn queries_read_only_the_lists_that_they_need() {
    let cfg = Cfg {
        edges: vec![edge(0, 1, EdgeKind::BranchTrue), edge(0, 1, EdgeKind::BranchFalse)],
        succs: vec![vec![EdgeRef(0), EdgeRef(1)], Vec::new()],
        reachable_blocks: blocks(&[0, 1]),
        ..Default::default()
    };
    assert_eq!(cfg.unique_reachable_successor(BlockRef(0)), Some(BlockRef(1)));
    assert_eq!(cfg.unique_reachable_successor(BlockRef(1)), None);
    assert_eq!(cfg.reachable_successors(BlockRef(0)), vec![BlockRef(1)]);
    assert_eq!(cfg.branch_edges(BlockRef(0)), Some((EdgeRef(0), EdgeRef(1))));
    assert_eq!(cfg.branch_edges(BlockRef(1)), None);
    assert!(cfg.can_reach(BlockRef(0), BlockRef(1)));
    assert!(!cfg.can_reach(BlockRef(1), BlockRef(0)));
    assert!(cfg.can_reach(BlockRef(9), BlockRef(9)));
    assert!(cfg.can_reach_within(BlockRef(0), BlockRef(1), &blocks(&[0])));
    assert!(!cfg.can_reach_within(BlockRef(0), BlockRef(1), &blocks(&[1])));
    assert_eq!(collect_region_exit_edges(&cfg, &blocks(&[0])), vec![EdgeRef(0), EdgeRef(1)]);
    assert_eq!(collect_region_exits(&cfg, &blocks(&[0])).to_vec(), vec![BlockRef(1)]);
    let cfg = Cfg {
        edges: vec![edge(2, 0, EdgeKind::Jump), edge(1, 0, EdgeKind::Jump), edge(3, 0, EdgeKind::Jump)],
        preds: vec![vec![EdgeRef(0), EdgeRef(1), EdgeRef(2)]],
        reachable_blocks: blocks(&[0, 1, 2]),
        ..Default::default()
    };
    assert_eq!(cfg.reachable_predecessors(BlockRef(0)), vec![BlockRef(1), BlockRef(2)]);
    assert_eq!(cfg.unique_reachable_predecessor(BlockRef(0), &blocks(&[2]), false), Some(BlockRef(2)));
    assert_eq!(collect_region_entry_edges(&cfg, &blocks(&[0])), vec![EdgeRef(0), EdgeRef(1)]);
    assert!(is_reducible_region(&cfg, BlockRef(0), &blocks(&[0])));
    assert!(!is_reducible_region(&cfg, BlockRef(5), &blocks(&[0])));
}

#[test]
fn what_is_read_or_flows_in_is_there() {
    let cfg = graph(2, &[(0, 1), (1, 2)]);
    let reads = |value: SsaValue| InstrUseValues {
        fixed: SsaRegMap::from_sorted_entries(vec![(Reg(0), value)]),
    };
    let phi = |values: &[SsaValue]| PhiCandidate {
        id: PhiId(0),
        block: BlockRef(1),
        reg: Reg(0),
        incoming: values
            .iter()
            .map(|value| PhiIncoming {
                edge: None,
                pred: None,
                value: *value,
            })
            .collect(),
    };
    let entry = SsaValue::Entry(Reg(0));
    let refused = |phis: Vec<PhiCandidate>, uses: Vec<InstrUseValues>| match index_uses(&cfg, 1, &phis, &uses) {
        Ok(_) => panic!("the uses were accepted"),
        Err(error) => error.detail(),
    };
    assert_eq!(
        refused(Vec::new(), vec![reads(entry), reads(entry), reads(entry)]),
        "SSA use table contains missing instruction @2"
    );
    assert_eq!(
        refused(Vec::new(), vec![reads(SsaValue::Def(DefId(1)))]),
        "SSA use references missing definition DefId(1)"
    );
    assert!(refused(Vec::new(), vec![reads(SsaValue::Phi(PhiId(0)))]).starts_with("SSA use references missing "));
    assert!(
        refused(vec![phi(&[SsaValue::Def(DefId(4))])], Vec::new()).ends_with(" references missing definition DefId(4)")
    );
    assert!(refused(vec![phi(&[SsaValue::Phi(PhiId(3))])], Vec::new()).contains(" references missing source "));
    let phis = vec![phi(&[SsaValue::Phi(PhiId(0)), SsaValue::Def(DefId(0))])];
    match index_uses(&cfg, 1, &phis, &vec![reads(SsaValue::Phi(PhiId(0)))]) {
        Ok(index) => {
            assert_eq!(index.def_phi_uses[0], vec![PhiId(0)]);
            assert!(index.phi_phi_uses[0].is_empty());
            assert_eq!(index.phi_use_blocks[0], Some(BlockRef(0)));
        }
        Err(error) => panic!("{}", error.detail()),
    }
}

#[test]
fn a_phi_without_rows_is_passed_over() {
    let mut facts = diamond();
    let cfg = graph(4, &[(0, 1), (0, 2), (1, 3), (2, 3), (3, 4)]);
    assert!(facts.def_has_use_outside(&cfg, DefId(1), &blocks(&[1])));
    facts.phi_uses.clear();
    facts.phi_phi_uses.clear();
    assert!(!facts.def_has_use_outside(&cfg, DefId(1), &blocks(&[1])));
    facts.def_phi_uses.clear();
    assert!(!facts.def_has_use_outside(&cfg, DefId(1), &blocks(&[])));
    assert!(facts.def_has_use_outside(&cfg, DefId(0), &blocks(&[0])));
}
