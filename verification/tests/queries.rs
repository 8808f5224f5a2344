use structure::callees::{short_circuit_phi_facts, value_leaf_is_current};
use structure::cfg::{BasicBlock, BlockKind, Cfg, CfgEdge, CfgGraph, EdgeKind, InstrRange};
use structure::collapse::trivial_phi_replacements;
use structure::compute::{compute_dataflow_facts, ProtoEffects};
use structure::dataflow::{
    DataflowFacts, DefId, InstrEffect, PhiCandidate, PhiId, PhiIncoming, SideEffectSummary, SsaRegMap, SsaValue,
};
use structure::debug_bindings::{analyze_debug_bindings, low_instr_at_or_after_pc, DebugInfo, DebugLocal};
use structure::diagnostic::dump_dataflow_proto;
use structure::error::Fault;
use structure::evidence::{BranchKind, BranchRegionDomain, BranchRegionFact, BranchRegionSpan};
use structure::graph::{analyze_graph_facts, GraphFacts};
use structure::ids::{BlockRef, EdgeRef, InstrRef, Reg};
use structure::idset::IdSet;
use structure::lir::{
    BranchCond, BranchInstr, BranchSubject, CompareKind, CondOperand, LoadInstr, LowInstr, LoweredProto, MoveInstr,
};
use structure::loopforest::NaturalLoopId;
use structure::moves::CanonicalMoveIndex;
use structure::plan::{EdgeTransfer, PlanRequirement, PlanRequirementId, PlanRequirements, RegionId};
use structure::plan_text::write_goto_reason;
use structure::text::{put_number, put_padded, write_block_set, write_value};

/// Blocks of one instruction each, then an empty exit.
fn graph(count: usize, edges: &[(usize, usize)]) -> Cfg {
    let mut blocks = Vec::new();
    for i in 0..count {
        blocks.push(BasicBlock {
            kind: BlockKind::Normal,
            instrs: InstrRange::new(InstrRef(i), 1),
        });
    }
    blocks.push(BasicBlock {
        kind: BlockKind::SyntheticExit,
        instrs: InstrRange::new(InstrRef(count), 0),
    });
    let mut preds = vec![Vec::new(); count + 1];
    let mut succs = vec![Vec::new(); count + 1];
    let mut list = Vec::new();
    for (i, (from, to)) in edges.iter().enumerate() {
        succs[*from].push(EdgeRef(i));
        preds[*to].push(EdgeRef(i));
        list.push(CfgEdge {
            from: BlockRef(*from),
            to: BlockRef(*to),
            kind: EdgeKind::Jump,
        });
    }
    let mut reachable = IdSet::new();
    let mut pending = vec![0];
    while let Some(b) = pending.pop() {
        if reachable.insert(BlockRef(b)) {
            for (from, to) in edges {
                if *from == b {
                    pending.push(*to);
                }
            }
        }
    }
    Cfg {
        blocks,
        edges: list,
        entry_block: BlockRef(0),
        exit_block: BlockRef(count),
        block_order: (0..count).map(BlockRef).collect(),
        instr_to_block: (0..count).map(BlockRef).collect(),
        preds,
        succs,
        reachable_blocks: reachable,
    }
}

struct Facts {
    graphs: CfgGraph,
    graph: GraphFacts,
    dataflow: DataflowFacts,
}

fn facts(cfg: Cfg, effects: &[(&[usize], &[usize])], reg_count: usize) -> Facts {
    let graphs = CfgGraph {
        cfg,
        children: Vec::new(),
    };
    let graph = match analyze_graph_facts(&graphs) {
        Ok(graph) => graph,
        Err(error) => panic!("{}", error.detail()),
    };
    let mut list = Vec::new();
    for (uses, defs) in effects {
        let mut effect = InstrEffect {
            fixed_uses: IdSet::new(),
            fixed_must_defs: IdSet::new(),
            open_use: None,
            open_must_def: None,
        };
        for reg in *uses {
            effect.fixed_uses.insert(Reg(*reg));
        }
        for reg in *defs {
            effect.fixed_must_defs.insert(Reg(*reg));
        }
        list.push(effect);
    }
    let proto = ProtoEffects {
        effect_summaries: list.iter().map(|_| SideEffectSummary { tags: Vec::new() }).collect(),
        instr_effects: list,
        reg_count,
        entry_open_start: None,
        children: Vec::new(),
    };
    let dataflow = match compute_dataflow_facts(&proto, &graphs, &graph) {
        Ok(dataflow) => dataflow,
        Err(error) => panic!("{}", error.detail()),
    };
    Facts {
        graphs,
        graph,
        dataflow,
    }
}

#[test]
fn a_set_is_kept_in_order() {
    let mut set = IdSet::new();
    assert!(set.insert(Reg(4)));
    assert!(set.insert(Reg(1)));
    assert!(!set.insert(Reg(4)));
    assert_eq!(set.to_vec(), vec![Reg(1), Reg(4)]);
    assert!(set.contains(Reg(1)));
    set.remove(Reg(1));
    assert_eq!(set.len(), 1);
    let mut other = IdSet::singleton(Reg(9));
    assert!(set.is_disjoint(&other));
    other.extend(&set);
    assert!(set.is_subset(&other));
    assert!(!other.is_subset(&set));
    assert!(!set.same_members(&other));
}

#[test]
fn loops_know_the_loops_around_them() {
    let facts = facts(
        graph(5, &[(0, 1), (1, 2), (2, 3), (3, 2), (2, 4), (4, 1), (1, 5)]),
        &[(&[], &[]), (&[], &[]), (&[], &[]), (&[], &[]), (&[], &[])],
        1,
    );
    let forest = facts.graph.natural_loop_forest();
    assert_eq!(forest.len(), 2);
    assert_eq!(forest.loop_for_header(BlockRef(2)), Some(NaturalLoopId(1)));
    assert_eq!(forest.loop_for_header(BlockRef(3)), None);
    assert_eq!(forest.innermost_loop(BlockRef(3)), Some(NaturalLoopId(1)));
    assert_eq!(forest.innermost_loop(BlockRef(4)), Some(NaturalLoopId(0)));
    assert_eq!(forest.innermost_loop(BlockRef(0)), None);
    assert_eq!(forest.parent_of(NaturalLoopId(1)), Some(NaturalLoopId(0)));
    assert!(forest.contains(NaturalLoopId(0), BlockRef(3)));
    assert!(!forest.contains(NaturalLoopId(1), BlockRef(4)));
    assert!(forest.is_ancestor_or_self(NaturalLoopId(0), NaturalLoopId(1)));
    assert_eq!(forest.direct_blocks(NaturalLoopId(0)), vec![BlockRef(1), BlockRef(4)]);
    assert_eq!(forest.children_of(NaturalLoopId(0)), vec![NaturalLoopId(1)]);
    let mut ancestors = forest.ancestors_of(BlockRef(3));
    assert_eq!(ancestors.advance(), Some(NaturalLoopId(1)));
    assert_eq!(ancestors.advance(), Some(NaturalLoopId(0)));
    assert_eq!(ancestors.advance(), None);
}

#[test]
fn a_loop_has_blocks_to_itself() {
    let facts = facts(
        graph(5, &[(0, 1), (1, 2), (2, 3), (3, 2), (2, 4), (4, 1), (1, 5)]),
        &[(&[], &[]), (&[], &[]), (&[], &[]), (&[], &[]), (&[], &[])],
        1,
    );
    let forest = facts.graph.natural_loop_forest();
    let mut total = 0;
    for l in 0..forest.len() {
        let own = forest.direct_blocks(NaturalLoopId(l));
        total += own.len();
        for b in own {
            assert_eq!(forest.innermost_loop(b), Some(NaturalLoopId(l)));
            assert!(facts.graph.natural_loops[l].blocks.contains(b));
            for c in forest.children_of(NaturalLoopId(l)) {
                assert!(!facts.graph.natural_loops[c.index()].blocks.contains(b));
            }
        }
    }
    assert_eq!(total, 4);
    assert!(forest.direct_blocks(NaturalLoopId(9)).is_empty());
    for b in 0..6 {
        let mut around = Vec::new();
        let mut walk = forest.ancestors_of(BlockRef(b));
        while let Some(l) = walk.advance() {
            around.push(l);
        }
        for l in 0..3 {
            assert_eq!(around.contains(&NaturalLoopId(l)), forest.contains(NaturalLoopId(l), BlockRef(b)));
        }
        for pair in around.windows(2) {
            let inner = &facts.graph.natural_loops[pair[0].index()].blocks;
            let outer = &facts.graph.natural_loops[pair[1].index()].blocks;
            assert!(inner.is_subset(outer) && inner.len() < outer.len());
        }
    }
}

#[test]
fn a_region_lists_its_blocks() {
    let facts = facts(
        graph(4, &[(0, 1), (0, 2), (1, 3), (2, 3), (3, 4)]),
        &[(&[], &[]), (&[], &[]), (&[], &[]), (&[], &[])],
        1,
    );
    let mut region = BranchRegionFact {
        header: BlockRef(0),
        merge: BlockRef(3),
        kind: BranchKind::IfElse,
        single_pass_fence: None,
        domain: BranchRegionDomain {
            spans: vec![BranchRegionSpan {
                root: BlockRef(0),
                excluded_subtrees: vec![BlockRef(3)],
            }],
            included_blocks: Vec::new(),
        },
    };
    match region.structured_blocks(&facts.graph) {
        Ok(blocks) => assert_eq!(blocks, vec![BlockRef(0), BlockRef(1), BlockRef(2)]),
        Err(block) => panic!("{block:?} is missing"),
    }
    region.replace_domain(BranchRegionDomain {
        spans: Vec::new(),
        included_blocks: vec![BlockRef(2), BlockRef(1), BlockRef(2)],
    });
    assert_eq!(region.domain.included_blocks, vec![BlockRef(1), BlockRef(2)]);
    region.replace_domain(BranchRegionDomain {
        spans: Vec::new(),
        included_blocks: vec![BlockRef(70)],
    });
    match region.structured_blocks(&facts.graph) {
        Ok(_) => panic!("the block was accepted"),
        Err(block) => assert_eq!(block, BlockRef(70)),
    }
}

fn phi(id: usize, values: &[SsaValue]) -> PhiCandidate {
    PhiCandidate {
        id: PhiId(id),
        block: BlockRef(id),
        reg: Reg(0),
        incoming: values
            .iter()
            .map(|value| PhiIncoming {
                edge: None,
                pred: None,
                value: *value,
            })
            .collect(),
    }
}

#[test]
fn phis_with_one_value_are_dissolved() {
    let d0 = SsaValue::Def(DefId(0));
    let d1 = SsaValue::Def(DefId(1));
    let p0 = SsaValue::Phi(PhiId(0));
    let p1 = SsaValue::Phi(PhiId(1));
    let p2 = SsaValue::Phi(PhiId(2));
    // p0 = (d0, p0), p1 = (p0, d0), p2 = (p1, d1)
    let phis = vec![phi(0, &[d0, p0]), phi(1, &[p0, d0]), phi(2, &[p1, d1])];
    assert_eq!(trivial_phi_replacements(&phis), vec![d0, d0, p2]);
}

#[test]
fn phis_that_take_only_each_other_become_one() {
    let p = |id: usize| SsaValue::Phi(PhiId(id));
    let phis = vec![phi(0, &[p(2), p(1)]), phi(1, &[p(2)]), phi(2, &[p(0)])];
    assert_eq!(trivial_phi_replacements(&phis), vec![p(0), p(0), p(0)]);
}

#[test]
fn a_phi_is_looked_at_again_when_an_operand_is_replaced() {
    let d0 = SsaValue::Def(DefId(0));
    let d1 = SsaValue::Def(DefId(1));
    let p = |id: usize| SsaValue::Phi(PhiId(id));
    let phis = vec![phi(0, &[p(1), d0]), phi(1, &[d0])];
    assert_eq!(trivial_phi_replacements(&phis), vec![d0, d0]);
    // Phi 3 takes phi 0 only through phi 2, so it is not looked at again when phi 0 goes.
    let phis = vec![
        phi(0, &[d0, p(4)]),
        phi(1, &[p(0), p(2), d1]),
        phi(2, &[p(0)]),
        phi(3, &[p(2), d0]),
        phi(4, &[d0]),
    ];
    assert_eq!(trivial_phi_replacements(&phis), vec![d0, p(1), d0, p(3), d0]);
}

#[test]
fn moves_lead_back_to_their_source() {
    // r0 = k; r1 = r0; r2 = r1
    let facts = facts(
        graph(3, &[(0, 1), (1, 2), (2, 3)]),
        &[(&[], &[0]), (&[0], &[1]), (&[1], &[2])],
        3,
    );
    let proto = LoweredProto {
        instrs: vec![
            LowInstr::LoadConst(LoadInstr { dst: Reg(0) }),
            LowInstr::Move(MoveInstr {
                dst: Reg(1),
                src: Reg(0),
            }),
            LowInstr::Move(MoveInstr {
                dst: Reg(2),
                src: Reg(1),
            }),
        ],
    };
    let index = CanonicalMoveIndex::new(&proto, &facts.dataflow);
    match index.resolve(SsaValue::Def(DefId(2))) {
        Ok(value) => assert_eq!(value, SsaValue::Def(DefId(0))),
        Err(error) => panic!("{}", error.detail()),
    }
    match index.resolve(SsaValue::Entry(Reg(7))) {
        Ok(value) => assert_eq!(value, SsaValue::Entry(Reg(7))),
        Err(error) => panic!("{}", error.detail()),
    }
    match index.resolve(SsaValue::Def(DefId(9))) {
        Ok(_) => panic!("the definition was accepted"),
        Err(error) => assert_eq!(error.fault, Fault::MoveMissingDef(DefId(9))),
    }
    let short = LoweredProto { instrs: Vec::new() };
    match CanonicalMoveIndex::new(&short, &facts.dataflow).resolve(SsaValue::Def(DefId(0))) {
        Ok(_) => panic!("the prototype was accepted"),
        Err(error) => assert_eq!(error.fault, Fault::MoveOutsideProto(DefId(0))),
    }
}

#[test]
fn a_leaf_is_the_tested_value() {
    // r0 = k; test r0; r1 = r0
    let facts = facts(
        graph(3, &[(0, 1), (1, 2), (2, 3)]),
        &[(&[], &[0]), (&[0], &[]), (&[0], &[1])],
        2,
    );
    let test = BranchInstr {
        cond: BranchCond {
            subject: BranchSubject::Truthy(CondOperand::Reg(Reg(0))),
            negated: false,
        },
        then_target: InstrRef(2),
        else_target: InstrRef(2),
    };
    let proto = LoweredProto {
        instrs: vec![
            LowInstr::LoadConst(LoadInstr { dst: Reg(0) }),
            LowInstr::Branch(test),
            LowInstr::Move(MoveInstr {
                dst: Reg(1),
                src: Reg(0),
            }),
        ],
    };
    let tested = SsaValue::Def(DefId(0));
    let moved = SsaValue::Def(DefId(1));
    let at = InstrRef(1);
    assert!(value_leaf_is_current(&proto, &facts.dataflow, at, &test, Reg(1), tested, None));
    assert!(value_leaf_is_current(&proto, &facts.dataflow, at, &test, Reg(1), moved, Some(DefId(1))));
    assert!(!value_leaf_is_current(&proto, &facts.dataflow, at, &test, Reg(0), moved, Some(DefId(1))));
    assert!(!value_leaf_is_current(&proto, &facts.dataflow, at, &test, Reg(1), moved, None));
    let mut compare = test;
    compare.cond.subject = BranchSubject::Compare(CompareKind::Lt, CondOperand::Reg(Reg(0)), CondOperand::Nil);
    assert!(!value_leaf_is_current(&proto, &facts.dataflow, at, &compare, Reg(1), tested, None));
}

#[test]
fn leaves_name_what_they_leave() {
    let facts = facts(
        graph(4, &[(0, 1), (0, 2), (1, 3), (2, 3), (3, 4)]),
        &[(&[], &[0]), (&[], &[0]), (&[], &[]), (&[0], &[])],
        1,
    );
    let mut leaves = IdSet::new();
    leaves.insert(BlockRef(2));
    leaves.insert(BlockRef(1));
    let found = short_circuit_phi_facts(&facts.dataflow, BlockRef(0), Reg(0), &leaves);
    assert_eq!(found.entry_value, SsaValue::Def(DefId(0)));
    assert_eq!(found.value_incomings.len(), 2);
    assert_eq!(found.value_incomings[0].pred, BlockRef(1));
    assert_eq!(found.value_incomings[0].latest_local_def, Some(DefId(1)));
    assert_eq!(found.value_incomings[1].value, SsaValue::Def(DefId(0)));
    assert_eq!(found.value_incomings[1].latest_local_def, None);
}

#[test]
fn variables_start_with_values() {
    let facts = facts(
        graph(3, &[(0, 1), (1, 2), (2, 3)]),
        &[(&[], &[0]), (&[0], &[1]), (&[0, 1], &[])],
        2,
    );
    let local = |reg: usize, start: u32| DebugLocal {
        reg: Reg(reg),
        start_pc: start,
        end_pc: 9,
        is_source: true,
    };
    let info = DebugInfo {
        locals: vec![local(0, 1), local(1, 2)],
        pc_map: vec![vec![0], vec![1], vec![2]],
    };
    assert_eq!(low_instr_at_or_after_pc(&info, 1), Some(InstrRef(1)));
    assert_eq!(low_instr_at_or_after_pc(&info, 5), None);
    let bindings = analyze_debug_bindings(&facts.graphs.cfg, &facts.dataflow, &info);
    assert_eq!(bindings.accepted.len(), 2);
    assert_eq!(bindings.accepted[0].value, SsaValue::Def(DefId(0)));
    assert_eq!(bindings.accepted[1].value, SsaValue::Def(DefId(1)));
    assert!(bindings.conflicts.is_empty());
    let twice = DebugInfo {
        locals: vec![local(0, 1), local(0, 1)],
        pc_map: vec![vec![0], vec![1], vec![2]],
    };
    let bindings = analyze_debug_bindings(&facts.graphs.cfg, &facts.dataflow, &twice);
    assert!(bindings.accepted.is_empty());
    assert_eq!(bindings.conflicts.len(), 1);
    assert_eq!(bindings.conflicts[0].scopes, vec![0, 1]);
}

#[test]
fn values_are_reported() {
    let facts = facts(
        graph(4, &[(0, 1), (0, 2), (1, 3), (2, 3), (3, 4)]),
        &[(&[], &[1]), (&[], &[0]), (&[], &[0]), (&[0, 1], &[])],
        2,
    );
    let instrs = vec!["a".to_string(), "b".to_string(), "c".to_string(), "d".to_string()];
    assert_eq!(
        dump_dataflow_proto(7, &instrs, &facts.graphs.cfg, &facts.dataflow),
        "dataflow proto#7 blocks=4 defs=3 open-defs=0 phis=1\n\
         \u{20} @000 block=#0 a reads=[-] writes=[r1]\n\
         \u{20} @001 block=#1 b reads=[-] writes=[r0]\n\
         \u{20} @002 block=#2 c reads=[-] writes=[r0]\n\
         \u{20} @003 block=#3 d reads=[r0, r1] writes=[-]\n\
         \u{20} phi block=#3 reg=r0 incoming=[PhiIncoming { edge: Some(EdgeRef(2)), pred: Some(BlockRef(1)), value: Def(DefId(1)) }, PhiIncoming { edge: Some(EdgeRef(3)), pred: Some(BlockRef(2)), value: Def(DefId(2)) }]\n"
    );
}

#[test]
fn numbers_are_decimal() {
    let mut text = String::new();
    put_number(&mut text, 0);
    put_number(&mut text, 1090);
    put_number(&mut text, usize::MAX);
    assert_eq!(text, format!("01090{}", usize::MAX));
    let mut text = String::new();
    put_padded(&mut text, 7);
    put_padded(&mut text, 42);
    put_padded(&mut text, 1000);
    assert_eq!(text, "0070421000");
}

#[test]
fn values_and_lists_are_written() {
    let mut text = String::new();
    write_value(&mut text, SsaValue::Entry(Reg(3)));
    write_block_set(&mut text, &vec![]);
    write_block_set(&mut text, &vec![BlockRef(1), BlockRef(12)]);
    write_goto_reason(&mut text, structure::evidence::GotoReason::CrossLoopContinueLike);
    assert_eq!(text, "entry(r3)[-][#1, #12]cross-loop-continue-like");
}

#[test]
fn requirements_are_found_by_edge() {
    let requirements = PlanRequirements {
        entries: vec![PlanRequirement::Continue {
            edge: EdgeRef(1),
            loop_region: RegionId(2),
        }],
        by_edge: vec![Vec::new(), vec![PlanRequirementId(0)]],
        unresolved_by_block: vec![false, true],
        required_features: IdSet::new(),
        unavailable_features: IdSet::new(),
    };
    assert_eq!(requirements.for_edge(EdgeRef(1)), &[PlanRequirementId(0)]);
    assert!(requirements.for_edge(EdgeRef(0)).is_empty());
    assert!(requirements.for_edge(EdgeRef(8)).is_empty());
    assert!(requirements.has_unresolved_at(BlockRef(1)));
    assert!(!requirements.has_unresolved_at(BlockRef(5)));
    assert_eq!(requirements.entries[0].edge(), Some(EdgeRef(1)));
    assert_ne!(EdgeTransfer::Break(RegionId(0)), EdgeTransfer::Continue(RegionId(0)));
}

#[test]
fn broken_moves_are_refused() {
    // r1 = r0; r0 = r1
    let two = || {
        facts(
            graph(2, &[(0, 1), (1, 2)]),
            &[(&[0], &[1]), (&[1], &[0])],
            2,
        )
    };
    let proto = LoweredProto {
        instrs: vec![
            LowInstr::Move(MoveInstr {
                dst: Reg(1),
                src: Reg(0),
            }),
            LowInstr::Move(MoveInstr {
                dst: Reg(0),
                src: Reg(1),
            }),
        ],
    };
    let fault = |facts: &Facts| match CanonicalMoveIndex::new(&proto, &facts.dataflow).resolve(SsaValue::Def(DefId(1))) {
        Ok(value) => panic!("{value:?}"),
        Err(error) => error.fault,
    };
    let mut broken = two();
    broken.dataflow.defs[1].id = DefId(0);
    assert_eq!(fault(&broken), Fault::MoveNotDense);
    let mut broken = two();
    broken.dataflow.use_values[1].fixed = SsaRegMap::from_sorted_entries(Vec::new());
    assert_eq!(fault(&broken), Fault::MoveWithoutSource(DefId(1)));
    let mut broken = two();
    broken.dataflow.use_values[0].fixed = SsaRegMap::from_sorted_entries(vec![(Reg(0), SsaValue::Def(DefId(1)))]);
    assert_eq!(fault(&broken), Fault::MoveCycle);
    let fine = two();
    match CanonicalMoveIndex::new(&proto, &fine.dataflow).resolve(SsaValue::Def(DefId(1))) {
        Ok(value) => assert_eq!(value, SsaValue::Entry(Reg(0))),
        Err(error) => panic!("{}", error.detail()),
    }
}
