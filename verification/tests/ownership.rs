use structure::analyze::AnalysisContext;
use structure::cfg::{BasicBlock, BlockKind, Cfg, CfgEdge, CfgGraph, EdgeKind, InstrRange};
use structure::compute::{compute_dataflow_facts, ProtoEffects};
use structure::copy_targets::CanonicalEdgeCopyTargets;
use structure::dataflow::{DataflowFacts, DefId, InstrEffect, PhiId, PhiIncoming, SideEffectSummary, SsaValue};
use structure::edge_copies::collect_dense_edge_actions;
use structure::debug_bindings::{DebugInfo, DebugLocal};
use structure::error::{Fault, LocatedError, StructureError};
use structure::evidence::{
    BranchKind, BranchValueMergeArm, BranchValueMergeValue, LoopExitValueMergeCandidate, LoopKindHint, LoopValueArm,
    LoopValueIncoming, LoopValueMerge, PhiEdgeCopy,
};
use structure::finalize::finalize_phi_ownership;
use structure::forwarding::ForwardedActionComposer;
use structure::graph::{analyze_graph_facts, GraphFacts};
use structure::ids::{BlockRef, EdgeRef, InstrRef, Reg};
use structure::idset::IdSet;
use structure::inherit::propagate_transitive_region_owners;
use structure::install::{install_phi_plans, install_unresolved_requirements};
use structure::lir::{LoadInstr, LowInstr, LoweredProto};
use structure::owners::{claim_owner, merge_structured_owners, RegionOwnerIndex};
use structure::ownership::validate_phi_ownership;
use structure::plan::{
    BlockEmissionPlan, BlockTerminatorKind, BlockTerminatorPlan, BranchArm, BranchPlanData, BranchPlanId, BranchValuePlan,
    ConditionArcPlan, ConditionArcPolarity, ConditionNodeId, ConditionNodePlan, ConditionPlan, ConditionPlanId,
    ConditionTarget, EdgeActionPlacement, EdgePlan, EdgeTransfer, ForwardRouteId, ForwardRouteKind, ForwardRoutePlan,
    LoopControlEdges, LoopPlanData, LoopPlanId, PhiIncomingDisposition, PlanRequirement, PlanRequirements, RegionId,
    RegionNavigation, RegionPlan, ValueDecisionPlanId,
};
use structure::region_text::write_region;
use structure::structure_dump::{
    append_section, collect_proto_entries, dump_structure_facts, DebugDetail, DumpSelection, ProtoDisplay,
};
use structure::structure_plan::{DebugBindingFacts, StructureFacts, StructurePlan};

fn diamond() -> Cfg {
    let edges = [(0, 1), (0, 2), (1, 3), (2, 3), (3, 4)];
    let kinds = [
        EdgeKind::BranchTrue,
        EdgeKind::BranchFalse,
        EdgeKind::Jump,
        EdgeKind::Fallthrough,
        EdgeKind::Return,
    ];
    let mut blocks = Vec::new();
    for i in 0..4 {
        blocks.push(BasicBlock {
            kind: BlockKind::Normal,
            instrs: InstrRange::new(InstrRef(i), 1),
        });
    }
    blocks.push(BasicBlock {
        kind: BlockKind::SyntheticExit,
        instrs: InstrRange::new(InstrRef(4), 0),
    });
    let mut preds = vec![Vec::new(); 5];
    let mut succs = vec![Vec::new(); 5];
    let mut list = Vec::new();
    for (i, (from, to)) in edges.iter().enumerate() {
        succs[*from].push(EdgeRef(i));
        preds[*to].push(EdgeRef(i));
        list.push(CfgEdge {
            from: BlockRef(*from),
            to: BlockRef(*to),
            kind: kinds[i],
        });
    }
    let mut reachable = IdSet::new();
    for b in 0..5 {
        reachable.insert(BlockRef(b));
    }
    Cfg {
        blocks,
        edges: list,
        entry_block: BlockRef(0),
        exit_block: BlockRef(4),
        block_order: (0..4).map(BlockRef).collect(),
        instr_to_block: (0..4).map(BlockRef).collect(),
        preds,
        succs,
        reachable_blocks: reachable,
    }
}

struct Facts {
    graphs: CfgGraph,
    graph: GraphFacts,
    dataflow: DataflowFacts,
}

/// Both arms write `r0`, and the block behind them reads it.
fn facts() -> Facts {
    let graphs = CfgGraph {
        cfg: diamond(),
        children: Vec::new(),
    };
    let graph = match analyze_graph_facts(&graphs) {
        Ok(graph) => graph,
        Err(error) => panic!("{}", error.detail()),
    };
    let mut effects = Vec::new();
    for (uses, defs) in [(None, Some(1)), (None, Some(0)), (None, Some(0)), (Some(0), None)] {
        let mut effect = InstrEffect {
            fixed_uses: IdSet::new(),
            fixed_must_defs: IdSet::new(),
            open_use: None,
            open_must_def: None,
        };
        if let Some(reg) = uses {
            effect.fixed_uses.insert(Reg(reg));
        }
        if let Some(reg) = defs {
            effect.fixed_must_defs.insert(Reg(reg));
        }
        effects.push(effect);
    }
    let proto = ProtoEffects {
        instr_effects: effects,
        effect_summaries: (0..4).map(|_| SideEffectSummary { tags: Vec::new() }).collect(),
        reg_count: 2,
        entry_open_start: None,
        children: Vec::new(),
    };
    let dataflow = match compute_dataflow_facts(&proto, &graphs, &graph) {
        Ok(dataflow) => dataflow,
        Err(error) => panic!("{}", error.detail()),
    };
    Facts {
        graphs,
        graph,
        dataflow,
    }
}

fn edge(at: usize, owner: usize, transfer: EdgeTransfer) -> EdgePlan {
    EdgePlan {
        edge: EdgeRef(at),
        owner: RegionId(owner),
        transfer,
        action_placement: EdgeActionPlacement::BeforeTransfer,
        forward_route: None,
        phi_copies: Vec::new(),
    }
}

fn arm(pred: usize, def: usize) -> BranchValueMergeArm {
    BranchValueMergeArm {
        preds: IdSet::singleton(BlockRef(pred)),
        values: IdSet::singleton(SsaValue::Def(DefId(def))),
        entry_values: IdSet::new(),
        update_values: IdSet::new(),
    }
}

fn arc(polarity: ConditionArcPolarity, at: usize, target: ConditionTarget) -> ConditionArcPlan {
    ConditionArcPlan {
        source: ConditionNodeId(0),
        polarity,
        route: vec![EdgeRef(at)],
        transfer: EdgeRef(at),
        connector_blocks: Vec::new(),
        target,
    }
}

/// A branch with two arms, and the block behind it.
fn plan() -> StructurePlan {
    StructurePlan {
        root: RegionId(0),
        regions: vec![
            RegionPlan::Sequence {
                parent: None,
                children: vec![RegionId(1), RegionId(4)],
            },
            RegionPlan::Branch {
                parent: RegionId(0),
                plan: BranchPlanId(0),
                entry: BlockRef(0),
                condition: RegionId(2),
                then_arm: RegionId(3),
                else_arm: Some(RegionId(5)),
                continuation: Some(BlockRef(3)),
            },
            RegionPlan::Block {
                parent: RegionId(1),
                block: BlockRef(0),
            },
            RegionPlan::Block {
                parent: RegionId(1),
                block: BlockRef(1),
            },
            RegionPlan::Block {
                parent: RegionId(0),
                block: BlockRef(3),
            },
            RegionPlan::Block {
                parent: RegionId(1),
                block: BlockRef(2),
            },
        ],
        region_by_block: vec![
            Some(RegionId(2)),
            Some(RegionId(3)),
            Some(RegionId(5)),
            Some(RegionId(4)),
            None,
        ],
        navigation: RegionNavigation {
            enter: vec![0, 1, 2, 3, 5, 4],
            exit: vec![6, 5, 3, 4, 6, 5],
            relations: vec![None; 5],
            postorder: vec![RegionId(2), RegionId(3), RegionId(5), RegionId(1), RegionId(4), RegionId(0)],
        },
        block_terminators: vec![BlockTerminatorPlan {
            block: BlockRef(0),
            instrs: InstrRange::new(InstrRef(0), 1),
            kind: BlockTerminatorKind::Branch {
                instr: InstrRef(0),
                truthy: EdgeRef(0),
                falsy: EdgeRef(1),
            },
        }],
        block_emissions: vec![BlockEmissionPlan::Emit; 5],
        edge_plans: vec![
            edge(0, 1, EdgeTransfer::BranchArm(BranchArm::Truthy)),
            edge(1, 1, EdgeTransfer::BranchArm(BranchArm::Falsy)),
            edge(2, 0, EdgeTransfer::Fallthrough),
            edge(3, 0, EdgeTransfer::Fallthrough),
            edge(4, 0, EdgeTransfer::Return),
        ],
        forward_routes: Vec::new(),
        forward_next: vec![None; 5],
        forward_preorder: vec![usize::MAX; 5],
        forward_subtree_end: vec![0; 5],
        forward_depth: vec![0; 5],
        forward_owner_by_edge: vec![None; 5],
        forward_kind_by_edge: vec![None; 5],
        forward_action_head: vec![None; 5],
        requirements: PlanRequirements {
            entries: Vec::new(),
            by_edge: Vec::new(),
            unresolved_by_block: vec![false; 5],
            required_features: IdSet::new(),
            unavailable_features: IdSet::new(),
        },
        labels: Vec::new(),
        label_by_block: vec![None; 5],
        branches: vec![BranchPlanData {
            header: BlockRef(0),
            kind: BranchKind::IfElse,
            condition: ConditionPlanId(0),
            condition_inverted: false,
            then_edge: EdgeRef(0),
            else_edge: EdgeRef(1),
            continuation: Some(BlockRef(3)),
            value_plan: Some(BranchValuePlan {
                merge: BlockRef(3),
                values: vec![BranchValueMergeValue {
                    phi_id: PhiId(0),
                    reg: Reg(0),
                    then_arm: arm(1, 1),
                    else_arm: arm(2, 2),
                }],
            }),
        }],
        single_passes: Vec::new(),
        single_pass_by_region: Vec::new(),
        loops: Vec::new(),
        loop_region_by_plan: Vec::new(),
        loop_exit_tail_by_block: Vec::new(),
        loop_exit_tail_by_edge: Vec::new(),
        loop_exit_tail_by_cleanup_instr: Vec::new(),
        conditions: vec![ConditionPlan {
            entry: ConditionNodeId(0),
            nodes: vec![ConditionNodePlan {
                id: ConditionNodeId(0),
                block: BlockRef(0),
                predicate: InstrRef(0),
                predicate_negated: false,
                arcs: [
                    arc(ConditionArcPolarity::BranchTrue, 0, ConditionTarget::Truthy),
                    arc(ConditionArcPolarity::BranchFalse, 1, ConditionTarget::Falsy),
                ],
                materialized_value: None,
            }],
            blocks: vec![BlockRef(0)],
            truthy: EdgeRef(0),
            falsy: EdgeRef(1),
        }],
        condition_value_by_phi: vec![None],
        absorbed_condition_by_block: vec![None; 5],
        value_decisions: Vec::new(),
        value_decision_region_by_plan: Vec::new(),
        value_decision_by_phi: vec![None],
        scopes: Vec::new(),
        tbc_scopes: Vec::new(),
        phis: Vec::new(),
        phis_by_block: Vec::new(),
        phis_by_region: Vec::new(),
        cleanup_dispositions: Vec::new(),
    }
}

fn finished(facts: &Facts) -> StructurePlan {
    let mut plan = plan();
    match finalize_phi_ownership(&facts.graphs.cfg, &facts.graph, &facts.dataflow, &mut plan) {
        Ok(()) => plan,
        Err(error) => panic!("{}", error.detail()),
    }
}

fn refused(facts: &Facts, mut plan: StructurePlan) -> Fault {
    match finalize_phi_ownership(&facts.graphs.cfg, &facts.graph, &facts.dataflow, &mut plan) {
        Ok(()) => panic!("the plan was accepted"),
        Err(error) => error.fault,
    }
}

fn found(facts: &Facts, plan: &StructurePlan) -> Fault {
    match validate_phi_ownership(&facts.graphs.cfg, &facts.dataflow, plan) {
        Ok(()) => panic!("the plan was accepted"),
        Err(error) => error.fault,
    }
}

#[test]
fn the_branch_owns_the_merged_value() {
    let facts = facts();
    let plan = finished(&facts);
    assert_eq!(plan.phis.len(), 1);
    for incoming in &plan.phis[0].incomings {
        assert_eq!(incoming.disposition, PhiIncomingDisposition::RegionResult(RegionId(1)));
    }
    assert_eq!(plan.phis_by_block[3], vec![PhiId(0)]);
    assert_eq!(plan.phis_by_region[1], vec![PhiId(0)]);
    assert!(plan.requirements.entries.is_empty());
}

#[test]
fn edges_copy_the_values() {
    let facts = facts();
    let plan = finished(&facts);
    assert_eq!(
        plan.edge_plans[2].phi_copies,
        vec![PhiEdgeCopy {
            phi_id: PhiId(0),
            value: SsaValue::Def(DefId(1)),
        }]
    );
    assert_eq!(
        plan.edge_plans[3].phi_copies,
        vec![PhiEdgeCopy {
            phi_id: PhiId(0),
            value: SsaValue::Def(DefId(2)),
        }]
    );
    assert!(plan.edge_plans[0].phi_copies.is_empty());
    let composer = ForwardedActionComposer::new(&facts.graphs.cfg, &facts.dataflow, &plan);
    match composer.effective_edge_copies(EdgeRef(2)) {
        Ok(copies) => assert_eq!(copies, plan.edge_plans[2].phi_copies),
        Err(error) => panic!("{}", error.detail()),
    }
    match composer.effective_edge_copies(EdgeRef(12)) {
        Ok(_) => panic!("the edge was accepted"),
        Err(error) => assert_eq!(error.fault, Fault::EdgePlanMissing(EdgeRef(12))),
    }
}

#[test]
fn a_finished_plan_passes_its_check() {
    let facts = facts();
    let plan = finished(&facts);
    assert!(validate_phi_ownership(&facts.graphs.cfg, &facts.dataflow, &plan).is_ok());
}

#[test]
fn without_an_owner_the_edges_copy() {
    let facts = facts();
    let mut plan = plan();
    plan.branches[0].value_plan = None;
    match finalize_phi_ownership(&facts.graphs.cfg, &facts.graph, &facts.dataflow, &mut plan) {
        Ok(()) => {}
        Err(error) => panic!("{}", error.detail()),
    }
    assert_eq!(plan.phis[0].incomings[0].disposition, PhiIncomingDisposition::EdgeCopy);
    assert_eq!(plan.edge_plans[2].phi_copies.len(), 1);
}

#[test]
fn an_edge_that_is_cut_off_copies_nothing() {
    let facts = facts();
    let mut plan = plan();
    plan.edge_plans[2].transfer = EdgeTransfer::Unreachable;
    match finalize_phi_ownership(&facts.graphs.cfg, &facts.graph, &facts.dataflow, &mut plan) {
        Ok(()) => {}
        Err(error) => panic!("{}", error.detail()),
    }
    assert_eq!(plan.phis[0].incomings[0].disposition, PhiIncomingDisposition::Dead);
    assert!(plan.edge_plans[2].phi_copies.is_empty());
    assert_eq!(plan.edge_plans[3].phi_copies.len(), 1);
}

#[test]
fn phis_stand_at_their_numbers() {
    let mut facts = facts();
    facts.dataflow.phi_candidates[0].id = PhiId(3);
    assert_eq!(refused(&facts, plan()), Fault::PhiArenaSlot(0, PhiId(3)));
}

#[test]
fn regions_have_parents() {
    let facts = facts();
    let mut broken = plan();
    broken.regions[3] = RegionPlan::Block {
        parent: RegionId(77),
        block: BlockRef(1),
    };
    assert_eq!(refused(&facts, broken), Fault::RegionNodeMissing(RegionId(77)));
    let mut broken = plan();
    broken.regions[3] = RegionPlan::Block {
        parent: RegionId(3),
        block: BlockRef(1),
    };
    assert_eq!(refused(&facts, broken), Fault::RegionCycle(RegionId(3)));
}

#[test]
fn regions_form_a_tree() {
    fn fault(plan: &StructurePlan) -> Fault {
        match RegionOwnerIndex::new(plan) {
            Ok(_) => panic!("the tree was accepted"),
            Err(error) => error.fault,
        }
    }
    let mut broken = plan();
    broken.root = RegionId(40);
    assert_eq!(fault(&broken), Fault::RegionRootMissing);
    let mut broken = plan();
    broken.root = RegionId(4);
    assert_eq!(fault(&broken), Fault::RegionWithoutParent(RegionId(0)));
    let mut broken = plan();
    broken.regions[0] = RegionPlan::Sequence {
        parent: Some(RegionId(1)),
        children: Vec::new(),
    };
    assert_eq!(fault(&broken), Fault::RegionRootHasParent);
    let mut broken = plan();
    broken.regions[4] = RegionPlan::Block {
        parent: RegionId(30),
        block: BlockRef(3),
    };
    assert_eq!(fault(&broken), Fault::RegionMissingParent(RegionId(4), RegionId(30)));
    let mut broken = plan();
    broken.regions[4] = RegionPlan::Block {
        parent: RegionId(4),
        block: BlockRef(3),
    };
    assert_eq!(fault(&broken), Fault::RegionDisconnected(RegionId(4)));
}

#[test]
fn owners_agree_in_either_order() {
    let plan = plan();
    let index = match RegionOwnerIndex::new(&plan) {
        Ok(index) => index,
        Err(error) => panic!("{}", error.detail()),
    };
    assert!(index.contains(RegionId(1), RegionId(3)));
    assert!(!index.contains(RegionId(3), RegionId(1)));
    assert!(index.inside_branch(RegionId(5)));
    assert!(!index.inside_branch(RegionId(4)));
    assert_eq!(index.more_specific(RegionId(0), RegionId(3)), Some(RegionId(3)));
    assert_eq!(index.more_specific(RegionId(4), RegionId(3)), None);
    let outer = PhiIncomingDisposition::RegionInput(RegionId(0));
    let inner = PhiIncomingDisposition::RegionInput(RegionId(3));
    assert_eq!(merge_structured_owners(&index, outer, inner), inner);
    assert_eq!(merge_structured_owners(&index, inner, outer), inner);
    let apart = PhiIncomingDisposition::RegionInput(RegionId(4));
    assert_eq!(
        merge_structured_owners(&index, inner, apart),
        PhiIncomingDisposition::DiagnosticUnresolved
    );
    assert_eq!(claim_owner(&index, None, inner), (inner, true));
    assert_eq!(claim_owner(&index, Some(inner), inner), (inner, false));
    assert_eq!(
        merge_structured_owners(&index, PhiIncomingDisposition::Dead, PhiIncomingDisposition::EdgeCopy),
        PhiIncomingDisposition::Dead
    );
}

#[test]
fn plans_that_are_named_exist() {
    let facts = facts();
    let mut broken = plan();
    broken.branches.clear();
    assert_eq!(refused(&facts, broken), Fault::BranchPlanMissing(RegionId(1), BranchPlanId(0)));
    let mut broken = plan();
    broken.conditions.clear();
    assert_eq!(refused(&facts, broken), Fault::ConditionValueMissing);
    let mut broken = plan();
    if let Some(values) = &mut broken.branches[0].value_plan {
        values.values[0].phi_id = PhiId(6);
    }
    assert_eq!(refused(&facts, broken), Fault::OwnerMissingPhi(PhiId(6)));
}

#[test]
fn edges_have_plans() {
    let facts = facts();
    let mut broken = plan();
    broken.edge_plans.pop();
    broken.forward_next.pop();
    broken.forward_preorder.pop();
    assert_eq!(refused(&facts, broken), Fault::EdgePlanAbsent(EdgeRef(4)));
    let mut broken = plan();
    broken.edge_plans.truncate(2);
    broken.forward_next.truncate(2);
    broken.forward_preorder.truncate(2);
    assert_eq!(refused(&facts, broken), Fault::IncomingEdgePlanMissing(PhiId(0), 0, EdgeRef(2)));
}

#[test]
fn a_missing_edge_plan_is_named() {
    let facts = facts();
    let mut broken = plan();
    broken.edge_plans.pop();
    broken.forward_next.pop();
    broken.forward_preorder.pop();
    match finalize_phi_ownership(&facts.graphs.cfg, &facts.graph, &facts.dataflow, &mut broken) {
        Ok(()) => panic!("the plan was accepted"),
        Err(error) => assert_eq!(error.detail(), "missing edge plan #4"),
    }
    // The edges that there are have their copies already; the phis do not stand yet.
    assert_eq!(broken.edge_plans[2].phi_copies.len(), 1);
    assert!(broken.phis.is_empty());
}

#[test]
fn a_failed_attempt_leaves_what_it_has_done() {
    let facts = facts();
    let attempt = |mut plan: StructurePlan| match finalize_phi_ownership(
        &facts.graphs.cfg,
        &facts.graph,
        &facts.dataflow,
        &mut plan,
    ) {
        Ok(()) => panic!("the plan was accepted"),
        Err(error) => (error.fault, plan),
    };
    let mut broken = plan();
    broken.root = RegionId(40);
    let (fault, left) = attempt(broken);
    assert_eq!(fault, Fault::RegionRootMissing);
    assert!(left.edge_plans[2].phi_copies.is_empty());
    let mut broken = plan();
    broken.forward_preorder[0] = 9;
    let (fault, left) = attempt(broken);
    assert_eq!(fault, Fault::ForwardOrderOutside);
    assert_eq!(left.edge_plans[2].phi_copies.len(), 1);
    assert!(left.phis.is_empty());
}

#[test]
fn stale_copies_are_shown() {
    let facts = facts();
    let mut plan = finished(&facts);
    plan.edge_plans[3].phi_copies.clear();
    match validate_phi_ownership(&facts.graphs.cfg, &facts.dataflow, &plan) {
        Ok(()) => panic!("the plan was accepted"),
        Err(error) => {
            assert_eq!(
                error.detail(),
                "edge #3 phi copies do not match incoming ownership: \
                 expected=[PhiEdgeCopy { phi_id: PhiId(0), value: Def(DefId(2)) }] actual=[] transfer=Fallthrough"
            );
            assert_eq!(
                LocatedError::here(error).context(1).detail(),
                "child proto #1: edge #3 phi copies do not match incoming ownership: \
                 expected=[PhiEdgeCopy { phi_id: PhiId(0), value: Def(DefId(2)) }] actual=[] transfer=Fallthrough"
            );
        }
    }
    let mut plan = finished(&facts);
    plan.edge_plans[0].phi_copies = vec![PhiEdgeCopy {
        phi_id: PhiId(0),
        value: SsaValue::Entry(Reg(2)),
    }];
    match validate_phi_ownership(&facts.graphs.cfg, &facts.dataflow, &plan) {
        Ok(()) => panic!("the plan was accepted"),
        Err(error) => assert_eq!(
            error.detail(),
            "edge #0 phi copies do not match incoming ownership: expected=[] \
             actual=[PhiEdgeCopy { phi_id: PhiId(0), value: Entry(Reg(2)) }] transfer=BranchArm(Truthy)"
        ),
    }
}

#[test]
fn a_value_without_an_entry_is_named() {
    let mut facts = facts();
    let plan = finished(&facts);
    facts.dataflow.phi_candidates[0].id = PhiId(7);
    match validate_phi_ownership(&facts.graphs.cfg, &facts.dataflow, &plan) {
        Ok(()) => panic!("the plan was accepted"),
        Err(error) => {
            assert_eq!(error.fault, Fault::PhiPlanAbsent(PhiId(7)));
            assert!(error.detail().starts_with("missing value plan for "));
        }
    }
}

#[test]
fn one_level_more_than_regions_shows_all_of_them() {
    let mut plan = plan();
    plan.regions = (0..5)
        .map(|i| RegionPlan::Sequence {
            parent: if i == 0 { None } else { Some(RegionId(i - 1)) },
            children: if i == 4 { Vec::new() } else { vec![RegionId(i + 1)] },
        })
        .collect();
    plan.root = RegionId(0);
    assert!(RegionOwnerIndex::new(&plan).is_ok());
    let mut text = String::new();
    write_region(&mut text, &plan, RegionId(0), "", "root", 6);
    let mut more = String::new();
    write_region(&mut more, &plan, RegionId(0), "", "root", 60);
    assert_eq!(text, more);
    assert!(text.ends_with("        item: r4 sequence children=0\n"), "{text}");
}

#[test]
fn ways_have_one_number_each() {
    let facts = facts();
    let mut broken = plan();
    broken.forward_preorder[0] = 9;
    assert_eq!(refused(&facts, broken), Fault::ForwardOrderOutside);
    let mut broken = plan();
    broken.forward_preorder[0] = 1;
    broken.forward_preorder[3] = 1;
    assert_eq!(refused(&facts, broken), Fault::ForwardOrderTwice);
}

#[test]
fn the_check_sees_a_changed_entry() {
    let facts = facts();
    let mut plan = finished(&facts);
    plan.phis[0].reg = Reg(5);
    assert_eq!(found(&facts, &plan), Fault::PhiPlanMismatch(PhiId(0)));
    let mut plan = finished(&facts);
    plan.phis[0].incomings[1].value = SsaValue::Def(DefId(0));
    assert_eq!(found(&facts, &plan), Fault::PhiIncomingMismatch(PhiId(0), 1));
    let mut plan = finished(&facts);
    plan.phis.clear();
    assert_eq!(found(&facts, &plan), Fault::OwnershipArena);
}

#[test]
fn the_check_sees_a_wrong_owner() {
    let facts = facts();
    let mut plan = finished(&facts);
    plan.phis[0].incomings[0].disposition = PhiIncomingDisposition::Dead;
    assert_eq!(found(&facts, &plan), Fault::PhiLiveDead(PhiId(0), 0));
    plan.phis[0].incomings[0].disposition = PhiIncomingDisposition::LoopCarried(RegionId(1));
    assert_eq!(found(&facts, &plan), Fault::PhiCarriedNotLoop(PhiId(0), 0, RegionId(1)));
    plan.phis[0].incomings[0].disposition = PhiIncomingDisposition::RegionInput(RegionId(60));
    assert_eq!(found(&facts, &plan), Fault::PhiIncomingOwnerMissing(PhiId(0), 0, RegionId(60)));
    plan.phis[0].incomings[0].disposition = PhiIncomingDisposition::DiagnosticUnresolved;
    assert_eq!(found(&facts, &plan), Fault::PhiUnresolvedUnstated(PhiId(0), 0));
}

#[test]
fn the_check_sees_a_stale_table() {
    let facts = facts();
    let mut plan = finished(&facts);
    plan.phis_by_block[3].clear();
    assert_eq!(found(&facts, &plan), Fault::OwnershipIndexStale);
    let mut plan = finished(&facts);
    plan.forward_action_head[0] = Some(EdgeRef(0));
    assert_eq!(found(&facts, &plan), Fault::ForwardHeadsStale);
    let mut plan = finished(&facts);
    plan.edge_plans[3].phi_copies.clear();
    assert_eq!(found(&facts, &plan), Fault::EdgeCopiesStale(EdgeRef(3)));
    let mut plan = finished(&facts);
    plan.requirements.entries.push(PlanRequirement::UnresolvedValue {
        phi_id: PhiId(9),
        block: BlockRef(3),
        reg: Reg(0),
    });
    assert_eq!(found(&facts, &plan), Fault::UnresolvedMissingPhi(PhiId(9)));
}

#[test]
fn queries_answer_from_the_plan() {
    let facts = facts();
    let plan = finished(&facts);
    assert_eq!(plan.region_for_block(BlockRef(2)), Some(RegionId(5)));
    assert_eq!(plan.region_for_block(BlockRef(4)), None);
    assert!(plan.region_contains(RegionId(1), RegionId(5)));
    assert!(!plan.region_contains(RegionId(4), RegionId(5)));
    assert_eq!(plan.phis_in_block(BlockRef(3)), &[PhiId(0)]);
    assert_eq!(plan.phis_for_region(RegionId(1)), &[PhiId(0)]);
    assert!(plan.phis_for_region(RegionId(2)).is_empty());
    assert_eq!(plan.regions().len(), 6);
    assert!(plan.region(RegionId(6)).is_none());
    assert_eq!(plan.conditions[0].nodes[0].semantic_target(true), ConditionTarget::Truthy);
    assert_eq!(plan.conditions[0].nodes[0].semantic_target(false), ConditionTarget::Falsy);
}

fn structure_facts(facts: &Facts) -> StructureFacts {
    StructureFacts {
        plan: finished(facts),
        debug_bindings: DebugBindingFacts {
            accepted: Vec::new(),
            conflicts: Vec::new(),
        },
        children: Vec::new(),
    }
}

fn selection(detail: DebugDetail, display: Vec<ProtoDisplay>) -> DumpSelection {
    DumpSelection {
        detail,
        proto: None,
        proto_depth: 1,
        breadcrumb: None,
        focused: true,
        display,
    }
}

#[test]
fn a_summary_counts() {
    let facts = facts();
    let text = dump_structure_facts(&structure_facts(&facts), &selection(DebugDetail::Summary, vec![ProtoDisplay::Visible]));
    assert_eq!(
        text,
        "===== Dump Structure =====\n\
         structure detail=summary protos=1\n\
         filters proto_depth=1\n\
         \n\
         proto#0 regions=6 branches=1 loops=0 conditions=1 islands=0 labels=0 edges=5 phis=1 scopes=0 debug-bindings=0 debug-conflicts=0 requirements=0\n"
    );
}

#[test]
fn a_dump_shows_everything() {
    let facts = facts();
    let text = dump_structure_facts(&structure_facts(&facts), &selection(DebugDetail::Normal, vec![ProtoDisplay::Visible]));
    let expected = "  region tree\n\
        \u{20}   root: r0 sequence children=2\n\
        \u{20}     item: r1 branch b0 entry=#0 continuation=#3 condition=c0 inverted=false then=#0 else=#1\n\
        \u{20}       condition: r2 block #0\n\
        \u{20}       then: r3 block #1\n\
        \u{20}       else: r5 block #2\n\
        \u{20}     item: r4 block #3\n\
        \u{20} debug binding facts\n\
        \u{20}   <none>\n\
        \u{20} block terminators\n\
        \u{20}   #0 instrs=[@0..@1) branch instr=@0 truthy=#0 falsy=#1\n\
        \u{20} condition plans\n\
        \u{20}   c0 entry=n0 truthy=#0 falsy=#1\n\
        \u{20}     n0 block=#0 predicate=@0 predicate-negated=false control\n\
        \u{20}       BranchTrue route=[#0] connectors=[-] target=truthy\n\
        \u{20}       BranchFalse route=[#1] connectors=[-] target=falsy\n\
        \u{20} value decision plans\n\
        \u{20}   <none>\n\
        \u{20} planned labels\n\
        \u{20}   <none>\n\
        \u{20} forward routes\n\
        \u{20}   <none>\n\
        \u{20} edge transfers\n\
        \u{20}   #0 owner=r1 transfer=branch-arm:Truthy actions=before-transfer forwarded=- relation=- phi=[]\n\
        \u{20}   #1 owner=r1 transfer=branch-arm:Falsy actions=before-transfer forwarded=- relation=- phi=[]\n\
        \u{20}   #2 owner=r0 transfer=fallthrough actions=before-transfer forwarded=- relation=- phi=[p0<-def1]\n\
        \u{20}   #3 owner=r0 transfer=fallthrough actions=before-transfer forwarded=- relation=- phi=[p0<-def2]\n\
        \u{20}   #4 owner=r0 transfer=return actions=before-transfer forwarded=- relation=- phi=[]\n\
        \u{20} value owners\n\
        \u{20}   p0 block=#3 reg=r0\n\
        \u{20}     #2 value=def1 owner=region-result:r1\n\
        \u{20}     #3 value=def2 owner=region-result:r1\n\
        \u{20} cleanup owners\n\
        \u{20}   <none>\n\
        \u{20} requirements\n\
        \u{20}   features=[] unavailable=[]\n\
        \u{20}   <none>\n";
    assert!(text.ends_with(expected), "{text}");
}

#[test]
fn elided_prototypes_are_one_line() {
    let facts = facts();
    let mut outer = structure_facts(&facts);
    outer.children.push(structure_facts(&facts));
    outer.children.push(structure_facts(&facts));
    let entries = collect_proto_entries(&outer);
    assert_eq!(entries.len(), 3);
    assert_eq!(entries[2].id, 2);
    assert_eq!(entries[2].parent, Some(0));
    assert_eq!(entries[2].depth, 1);
    let display = vec![
        ProtoDisplay::Elided("outer".to_string()),
        ProtoDisplay::Hidden,
        ProtoDisplay::Elided("second".to_string()),
    ];
    let text = dump_structure_facts(&outer, &selection(DebugDetail::Verbose, display));
    assert!(text.ends_with("\n\nouter\n  second\n"), "{text}");
    let mut nobody = selection(DebugDetail::Normal, Vec::new());
    nobody.focused = false;
    nobody.proto = Some(8);
    nobody.breadcrumb = Some("proto#0".to_string());
    let text = dump_structure_facts(&outer, &nobody);
    assert_eq!(
        text,
        "===== Dump Structure =====\n\
         structure detail=normal protos=3\n\
         filters proto=proto#8\n\
         filters proto_depth=1\n\
         focus proto#0\n\
         \n\
         \u{20} <no proto matched filters>\n"
    );
}

#[test]
fn sections_are_kept_apart() {
    let mut text = String::new();
    append_section(&mut text, "one");
    assert_eq!(text, "one\n");
    append_section(&mut text, "two\n");
    assert_eq!(text, "one\n\ntwo\n");
}

/// Edge 0 goes on over edge 2 to edge 4; the route ends with edge 2.
fn with_route() -> StructurePlan {
    let mut plan = plan();
    plan.forward_next[0] = Some(EdgeRef(2));
    plan.forward_next[2] = Some(EdgeRef(4));
    plan.forward_preorder[4] = 0;
    plan.forward_preorder[2] = 1;
    plan.forward_preorder[0] = 2;
    plan.forward_subtree_end[4] = 3;
    plan.forward_subtree_end[2] = 3;
    plan.forward_subtree_end[0] = 3;
    plan.forward_routes.push(ForwardRoutePlan {
        kind: ForwardRouteKind::ExclusiveBreak,
        loop_region: RegionId(0),
        first: EdgeRef(0),
        last: EdgeRef(2),
        start: BlockRef(0),
        target: BlockRef(3),
        len: 2,
    });
    plan.edge_plans[0].forward_route = Some(ForwardRouteId(0));
    plan.forward_kind_by_edge[2] = Some(ForwardRouteKind::ExclusiveBreak);
    plan
}

#[test]
fn a_route_holds_its_edges() {
    let plan = with_route();
    let route = ForwardRouteId(0);
    assert_eq!(plan.forward_route_edges(route), vec![EdgeRef(0), EdgeRef(2)]);
    for (edge, on) in [(0, true), (1, false), (2, true), (3, false), (4, false)] {
        assert_eq!(plan.forward_route_contains_edge(route, EdgeRef(edge)), on);
        assert_eq!(plan.forward_route_edges(route).contains(&EdgeRef(edge)), on);
    }
    assert!(plan.forward_path_contains_edge(EdgeRef(0), EdgeRef(4), EdgeRef(4)));
    assert!(plan.forward_route_edges(ForwardRouteId(1)).is_empty());
    assert!(plan.edge_action_is_forwarded_only(EdgeRef(2)));
    assert!(!plan.edge_action_is_forwarded_only(EdgeRef(0)));
}

#[test]
fn a_route_makes_its_copies_at_its_start() {
    let facts = facts();
    let mut plan = with_route();
    match finalize_phi_ownership(&facts.graphs.cfg, &facts.graph, &facts.dataflow, &mut plan) {
        Ok(()) => {}
        Err(error) => panic!("{}", error.detail()),
    }
    assert_eq!(plan.forward_action_head[0], Some(EdgeRef(2)));
    assert_eq!(plan.forward_action_head[4], None);
    assert_eq!(plan.forward_route_action_edges(ForwardRouteId(0)), vec![EdgeRef(2)]);
    let composer = ForwardedActionComposer::new(&facts.graphs.cfg, &facts.dataflow, &plan);
    match composer.effective_edge_copies(EdgeRef(0)) {
        Ok(copies) => {
            assert_eq!(copies.len(), 1);
            assert_eq!(copies[0].phi_id, PhiId(0));
        }
        Err(error) => panic!("{}", error.detail()),
    }
    plan.edge_plans[2].phi_copies[0].phi_id = PhiId(5);
    let composer = ForwardedActionComposer::new(&facts.graphs.cfg, &facts.dataflow, &plan);
    match composer.effective_edge_copies(EdgeRef(0)) {
        Ok(_) => panic!("the copy was accepted"),
        Err(error) => assert_eq!(error.fault, Fault::ForwardedTargetMissing(PhiId(5))),
    }
}

#[test]
fn a_batch_of_copies_is_checked() {
    let facts = facts();
    let plan = with_route();
    let composer = ForwardedActionComposer::new(&facts.graphs.cfg, &facts.dataflow, &plan);
    let copy = |phi: usize, value: SsaValue| PhiEdgeCopy {
        phi_id: PhiId(phi),
        value,
    };
    let d0 = SsaValue::Def(DefId(0));
    let mut env = Vec::new();
    match composer.apply_forwarded_batch(None, &mut env, true, &vec![copy(0, d0), copy(0, d0)]) {
        Ok(()) => panic!("the second copy was accepted"),
        Err(error) => assert_eq!(error.fault, Fault::ForwardedTargetTwice(PhiId(0))),
    }
    let mut env = Vec::new();
    match composer.apply_forwarded_batch(None, &mut env, true, &vec![copy(0, SsaValue::Phi(PhiId(8)))]) {
        Ok(()) => panic!("the value was accepted"),
        Err(error) => assert_eq!(error.fault, Fault::ForwardedPhiMissing(PhiId(8))),
    }
    let mut env = Vec::new();
    match composer.apply_forwarded_batch(None, &mut env, true, &vec![copy(0, d0)]) {
        Ok(()) => assert_eq!(env, vec![copy(0, d0)]),
        Err(error) => panic!("{}", error.detail()),
    }
    match composer.collapse_forwarded_defs(ForwardRouteId(0), SsaValue::Def(DefId(30))) {
        Ok(_) => panic!("the definition was accepted"),
        Err(error) => assert_eq!(error.fault, Fault::ForwardedDefMissing(DefId(30))),
    }
    let mut short = self::facts();
    short.dataflow.use_values.clear();
    let composer = ForwardedActionComposer::new(&short.graphs.cfg, &short.dataflow, &plan);
    match composer.collapse_forwarded_defs(ForwardRouteId(0), d0) {
        Ok(_) => panic!("the definition was accepted"),
        Err(error) => assert_eq!(error.fault, Fault::ForwardedUsesMissing(DefId(0))),
    }
}

#[test]
fn copies_go_to_one_place_each() {
    let plan = plan();
    let copies = vec![vec![PhiIncomingDisposition::EdgeCopy, PhiIncomingDisposition::EdgeCopy]];
    let fault = |dataflow: &DataflowFacts, edges: usize| match collect_dense_edge_actions(dataflow, &plan, edges, &copies) {
        Ok(_) => panic!("the copies were accepted"),
        Err(error) => error.fault,
    };
    let facts = facts();
    assert_eq!(fault(&facts.dataflow, 1), Fault::IncomingMissingEdge(PhiId(0), EdgeRef(2)));
    let mut broken = self::facts();
    broken.dataflow.phi_candidates[0].incoming[1].edge = Some(EdgeRef(2));
    assert_eq!(fault(&broken.dataflow, 5), Fault::CopyTargetTwice(EdgeRef(2), PhiId(0)));
    let mut broken = self::facts();
    broken.dataflow.phi_candidates[0].id = PhiId(7);
    assert_eq!(fault(&broken.dataflow, 5), Fault::OwnerPlanMissing(PhiId(7)));
    let more = vec![vec![PhiIncomingDisposition::EdgeCopy]; 8];
    match collect_dense_edge_actions(&broken.dataflow, &plan, 5, &more) {
        Ok(_) => panic!("the copies were accepted"),
        Err(error) => assert_eq!(error.fault, Fault::CopyTargetMissing(EdgeRef(2), PhiId(7))),
    }
    // Without an owner the second value is not copied.
    match collect_dense_edge_actions(&facts.dataflow, &plan, 5, &vec![vec![PhiIncomingDisposition::EdgeCopy]]) {
        Ok(list) => {
            assert_eq!(list[2].len(), 1);
            assert!(list[3].is_empty());
        }
        Err(error) => panic!("{}", error.detail()),
    }
}

#[test]
fn every_phi_has_a_row_of_owners() {
    let facts = facts();
    let plan = plan();
    let index = match RegionOwnerIndex::new(&plan) {
        Ok(index) => index,
        Err(error) => panic!("{}", error.detail()),
    };
    let mut table = Vec::new();
    match propagate_transitive_region_owners(&index, &facts.dataflow, &mut table) {
        Ok(()) => panic!("the missing row was accepted"),
        Err(error) => {
            assert_eq!(error.fault, Fault::OwnerRowMissing(PhiId(0)));
            assert!(error.detail().ends_with(" has no incoming ownership row"));
        }
    }
    let mut table = vec![vec![None; 3]];
    match propagate_transitive_region_owners(&index, &facts.dataflow, &mut table) {
        Ok(()) => panic!("the long row was accepted"),
        Err(error) => {
            assert_eq!(error.fault, Fault::OwnerRowLength(PhiId(0), 3, 2));
            assert!(error.detail().ends_with(" has 3 owner slots for 2 incomings"));
        }
    }
    let mut table = vec![vec![None; 2], vec![Some(PhiIncomingDisposition::Dead)]];
    match propagate_transitive_region_owners(&index, &facts.dataflow, &mut table) {
        Ok(()) => assert_eq!(table, vec![vec![None; 2], vec![Some(PhiIncomingDisposition::Dead)]]),
        Err(error) => panic!("{}", error.detail()),
    }
}

#[test]
fn every_incoming_has_an_owner() {
    let facts = facts();
    match install_phi_plans(&facts.dataflow, &vec![vec![PhiIncomingDisposition::EdgeCopy]], 5, 6) {
        Ok(_) => panic!("the short row was accepted"),
        Err(error) => {
            assert_eq!(error.fault, Fault::OwnerCount(PhiId(0), 1, 2));
            assert!(error.detail().ends_with(" has 1 owners for 2 incomings"));
        }
    }
    match install_phi_plans(&facts.dataflow, &Vec::new(), 5, 6) {
        Ok(plans) => {
            assert!(plans.phis.is_empty());
            assert_eq!(plans.by_block, vec![Vec::new(); 5]);
            assert_eq!(plans.by_region, vec![Vec::new(); 6]);
        }
        Err(error) => panic!("{}", error.detail()),
    }
}

#[test]
fn entries_name_existing_places() {
    let facts = facts();
    let owned = vec![vec![
        PhiIncomingDisposition::RegionInput(RegionId(9)),
        PhiIncomingDisposition::DiagnosticUnresolved,
    ]];
    match install_phi_plans(&facts.dataflow, &owned, 5, 6) {
        Ok(_) => panic!("the owner was accepted"),
        Err(error) => assert_eq!(error.fault, Fault::PhiOwnerMissing(PhiId(0), RegionId(9))),
    }
    match install_phi_plans(&facts.dataflow, &owned, 2, 10) {
        Ok(_) => panic!("the block was accepted"),
        Err(error) => assert_eq!(error.fault, Fault::PhiBlockOutside(PhiId(0))),
    }
    let mut requirements = plan().requirements;
    match install_unresolved_requirements(&facts.dataflow, &owned, &mut requirements) {
        Ok(()) => {
            assert_eq!(requirements.entries.len(), 1);
            assert!(requirements.has_unresolved_at(BlockRef(3)));
        }
        Err(error) => panic!("{}", error.detail()),
    }
    let mut requirements = plan().requirements;
    requirements.unresolved_by_block.clear();
    match install_unresolved_requirements(&facts.dataflow, &owned, &mut requirements) {
        Ok(()) => panic!("the block was accepted"),
        Err(error) => assert_eq!(error.fault, Fault::UnresolvedBlockMissing(PhiId(0), BlockRef(3))),
    }
}

#[test]
fn phis_that_flow_in_exist() {
    let mut facts = facts();
    facts.dataflow.phi_candidates[0].incoming[1].value = SsaValue::Phi(PhiId(4));
    let plan = plan();
    let index = match RegionOwnerIndex::new(&plan) {
        Ok(index) => index,
        Err(error) => panic!("{}", error.detail()),
    };
    let mut table = vec![vec![None, None]];
    match propagate_transitive_region_owners(&index, &facts.dataflow, &mut table) {
        Ok(()) => panic!("the phi was accepted"),
        Err(error) => assert_eq!(error.fault, Fault::IncomingMissingPhi(PhiId(0), PhiId(4))),
    }
}

#[test]
fn a_value_that_passes_through_needs_a_region() {
    let mut facts = facts();
    for incoming in &mut facts.dataflow.phi_candidates[0].incoming {
        incoming.value = SsaValue::Entry(Reg(0));
    }
    let mut passing = plan();
    passing.branches[0].value_plan = None;
    match finalize_phi_ownership(&facts.graphs.cfg, &facts.graph, &facts.dataflow, &mut passing) {
        Ok(()) => {}
        Err(error) => panic!("{}", error.detail()),
    }
    assert_eq!(
        passing.phis[0].incomings[0].disposition,
        PhiIncomingDisposition::RegionInput(RegionId(4))
    );
    let mut broken = plan();
    broken.branches[0].value_plan = None;
    broken.region_by_block[3] = None;
    assert_eq!(refused(&facts, broken), Fault::PhiBlockWithoutRegion(PhiId(0)));
}

#[test]
fn value_decisions_exist() {
    let facts = facts();
    let mut broken = plan();
    broken.regions[4] = RegionPlan::ValueDecision {
        parent: RegionId(0),
        plan: ValueDecisionPlanId(0),
        entry: BlockRef(3),
        continuation: BlockRef(4),
    };
    assert_eq!(refused(&facts, broken), Fault::ValueDecisionMissing(RegionId(4)));
}

fn loop_value(phi: usize, reg: usize, inside: (usize, usize), outside: (usize, usize)) -> LoopValueMerge {
    let arm = |(pred, def): (usize, usize)| LoopValueArm {
        incomings: vec![LoopValueIncoming {
            pred: Some(BlockRef(pred)),
            value: SsaValue::Def(DefId(def)),
        }],
    };
    LoopValueMerge {
        phi_id: PhiId(phi),
        reg: Reg(reg),
        inside_arm: arm(inside),
        outside_arm: arm(outside),
    }
}

/// The plan with a loop in the place of the last block.
fn with_loop(header_values: Vec<LoopValueMerge>, exits: Vec<LoopValueMerge>, carried: Vec<LoopValueMerge>) -> StructurePlan {
    let mut plan = plan();
    plan.branches[0].value_plan = None;
    plan.regions[4] = RegionPlan::Loop {
        parent: RegionId(0),
        plan: LoopPlanId(0),
        entry: BlockRef(3),
        preheader: None,
        control: RegionId(6),
        body: RegionId(6),
        normal_tail: None,
    };
    plan.regions.push(RegionPlan::Block {
        parent: RegionId(4),
        block: BlockRef(3),
    });
    plan.loops.push(LoopPlanData {
        kind: LoopKindHint::NumericForLike,
        header: BlockRef(3),
        preheader_block: None,
        condition_header: None,
        condition: None,
        condition_prefix_placement: None,
        continuation: None,
        continue_target: None,
        source_bindings: None,
        control_edges: LoopControlEdges {
            preheader_body: None,
            preheader_exit: None,
            body: Vec::new(),
            exit: Vec::new(),
            backedges: Vec::new(),
            continues: Vec::new(),
        },
        break_edges: Vec::new(),
        normalized_exit_aliases: Vec::new(),
        normal_tail: None,
        exit_tail: None,
        propagated_break: None,
        header_values,
        exit_values: vec![LoopExitValueMergeCandidate {
            exit: BlockRef(4),
            values: exits,
        }],
        carried_values: carried,
    });
    plan
}

#[test]
fn a_loop_carries_and_takes_in() {
    let facts = facts();
    let mut plan = with_loop(Vec::new(), Vec::new(), vec![loop_value(0, 0, (1, 1), (2, 2))]);
    match finalize_phi_ownership(&facts.graphs.cfg, &facts.graph, &facts.dataflow, &mut plan) {
        Ok(()) => {}
        Err(error) => panic!("{}", error.detail()),
    }
    assert_eq!(plan.phis[0].incomings[0].disposition, PhiIncomingDisposition::LoopCarried(RegionId(4)));
    assert_eq!(plan.phis[0].incomings[1].disposition, PhiIncomingDisposition::RegionInput(RegionId(4)));
    let mut text = String::new();
    write_region(&mut text, &plan, RegionId(4), "", "item", 3);
    assert_eq!(
        text,
        "item: r4 loop l0 kind=numeric-for entry=#3 continuation=-\n  normal-tail=None\n  propagated-break=-\n  control: r6 block #3\n  body: r6 block #3\n"
    );
}

#[test]
fn loop_values_name_what_flows_in() {
    let facts = facts();
    let fault = |value: LoopValueMerge| refused(&facts, with_loop(Vec::new(), Vec::new(), vec![value]));
    assert_eq!(fault(loop_value(0, 0, (1, 9), (2, 2))), Fault::LoopArmForeign(PhiId(0)));
    assert_eq!(fault(loop_value(0, 0, (77, 1), (2, 2))), Fault::LoopArmOutside(PhiId(0), BlockRef(77)));
    assert_eq!(fault(loop_value(0, 0, (1, 1), (1, 1))), Fault::LoopArmsOverlap(PhiId(0), 0));
    assert_eq!(
        refused(&facts, with_loop(Vec::new(), vec![loop_value(0, 0, (2, 2), (2, 2))], Vec::new())),
        Fault::LoopResultArmsOverlap(PhiId(0), 1)
    );
    let mut missing = with_loop(Vec::new(), Vec::new(), Vec::new());
    missing.loops.clear();
    assert_eq!(refused(&facts, missing), Fault::LoopPlanMissing(RegionId(4), LoopPlanId(0)));
}

#[test]
fn predecessors_bring_one_value() {
    let mut broken = facts();
    broken.dataflow.phi_candidates[0].incoming[1].pred = Some(BlockRef(1));
    let value = loop_value(0, 0, (1, 1), (1, 2));
    assert_eq!(
        refused(&broken, with_loop(Vec::new(), Vec::new(), vec![value])),
        Fault::PhiPredecessorConflict(PhiId(0))
    );
    let mut broken = facts();
    broken.dataflow.phi_candidates[0].incoming[1].pred = Some(BlockRef(usize::MAX));
    assert_eq!(refused(&broken, plan()), Fault::PredecessorOverflow);
}

#[test]
fn loop_heads_have_one_phi_each() {
    fn fault(plan: &StructurePlan) -> Fault {
        match CanonicalEdgeCopyTargets::build(plan, 2) {
            Ok(_) => panic!("the plan was accepted"),
            Err(error) => error.fault,
        }
    }
    let value = |phi: usize, reg: usize| loop_value(phi, reg, (1, 1), (2, 2));
    assert_eq!(
        fault(&with_loop(vec![value(9, 0)], Vec::new(), Vec::new())),
        Fault::LoopHeaderMissingPhi(RegionId(4), PhiId(9))
    );
    assert_eq!(
        fault(&with_loop(vec![value(0, 3), value(1, 3)], Vec::new(), Vec::new())),
        Fault::LoopHeaderTwice(RegionId(4), Reg(3))
    );
    assert_eq!(
        fault(&with_loop(vec![value(0, 3)], vec![value(9, 3)], Vec::new())),
        Fault::LoopExitMissingPhi(RegionId(4), PhiId(9))
    );
    assert_eq!(
        fault(&with_loop(vec![value(0, usize::MAX)], Vec::new(), Vec::new())),
        Fault::LoopRegisterOverflow
    );
}

#[test]
fn a_break_writes_the_phi_at_the_head() {
    let value = |phi: usize, reg: usize| loop_value(phi, reg, (1, 1), (2, 2));
    let mut plan = with_loop(vec![value(0, 3)], vec![value(1, 3)], Vec::new());
    plan.edge_plans[2].transfer = EdgeTransfer::Break(RegionId(4));
    let targets = match CanonicalEdgeCopyTargets::build(&plan, 2) {
        Ok(targets) => targets,
        Err(error) => panic!("{}", error.detail()),
    };
    let incoming = PhiIncoming {
        edge: Some(EdgeRef(2)),
        pred: Some(BlockRef(1)),
        value: SsaValue::Def(DefId(1)),
    };
    let result = PhiIncomingDisposition::RegionResult(RegionId(4));
    assert_eq!(targets.for_incoming(&plan, PhiId(1), incoming, result), PhiId(0));
    assert_eq!(
        targets.for_incoming(&plan, PhiId(1), incoming, PhiIncomingDisposition::EdgeCopy),
        PhiId(1)
    );
    let mut twice = with_loop(vec![value(0, 3), value(1, 4)], vec![value(1, 3), value(1, 4)], Vec::new());
    twice.edge_plans[2].transfer = EdgeTransfer::Break(RegionId(4));
    match CanonicalEdgeCopyTargets::build(&twice, 2) {
        Ok(_) => panic!("the second target was accepted"),
        Err(error) => assert_eq!(error.fault, Fault::CanonicalTargetConflict(PhiId(1))),
    }
}

#[test]
fn a_structure_is_completed() {
    let facts = facts();
    let load = LowInstr::LoadConst(LoadInstr { dst: Reg(0) });
    let proto = LoweredProto {
        instrs: vec![LowInstr::LoadConst(LoadInstr { dst: Reg(1) }), load, load, load],
    };
    let context = AnalysisContext {
        proto: &proto,
        cfg: &facts.graphs.cfg,
        graph: &facts.graph,
        dataflow: &facts.dataflow,
        can_continue: false,
    };
    let info = DebugInfo {
        locals: vec![DebugLocal {
            reg: Reg(0),
            start_pc: 3,
            end_pc: 4,
            is_source: true,
        }],
        pc_map: vec![vec![0], vec![1], vec![2], vec![3]],
    };
    let done = match context.complete_structure(plan(), &info, vec![Ok(structure_facts(&facts))]) {
        Ok(done) => done,
        Err(error) => panic!("{}", error.detail()),
    };
    assert_eq!(done.plan().phis.len(), 1);
    assert_eq!(done.children.len(), 1);
    assert_eq!(done.debug_bindings().accepted.len(), 1);
    assert_eq!(done.debug_bindings().accepted[0].value, SsaValue::Phi(PhiId(0)));
    let inner = LocatedError::here(StructureError::invalid(Fault::NoBlocks)).context(3);
    match context.complete_structure(plan(), &info, vec![Ok(structure_facts(&facts)), Err(inner)]) {
        Ok(_) => panic!("the nested error was lost"),
        Err(error) => {
            assert_eq!(error.error.fault, Fault::NoBlocks);
            assert_eq!(error.path, vec![1, 3]);
            assert_eq!(error.detail(), "child proto #1: child proto #3: CFG has no blocks");
        }
    }
    let mut broken = plan();
    broken.root = RegionId(90);
    match context.complete_structure(broken, &info, Vec::new()) {
        Ok(_) => panic!("the plan was accepted"),
        Err(error) => {
            assert_eq!(error.error.fault, Fault::RegionRootMissing);
            assert!(error.path.is_empty());
        }
    }
}
