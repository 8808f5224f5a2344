use structure::analyze::{AnalysisContext, ControlEvidence, StructureSkeleton};
use structure::cfg::{BasicBlock, BlockKind, Cfg, CfgEdge, CfgGraph, EdgeKind, InstrRange};
use structure::compute::{compute_dataflow_facts, ProtoEffects};
use structure::dataflow::{DataflowFacts, InstrEffect, SideEffectSummary};
use structure::error::Fault;
use structure::evidence::{BranchCandidate, BranchKind, GotoReason, GotoRequirement, LoopKindHint, LoopSourceBindings};
use structure::final_input::{unique_branch_regions, unique_branch_value_merges, FinalPlanInput};
use structure::graph::{analyze_graph_facts, GraphFacts};
use structure::ids::{BlockRef, EdgeRef, InstrRef, Reg};
use structure::idset::IdSet;
use structure::lir::{
    BranchCond, BranchInstr, BranchSubject, CondOperand, JumpInstr, LoadInstr, LowInstr, LoweredProto, NumericForInstr,
    ReturnInstr, ValuePack,
};

const T: EdgeKind = EdgeKind::BranchTrue;
const F: EdgeKind = EdgeKind::BranchFalse;
const J: EdgeKind = EdgeKind::Jump;
const N: EdgeKind = EdgeKind::Fallthrough;

struct Program {
    proto: LoweredProto,
    graphs: CfgGraph,
    facts: GraphFacts,
    dataflow: DataflowFacts,
}

impl Program {
    fn context(&self) -> AnalysisContext<'_> {
        AnalysisContext {
            proto: &self.proto,
            cfg: &self.graphs.cfg,
            graph: &self.facts,
            dataflow: &self.dataflow,
            can_continue: true,
        }
    }
}

fn load(dst: usize) -> LowInstr {
    LowInstr::LoadConst(LoadInstr { dst: Reg(dst) })
}

fn branch(reg: usize, yes: usize, no: usize) -> LowInstr {
    LowInstr::Branch(BranchInstr {
        cond: BranchCond {
            subject: BranchSubject::Truthy(CondOperand::Reg(Reg(reg))),
            negated: false,
        },
        then_target: InstrRef(yes),
        else_target: InstrRef(no),
    })
}

fn jump(target: usize) -> LowInstr {
    LowInstr::Jump(JumpInstr {
        target: InstrRef(target),
    })
}

fn give() -> LowInstr {
    LowInstr::Return(ReturnInstr {
        values: ValuePack::Fixed(structure::ids::RegRange {
            start: Reg(0),
            len: 0,
        }),
    })
}

fn effect(instr: &LowInstr) -> InstrEffect {
    let mut uses = IdSet::new();
    let mut defs = IdSet::new();
    match instr {
        LowInstr::LoadConst(i) => {
            defs.insert(i.dst);
        }
        LowInstr::Branch(i) => {
            if let BranchSubject::Truthy(CondOperand::Reg(reg)) = i.cond.subject {
                uses.insert(reg);
            }
        }
        LowInstr::NumericForInit(i) | LowInstr::NumericForLoop(i) => {
            uses.insert(i.index);
            uses.insert(i.limit);
            uses.insert(i.step);
            defs.insert(i.index);
            defs.insert(i.binding);
        }
        _ => {}
    }
    InstrEffect {
        fixed_uses: uses,
        fixed_must_defs: defs,
        open_use: None,
        open_must_def: None,
    }
}

/// One block for each instruction, then an empty exit.
fn program(instrs: Vec<LowInstr>, edges: &[(usize, usize, EdgeKind)]) -> Program {
    let count = instrs.len();
    let mut blocks = Vec::new();
    for i in 0..count {
        blocks.push(BasicBlock {
            kind: BlockKind::Normal,
            instrs: InstrRange::new(InstrRef(i), 1),
        });
    }
    blocks.push(BasicBlock {
        kind: BlockKind::SyntheticExit,
        instrs: InstrRange::new(InstrRef(count), 0),
    });
    let mut preds = vec![Vec::new(); count + 1];
    let mut succs = vec![Vec::new(); count + 1];
    let mut list = Vec::new();
    for (i, (from, to, kind)) in edges.iter().enumerate() {
        succs[*from].push(EdgeRef(i));
        preds[*to].push(EdgeRef(i));
        list.push(CfgEdge {
            from: BlockRef(*from),
            to: BlockRef(*to),
            kind: *kind,
        });
    }
    let mut reachable = IdSet::new();
    let mut pending = vec![0];
    while let Some(b) = pending.pop() {
        if reachable.insert(BlockRef(b)) {
            for (from, to, _) in edges {
                if *from == b {
                    pending.push(*to);
                }
            }
        }
    }
    let cfg = Cfg {
        blocks,
        edges: list,
        entry_block: BlockRef(0),
        exit_block: BlockRef(count),
        block_order: (0..count).map(BlockRef).collect(),
        instr_to_block: (0..count).map(BlockRef).collect(),
        preds,
        succs,
        reachable_blocks: reachable,
    };
    let graphs = CfgGraph {
        cfg,
        children: Vec::new(),
    };
    let facts = match analyze_graph_facts(&graphs) {
        Ok(facts) => facts,
        Err(error) => panic!("{}", error.detail()),
    };
    let effects = ProtoEffects {
        instr_effects: instrs.iter().map(effect).collect(),
        effect_summaries: instrs.iter().map(|_| SideEffectSummary { tags: Vec::new() }).collect(),
        reg_count: 8,
        entry_open_start: None,
        children: Vec::new(),
    };
    let dataflow = match compute_dataflow_facts(&effects, &graphs, &facts) {
        Ok(dataflow) => dataflow,
        Err(error) => panic!("{}", error.detail()),
    };
    Program {
        proto: LoweredProto { instrs },
        graphs,
        facts,
        dataflow,
    }
}

fn nothing() -> ControlEvidence {
    ControlEvidence {
        short_circuits: Vec::new(),
        closed_control_dags: Vec::new(),
        linear_exits: Vec::new(),
        regions: Vec::new(),
        scopes: Vec::new(),
    }
}

fn planned(program: &Program, skeleton: StructureSkeleton) -> FinalPlanInput {
    match program.context().plan_input(skeleton, nothing()) {
        Ok(input) => input,
        Err(error) => panic!("{}", error.detail()),
    }
}

fn while_with_if() -> Program {
    program(
        vec![load(0), branch(0, 2, 5), branch(1, 3, 4), load(0), jump(1), give()],
        &[
            (0, 1, N),
            (1, 2, T),
            (1, 5, F),
            (2, 3, T),
            (2, 4, F),
            (3, 4, N),
            (4, 1, J),
            (5, 6, EdgeKind::Return),
        ],
    )
}

fn if_else() -> Program {
    program(
        vec![branch(1, 1, 3), load(0), jump(4), load(0), branch(0, 5, 6), load(2), give()],
        &[
            (0, 1, T),
            (0, 3, F),
            (1, 2, N),
            (2, 4, J),
            (3, 4, N),
            (4, 5, T),
            (4, 6, F),
            (5, 6, N),
            (6, 7, EdgeKind::Return),
        ],
    )
}

fn repeat_loop() -> Program {
    program(
        vec![load(0), load(1), branch(1, 3, 1), give()],
        &[(0, 1, N), (1, 2, N), (2, 3, T), (2, 1, F), (3, 4, EdgeKind::Return)],
    )
}

fn numeric_for() -> Program {
    let state = NumericForInstr {
        index: Reg(0),
        limit: Reg(1),
        step: Reg(2),
        binding: Reg(3),
        body_target: InstrRef(1),
        exit_target: InstrRef(3),
    };
    program(
        vec![LowInstr::NumericForInit(state), load(4), LowInstr::NumericForLoop(state), give()],
        &[
            (0, 1, EdgeKind::LoopBody),
            (0, 3, EdgeKind::LoopExit),
            (1, 2, N),
            (2, 1, EdgeKind::LoopBody),
            (2, 3, EdgeKind::LoopExit),
            (3, 4, EdgeKind::Return),
        ],
    )
}

fn two_entries() -> Program {
    program(
        vec![branch(0, 1, 2), branch(1, 2, 3), branch(2, 1, 3), give()],
        &[
            (0, 1, T),
            (0, 2, F),
            (1, 2, T),
            (1, 3, F),
            (2, 1, T),
            (2, 3, F),
            (3, 4, EdgeKind::Return),
        ],
    )
}

fn blocks(list: &[usize]) -> Vec<BlockRef> {
    list.iter().map(|b| BlockRef(*b)).collect()
}

#[test]
fn a_while_loop_is_found() {
    let program = while_with_if();
    let skeleton = program.context().analyze_skeleton();
    assert_eq!(skeleton.loops.len(), 1);
    let found = &skeleton.loops[0];
    assert_eq!(found.header, BlockRef(1));
    assert_eq!(found.kind_hint, LoopKindHint::WhileLike);
    assert_eq!(found.preheader, Some(BlockRef(0)));
    assert_eq!(found.blocks.to_vec(), blocks(&[1, 2, 3, 4]));
    assert_eq!(found.exits.to_vec(), blocks(&[5]));
    assert_eq!(found.backedges, vec![EdgeRef(6)]);
    assert_eq!(found.header_value_merges.len(), 1);
    assert_eq!(found.header_value_merges[0].reg, Reg(0));
    assert!(skeleton.irreducible.is_empty());
}

#[test]
fn a_branch_inside_a_loop_is_found() {
    let program = while_with_if();
    let skeleton = program.context().analyze_skeleton();
    let inner: Vec<BranchCandidate> = skeleton.branches.iter().copied().filter(|b| b.header == BlockRef(2)).collect();
    assert_eq!(
        inner,
        vec![BranchCandidate {
            header: BlockRef(2),
            then_entry: BlockRef(3),
            else_entry: None,
            merge: Some(BlockRef(4)),
            kind: BranchKind::IfThen,
            invert_hint: false,
        }]
    );
    let input = planned(&program, skeleton);
    assert!(input.residual_transfers.is_empty());
    assert_eq!(input.loops.len(), 1);
    assert_eq!(input.loops[0].continuation, Some(BlockRef(5)));
    assert!(input.loops[0].condition.is_some());
}

#[test]
fn both_arms_hand_a_value_to_the_merge() {
    let program = if_else();
    let skeleton = program.context().analyze_skeleton();
    assert!(skeleton.loops.is_empty());
    assert_eq!(skeleton.branches.len(), 2);
    assert_eq!(
        skeleton.branches[0],
        BranchCandidate {
            header: BlockRef(0),
            then_entry: BlockRef(1),
            else_entry: Some(BlockRef(3)),
            merge: Some(BlockRef(4)),
            kind: BranchKind::IfElse,
            invert_hint: false,
        }
    );
    assert_eq!(skeleton.branches[1].merge, Some(BlockRef(6)));
    assert_eq!(skeleton.branches[1].kind, BranchKind::IfThen);
    let input = planned(&program, skeleton);
    let merge = match &input.branches[0].value_merge {
        Some(merge) => merge,
        None => panic!("no values are merged"),
    };
    assert_eq!(merge.merge, BlockRef(4));
    assert_eq!(merge.values.len(), 1);
    assert_eq!(merge.values[0].reg, Reg(0));
    assert_eq!(merge.values[0].then_arm.preds.to_vec(), blocks(&[2]));
    assert_eq!(merge.values[0].else_arm.preds.to_vec(), blocks(&[3]));
    assert!(input.branches[1].value_merge.is_none());
}

#[test]
fn a_repeat_loop_tests_at_its_end() {
    let program = repeat_loop();
    let skeleton = program.context().analyze_skeleton();
    assert_eq!(skeleton.loops.len(), 1);
    assert_eq!(skeleton.loops[0].kind_hint, LoopKindHint::RepeatLike);
    assert_eq!(skeleton.loops[0].header, BlockRef(1));
    assert_eq!(skeleton.loops[0].exits.to_vec(), blocks(&[3]));
    assert_eq!(skeleton.loops[0].blocks.to_vec(), blocks(&[1, 2]));
}

#[test]
fn a_numeric_for_loop_binds_its_variable() {
    let program = numeric_for();
    let skeleton = program.context().analyze_skeleton();
    assert_eq!(skeleton.loops.len(), 1);
    assert_eq!(skeleton.loops[0].kind_hint, LoopKindHint::NumericForLike);
    assert_eq!(skeleton.loops[0].source_bindings, Some(LoopSourceBindings::Numeric(Reg(3))));
    assert_eq!(skeleton.loops[0].preheader, Some(BlockRef(0)));
}

#[test]
fn a_loop_with_two_entries_needs_gotos() {
    let program = two_entries();
    let skeleton = program.context().analyze_skeleton();
    assert!(skeleton.loops.is_empty());
    assert_eq!(skeleton.irreducible.len(), 1);
    assert_eq!(skeleton.irreducible[0].entry, BlockRef(1));
    assert_eq!(skeleton.irreducible[0].blocks.to_vec(), blocks(&[1, 2]));
    assert_eq!(skeleton.irreducible[0].entry_edges, vec![EdgeRef(0), EdgeRef(1)]);
    let input = planned(&program, skeleton);
    assert_eq!(
        input.residual_transfers,
        vec![
            GotoRequirement {
                edge: EdgeRef(0),
                reason: GotoReason::IrreducibleFlow,
            },
            GotoRequirement {
                edge: EdgeRef(1),
                reason: GotoReason::IrreducibleFlow,
            },
        ]
    );
    assert_eq!(input.conditions.len(), 3);
    assert!(input.value_decisions.is_empty());
}

#[test]
fn branches_have_their_regions() {
    let program = if_else();
    let skeleton = program.context().analyze_skeleton();
    assert_eq!(skeleton.branch_regions.len(), 2);
    assert_eq!(skeleton.branch_regions[0].header, BlockRef(0));
    assert_eq!(skeleton.branch_regions[0].merge, BlockRef(4));
    assert!(skeleton.branch_regions[0].single_pass_fence.is_none());
}

#[test]
fn two_regions_for_one_branch_are_refused() {
    let program = if_else();
    let mut regions = program.context().analyze_skeleton().branch_regions;
    assert!(unique_branch_regions(&regions).is_ok());
    let again = program.context().analyze_skeleton().branch_regions.remove(0);
    regions.push(again);
    match unique_branch_regions(&regions) {
        Ok(()) => panic!("the second region was accepted"),
        Err(error) => assert_eq!(error.fault, Fault::BranchRegionTwice(BlockRef(0))),
    }
}

#[test]
fn two_value_lists_for_one_branch_are_refused() {
    let program = if_else();
    let merge = |_: usize| {
        let skeleton = program.context().analyze_skeleton();
        program.context().gather_evidence(skeleton, nothing()).branch_value_merges.remove(0)
    };
    let mut merges = vec![merge(0)];
    assert!(unique_branch_value_merges(&merges).is_ok());
    merges.push(merge(1));
    match unique_branch_value_merges(&merges) {
        Ok(()) => panic!("the second list was accepted"),
        Err(error) => assert_eq!(error.fault, Fault::BranchValuesTwice(BlockRef(0), BlockRef(4))),
    }
}

fn guarded() -> Program {
    // while r0 do if r1 then continue end; r2 = k end
    program(
        vec![load(0), branch(0, 2, 6), branch(1, 3, 4), jump(1), load(2), jump(1), give()],
        &[
            (0, 1, N),
            (1, 2, T),
            (1, 6, F),
            (2, 3, T),
            (2, 4, F),
            (3, 1, J),
            (4, 5, N),
            (5, 1, J),
            (6, 7, EdgeKind::Return),
        ],
    )
}

#[test]
fn a_loop_with_two_ways_back_is_one_loop() {
    let program = guarded();
    let skeleton = program.context().analyze_skeleton();
    assert_eq!(skeleton.loops.len(), 1);
    assert_eq!(skeleton.loops[0].backedges, vec![EdgeRef(5), EdgeRef(7)]);
    assert_eq!(skeleton.loops[0].blocks.to_vec(), blocks(&[1, 2, 3, 4, 5]));
    let input = planned(&program, skeleton);
    assert_eq!(input.loops[0].continuation, Some(BlockRef(6)));
    assert!(input.residual_transfers.is_empty());
}

#[test]
fn every_decision_has_a_condition() {
    let program = while_with_if();
    let context = program.context();
    let skeleton = context.analyze_skeleton();
    assert!(planned(&program, skeleton).conditions.len() >= 2);
}
