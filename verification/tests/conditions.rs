use structure::cfg::{BasicBlock, BlockKind, Cfg, CfgEdge, EdgeKind, InstrRange};
use structure::condition_arcs::ConditionArcEvidence;
use structure::condition_safety::truncate_condition_at;
use structure::conditions::ConditionPlanInput;
use structure::evidence::{
    ShortCircuitCandidate, ShortCircuitExit, ShortCircuitNode, ShortCircuitNodeRef, ShortCircuitTarget,
};
use structure::guards::{compose_condition_guard, offset_condition_target};
use structure::ids::{BlockRef, EdgeRef, InstrRef};
use structure::idset::IdSet;

const TRUE: ShortCircuitTarget = ShortCircuitTarget::TruthyExit;
const FALSE: ShortCircuitTarget = ShortCircuitTarget::FalsyExit;

fn node(i: usize) -> ShortCircuitTarget {
    ShortCircuitTarget::Node(ShortCircuitNodeRef(i))
}

/// A graph in a line; only the blocks matter.
fn graph() -> Cfg {
    let count = 6;
    let mut reachable = IdSet::new();
    let mut blocks = Vec::new();
    let mut edges = Vec::new();
    let mut preds = vec![Vec::new()];
    let mut succs = Vec::new();
    for i in 0..count {
        reachable.insert(BlockRef(i));
        blocks.push(BasicBlock {
            kind: BlockKind::Normal,
            instrs: InstrRange::new(InstrRef(i), 1),
        });
        edges.push(CfgEdge {
            from: BlockRef(i),
            to: BlockRef(i + 1),
            kind: EdgeKind::Jump,
        });
        succs.push(vec![EdgeRef(i)]);
        preds.push(vec![EdgeRef(i)]);
    }
    succs.push(Vec::new());
    reachable.insert(BlockRef(count));
    blocks.push(BasicBlock {
        kind: BlockKind::SyntheticExit,
        instrs: InstrRange::new(InstrRef(count), 0),
    });
    Cfg {
        blocks,
        edges,
        entry_block: BlockRef(0),
        exit_block: BlockRef(count),
        block_order: (0..count).map(BlockRef).collect(),
        instr_to_block: (0..count).map(BlockRef).collect(),
        preds,
        succs,
        reachable_blocks: reachable,
    }
}

fn candidate(
    nodes: &[(usize, ShortCircuitTarget, ShortCircuitTarget)],
    truthy: usize,
    falsy: usize,
) -> ShortCircuitCandidate {
    let mut blocks = IdSet::new();
    for (header, _, _) in nodes {
        blocks.insert(BlockRef(*header));
    }
    ShortCircuitCandidate {
        header: BlockRef(nodes[0].0),
        blocks,
        entry: ShortCircuitNodeRef(0),
        nodes: nodes
            .iter()
            .enumerate()
            .map(|(i, (header, truthy, falsy))| ShortCircuitNode {
                id: ShortCircuitNodeRef(i),
                header: BlockRef(*header),
                truthy: *truthy,
                falsy: *falsy,
            })
            .collect(),
        exit: ShortCircuitExit::BranchExit {
            truthy: BlockRef(truthy),
            falsy: BlockRef(falsy),
        },
        result_reg: None,
        result_phi_id: None,
        entry_value: None,
        value_incomings: Vec::new(),
        reducible: true,
    }
}

fn input(candidate: ShortCircuitCandidate) -> ConditionPlanInput {
    let mut arcs = Vec::new();
    for n in &candidate.nodes {
        for (truthy, target) in [(true, n.truthy), (false, n.falsy)] {
            arcs.push(ConditionArcEvidence {
                source: n.id,
                truthy,
                edges: Vec::new(),
                connector_blocks: Vec::new(),
                target,
            });
        }
    }
    ConditionPlanInput { candidate, arcs }
}

/// The block to which the condition leads; bit `b` of `truth` says how block `b` decides.
fn outcome(condition: &ShortCircuitCandidate, truth: usize) -> BlockRef {
    let mut at = ShortCircuitTarget::Node(condition.entry);
    for _ in 0..=condition.nodes.len() {
        if let ShortCircuitTarget::Node(i) = at {
            let n = condition.nodes[i.0];
            at = if truth >> n.header.0 & 1 == 1 { n.truthy } else { n.falsy };
        }
    }
    match condition.exit {
        ShortCircuitExit::BranchExit { truthy, falsy } => match at {
            ShortCircuitTarget::TruthyExit => truthy,
            ShortCircuitTarget::FalsyExit => falsy,
            other => panic!("{other:?}"),
        },
        other => panic!("{other:?}"),
    }
}

#[test]
fn joining_changes_no_outcome() {
    let cfg = graph();
    // `0 and 1`, which leads to 2 or 4; then `2 or 3`, which leads to 5 or 4
    let first = || candidate(&[(0, node(1), FALSE), (1, TRUE, FALSE)], 2, 4);
    let second = input(candidate(&[(2, TRUE, node(1)), (3, TRUE, FALSE)], 5, 4));
    let mut whole = input(first());
    assert!(compose_condition_guard(&cfg, &mut whole, &second));
    assert_eq!(whole.candidate.nodes.len(), 4);
    assert_eq!(whole.arcs.len(), 8);
    assert_eq!(whole.candidate.header, BlockRef(0));
    for truth in 0..16 {
        let one = outcome(&first(), truth);
        let expected = if one == BlockRef(2) { outcome(&second.candidate, truth) } else { one };
        assert_eq!(outcome(&whole.candidate, truth), expected, "{truth}");
    }
}

#[test]
fn conditions_that_do_not_meet_stay_apart() {
    let cfg = graph();
    let mut first = input(candidate(&[(0, TRUE, FALSE)], 2, 4));
    let elsewhere = input(candidate(&[(3, TRUE, FALSE)], 5, 4));
    assert!(!compose_condition_guard(&cfg, &mut first, &elsewhere));
    let other_end = input(candidate(&[(2, TRUE, FALSE)], 5, 3));
    assert!(!compose_condition_guard(&cfg, &mut first, &other_end));
    assert_eq!(first.candidate.nodes.len(), 1);
}

#[test]
fn cutting_changes_no_outcome() {
    let cfg = graph();
    // `0 and 1 and 2`
    let whole = candidate(&[(0, node(1), FALSE), (1, node(2), FALSE), (2, TRUE, FALSE)], 5, 4);
    let short = match truncate_condition_at(&cfg, &whole, 2) {
        Some(short) => short,
        None => panic!("the condition cannot be cut"),
    };
    assert_eq!(short.nodes.len(), 2);
    for truth in 0..8 {
        let expected = if truth & 3 == 3 { BlockRef(2) } else { BlockRef(4) };
        assert_eq!(outcome(&short, truth), expected);
        if expected == BlockRef(4) {
            assert_eq!(outcome(&whole, truth), expected);
        }
    }
    // `(0 or 1) and 2`: node 0 passes over node 1
    let over = candidate(&[(0, node(2), node(1)), (1, node(2), FALSE), (2, TRUE, FALSE)], 5, 4);
    assert!(truncate_condition_at(&cfg, &over, 1).is_none());
}

#[test]
fn numbers_are_raised() {
    assert_eq!(offset_condition_target(node(2), 3), node(5));
    assert_eq!(offset_condition_target(TRUE, 3), TRUE);
}
