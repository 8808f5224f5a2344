use structure::cfg::{BasicBlock, BlockKind, Cfg, CfgEdge, CfgGraph, EdgeKind, InstrRange};
use structure::error::Fault;
use structure::graph::{analyze_graph, analyze_graph_facts};
use structure::ids::{BlockRef, EdgeRef, InstrRef};
use structure::idset::IdSet;
use structure::validate::validate_cfg;

/// Blocks of one instruction each, then an empty exit; everything is reachable.
fn graph(count: usize, edges: &[(usize, usize)]) -> Cfg {
    let mut blocks = Vec::new();
    for i in 0..count {
        blocks.push(BasicBlock {
            kind: BlockKind::Normal,
            instrs: InstrRange::new(InstrRef(i), 1),
        });
    }
    blocks.push(BasicBlock {
        kind: BlockKind::SyntheticExit,
        instrs: InstrRange::new(InstrRef(count), 0),
    });
    let mut preds = vec![Vec::new(); count + 1];
    let mut succs = vec![Vec::new(); count + 1];
    let mut list = Vec::new();
    for (i, (from, to)) in edges.iter().enumerate() {
        succs[*from].push(EdgeRef(i));
        preds[*to].push(EdgeRef(i));
        list.push(CfgEdge {
            from: BlockRef(*from),
            to: BlockRef(*to),
            kind: EdgeKind::Jump,
        });
    }
    let mut reachable = IdSet::new();
    let mut pending = vec![0];
    while let Some(b) = pending.pop() {
        if reachable.insert(BlockRef(b)) {
            for (from, to) in edges {
                if *from == b {
                    pending.push(*to);
                }
            }
        }
    }
    Cfg {
        blocks,
        edges: list,
        entry_block: BlockRef(0),
        exit_block: BlockRef(count),
        block_order: (0..count).map(BlockRef).collect(),
        instr_to_block: (0..count).map(BlockRef).collect(),
        preds,
        succs,
        reachable_blocks: reachable,
    }
}

fn line() -> Cfg {
    graph(2, &[(0, 1), (1, 2)])
}

fn fault(cfg: &Cfg) -> Fault {
    match validate_cfg(cfg) {
        Ok(()) => panic!("the graph was accepted"),
        Err(error) => error.fault,
    }
}

#[test]
fn a_line_is_accepted() {
    assert!(validate_cfg(&line()).is_ok());
}

#[test]
fn an_empty_graph_is_refused() {
    let mut cfg = line();
    cfg.blocks.clear();
    assert_eq!(fault(&cfg), Fault::NoBlocks);
}

#[test]
fn entry_and_exit_must_exist() {
    let mut cfg = line();
    cfg.exit_block = BlockRef(9);
    assert_eq!(fault(&cfg), Fault::MissingEntryOrExit);
}

#[test]
fn entry_and_exit_must_differ() {
    let mut cfg = line();
    cfg.entry_block = BlockRef(2);
    assert_eq!(fault(&cfg), Fault::EntryIsExit);
}

#[test]
fn adjacency_covers_the_blocks() {
    let mut cfg = line();
    cfg.preds.pop();
    assert_eq!(fault(&cfg), Fault::AdjacencyLength);
}

#[test]
fn the_order_names_blocks_once() {
    let mut cfg = line();
    cfg.block_order.push(BlockRef(8));
    assert_eq!(fault(&cfg), Fault::OrderMissingBlock(BlockRef(8)));
    let mut cfg = line();
    cfg.block_order.push(BlockRef(1));
    assert_eq!(fault(&cfg), Fault::OrderInvalidBlock(BlockRef(1)));
    let mut cfg = line();
    cfg.block_order.pop();
    assert_eq!(fault(&cfg), Fault::BlockNotOrdered(1));
}

#[test]
fn ranges_lie_in_the_prototype() {
    let mut cfg = line();
    cfg.blocks[1].instrs = InstrRange::new(InstrRef(usize::MAX), 2);
    assert_eq!(fault(&cfg), Fault::RangeOverflow(BlockRef(1)));
    let mut cfg = line();
    cfg.blocks[1].instrs = InstrRange::new(InstrRef(1), 2);
    assert_eq!(fault(&cfg), Fault::RangeExceedsProto(BlockRef(1)));
}

#[test]
fn instructions_have_one_block() {
    let mut cfg = line();
    cfg.instr_to_block[1] = BlockRef(0);
    assert_eq!(fault(&cfg), Fault::InstrOwnership(1));
    let mut cfg = line();
    cfg.instr_to_block.push(BlockRef(1));
    assert_eq!(fault(&cfg), Fault::InstrsUncovered);
}

#[test]
fn the_exit_is_synthetic() {
    let mut cfg = line();
    cfg.blocks[2].kind = BlockKind::Normal;
    assert_eq!(fault(&cfg), Fault::ExitNotSynthetic);
}

#[test]
fn edges_join_blocks() {
    let mut cfg = line();
    cfg.edges[1].to = BlockRef(7);
    assert_eq!(fault(&cfg), Fault::EdgeMissingBlock(1));
}

#[test]
fn adjacency_matches_edges() {
    let mut cfg = line();
    cfg.succs[0].push(EdgeRef(5));
    assert_eq!(fault(&cfg), Fault::SuccessorMissingEdge(0, EdgeRef(5)));
    let mut cfg = line();
    cfg.succs[0].push(EdgeRef(1));
    assert_eq!(fault(&cfg), Fault::SuccessorWrongSource(EdgeRef(1)));
    let mut cfg = line();
    cfg.preds[1].push(EdgeRef(6));
    assert_eq!(fault(&cfg), Fault::PredecessorMissingEdge(1, EdgeRef(6)));
    let mut cfg = line();
    cfg.preds[1].push(EdgeRef(1));
    assert_eq!(fault(&cfg), Fault::PredecessorWrongTarget(EdgeRef(1)));
    let mut cfg = line();
    cfg.succs[0].push(EdgeRef(0));
    assert_eq!(fault(&cfg), Fault::EdgeNotIndexedOnce);
}

#[test]
fn reachability_is_exact() {
    let mut cfg = line();
    cfg.reachable_blocks.insert(BlockRef(11));
    assert_eq!(fault(&cfg), Fault::ReachabilityMissingBlock(BlockRef(11)));
    let mut cfg = line();
    cfg.reachable_blocks.remove(BlockRef(1));
    assert_eq!(fault(&cfg), Fault::ReachabilityStale);
}

#[test]
fn an_unreachable_block_is_accepted() {
    let cfg = graph(3, &[(0, 1), (1, 3), (2, 1)]);
    assert!(validate_cfg(&cfg).is_ok());
    assert!(!cfg.reachable_blocks.contains(BlockRef(2)));
    let facts = match analyze_graph(&cfg, Vec::new()) {
        Ok(facts) => facts,
        Err(error) => panic!("{}", error.detail()),
    };
    assert!(!facts.dominates(BlockRef(0), BlockRef(2)));
    assert!(facts.dominates(BlockRef(2), BlockRef(2)));
    assert_eq!(facts.dominator_tree.parent(BlockRef(2)), None);
}

#[test]
fn a_diamond_has_its_facts() {
    let cfg = graph(4, &[(0, 1), (0, 2), (1, 3), (2, 3), (3, 4)]);
    let facts = match analyze_graph(&cfg, Vec::new()) {
        Ok(facts) => facts,
        Err(error) => panic!("{}", error.detail()),
    };
    assert_eq!(facts.dominator_tree.parent(BlockRef(3)), Some(BlockRef(0)));
    assert!(facts.dominates(BlockRef(0), BlockRef(3)));
    assert!(!facts.dominates(BlockRef(1), BlockRef(3)));
    assert!(facts.post_dominates(BlockRef(3), BlockRef(0)));
    assert!(!facts.post_dominates(BlockRef(1), BlockRef(0)));
    assert_eq!(facts.dominance_frontier_blocks(BlockRef(1)), vec![BlockRef(3)]);
    assert!(facts.dominance_frontier_is_empty(BlockRef(0)));
    assert_eq!(
        facts.dominator_tree.nearest_common_ancestor(BlockRef(1), BlockRef(2)),
        Some(BlockRef(0))
    );
    assert_eq!(facts.nearest_common_postdom(BlockRef(1), BlockRef(2)), Some(BlockRef(3)));
    assert_eq!(facts.rpo.first(), Some(&BlockRef(0)));
    assert_eq!(facts.rpo.last(), Some(&BlockRef(4)));
    assert!(facts.natural_loops.is_empty());
    assert!(facts.backedges.is_empty());
    assert_eq!(facts.strongly_connected_components.len(), 5);
}

#[test]
fn nested_loops_are_found() {
    // 0 -> 1 (outer) -> 2 (inner) -> 3 -> 2, 2 -> 4 -> 1, 1 -> 5
    let cfg = graph(5, &[(0, 1), (1, 2), (2, 3), (3, 2), (2, 4), (4, 1), (1, 5)]);
    let facts = match analyze_graph(&cfg, Vec::new()) {
        Ok(facts) => facts,
        Err(error) => panic!("{}", error.detail()),
    };
    assert_eq!(facts.backedges, vec![EdgeRef(3), EdgeRef(5)]);
    assert_eq!(facts.natural_loops.len(), 2);
    assert_eq!(facts.natural_loops[0].header, BlockRef(1));
    assert_eq!(
        facts.natural_loops[0].blocks.to_vec(),
        vec![BlockRef(1), BlockRef(2), BlockRef(3), BlockRef(4)]
    );
    assert_eq!(facts.natural_loops[1].header, BlockRef(2));
    assert_eq!(facts.natural_loops[1].blocks.to_vec(), vec![BlockRef(2), BlockRef(3)]);
    assert!(facts.block_is_cyclic(BlockRef(4)));
    assert!(!facts.block_is_cyclic(BlockRef(0)));
    assert_eq!(facts.strongly_connected_components.len(), 3);
    assert!(facts.dominance_frontier_blocks(BlockRef(3)).contains(&BlockRef(2)));
    assert!(facts.dominance_frontier_blocks(BlockRef(2)).contains(&BlockRef(2)));
}

#[test]
fn a_nested_prototype_is_checked_too() {
    let mut inner = line();
    inner.blocks.clear();
    let graphs = CfgGraph {
        cfg: line(),
        children: vec![CfgGraph {
            cfg: inner,
            children: Vec::new(),
        }],
    };
    match analyze_graph_facts(&graphs) {
        Ok(_) => panic!("the nested graph was accepted"),
        Err(error) => assert_eq!(error.fault, Fault::NoBlocks),
    }
    let graphs = CfgGraph {
        cfg: line(),
        children: vec![CfgGraph {
            cfg: line(),
            children: Vec::new(),
        }],
    };
    match analyze_graph_facts(&graphs) {
        Ok(facts) => assert_eq!(facts.children.len(), 1),
        Err(error) => panic!("{}", error.detail()),
    }
}
