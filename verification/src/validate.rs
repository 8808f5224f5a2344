//! Consistency of a control-flow graph.

use vstd::prelude::*;

use crate::cfg::{BlockKind, Cfg};
use crate::error::{Fault, StructureError};
use crate::flood::{flood, floods_to, mask_set, reachable_in_range, set_to_mask, step_in};
use crate::ids::{BlockRef, EdgeRef};
use crate::search::{
    count_where, count_where_one, count_where_zero, first_some, first_some_empty,
    first_some_stable, first_where, first_where_least, first_where_stable,
};
use crate::walk::{reaches, reaches_monotone};

verus! {

/// The `i`-th instruction of block `b` is recorded under another block.
pub open spec fn misowned(cfg: &Cfg, b: BlockRef) -> spec_fn(int) -> bool {
    |i: int| cfg.instr_to_block@[cfg.range(b).start.0 + i] != b
}

/// What is wrong with position `k` of the block order, given that nothing is before it.
pub open spec fn order_fault_at(cfg: &Cfg, k: int) -> Option<Fault> {
    let b = cfg.block_order@[k];
    if !cfg.has_block(b) {
        Some(Fault::OrderMissingBlock(b))
    } else if b == cfg.exit_block || cfg.block_order@.subrange(0, k).contains(b) {
        Some(Fault::OrderInvalidBlock(b))
    } else if cfg.range(b).end_at() > usize::MAX {
        Some(Fault::RangeOverflow(b))
    } else if cfg.range(b).end_at() > cfg.instr_to_block@.len() {
        Some(Fault::RangeExceedsProto(b))
    } else {
        match first_where(cfg.range(b).len as nat, misowned(cfg, b)) {
            Some(i) => Some(Fault::InstrOwnership((cfg.range(b).start.0 + i) as usize)),
            None => None,
        }
    }
}

pub open spec fn order_fault(cfg: &Cfg) -> spec_fn(int) -> Option<Fault> {
    |k: int| order_fault_at(cfg, k)
}

pub open spec fn unordered_fault(cfg: &Cfg) -> spec_fn(int) -> Option<Fault> {
    |i: int|
        if i != cfg.exit_block.0 && !cfg.block_order@.contains(BlockRef(i as usize)) {
            Some(Fault::BlockNotOrdered(i as usize))
        } else {
            None
        }
}

/// Some ordered block's range holds instruction `i`.
pub open spec fn covered(cfg: &Cfg, upto: int, i: int) -> bool {
    exists|k: int|
        0 <= k < upto && cfg.range(#[trigger] cfg.block_order@[k]).start.0 <= i < cfg.range(
            cfg.block_order@[k],
        ).end_at()
}

pub open spec fn edge_fault(cfg: &Cfg) -> spec_fn(int) -> Option<Fault> {
    |e: int|
        if !cfg.has_block(cfg.edges@[e].from) || !cfg.has_block(cfg.edges@[e].to) {
            Some(Fault::EdgeMissingBlock(e as usize))
        } else {
            None
        }
}

/// The adjacency rows in one direction.
pub open spec fn rows(cfg: &Cfg, backward: bool) -> Seq<Vec<EdgeRef>> {
    if backward {
        cfg.preds@
    } else {
        cfg.succs@
    }
}

/// The block at whose row an edge belongs.
pub open spec fn home(cfg: &Cfg, backward: bool, e: EdgeRef) -> BlockRef {
    if backward {
        cfg.edge(e).to
    } else {
        cfg.edge(e).from
    }
}

pub open spec fn cell_fault(cfg: &Cfg, backward: bool, b: int) -> spec_fn(int) -> Option<Fault> {
    |k: int|
        {
            let e = rows(cfg, backward)[b]@[k];
            if !cfg.has_edge(e) {
                Some(
                    if backward {
                        Fault::PredecessorMissingEdge(b as usize, e)
                    } else {
                        Fault::SuccessorMissingEdge(b as usize, e)
                    },
                )
            } else if home(cfg, backward, e).0 != b {
                Some(
                    if backward {
                        Fault::PredecessorWrongTarget(e)
                    } else {
                        Fault::SuccessorWrongSource(e)
                    },
                )
            } else {
                None
            }
        }
}

pub open spec fn row_fault(cfg: &Cfg, backward: bool) -> spec_fn(int) -> Option<Fault> {
    |b: int| first_some(rows(cfg, backward)[b]@.len(), cell_fault(cfg, backward, b))
}

pub open spec fn is_edge(row: Seq<EdgeRef>, e: EdgeRef) -> spec_fn(int) -> bool {
    |k: int| row[k] == e
}

/// How often the first `n` rows mention an edge.
pub open spec fn mentions(table: Seq<Vec<EdgeRef>>, n: nat, e: EdgeRef) -> nat
    decreases n,
{
    if n == 0 {
        0
    } else {
        mentions(table, (n - 1) as nat, e) + count_where(table[n - 1]@.len(), is_edge(table[n - 1]@, e))
    }
}

/// Every edge is listed once by its source and once by its target.
pub open spec fn indexed_once(cfg: &Cfg, backward: bool) -> bool {
    forall|e: EdgeRef| #[trigger]
        cfg.has_edge(e) ==> mentions(rows(cfg, backward), rows(cfg, backward).len(), e) == 1
}

pub open spec fn reach_range_fault(cfg: &Cfg) -> spec_fn(int) -> Option<Fault> {
    |k: int|
        if !cfg.has_block(cfg.reachable_blocks.seq()[k]) {
            Some(Fault::ReachabilityMissingBlock(cfg.reachable_blocks.seq()[k]))
        } else {
            None
        }
}

/// The fault that makes the graph unusable: the first one, in the order of the checks.
pub open spec fn cfg_fault(cfg: &Cfg) -> Option<Fault> {
    let n = cfg.blocks@.len();
    let ordered = first_some(cfg.block_order@.len(), order_fault(cfg));
    let unordered = first_some(n, unordered_fault(cfg));
    let edges = first_some(cfg.edges@.len(), edge_fault(cfg));
    let out_rows = first_some(n, row_fault(cfg, false));
    let in_rows = first_some(n, row_fault(cfg, true));
    let reach = first_some(cfg.reachable_blocks.seq().len(), reach_range_fault(cfg));
    if n == 0 {
        Some(Fault::NoBlocks)
    } else if !cfg.has_block(cfg.entry_block) || !cfg.has_block(cfg.exit_block) {
        Some(Fault::MissingEntryOrExit)
    } else if cfg.entry_block == cfg.exit_block {
        Some(Fault::EntryIsExit)
    } else if cfg.preds@.len() != n || cfg.succs@.len() != n {
        Some(Fault::AdjacencyLength)
    } else if ordered is Some {
        ordered
    } else if unordered is Some {
        unordered
    } else if exists|i: int|
        0 <= i < cfg.instr_to_block@.len() && !#[trigger] covered(cfg, cfg.block_order@.len() as int, i) {
        Some(Fault::InstrsUncovered)
    } else if cfg.blocks@[cfg.exit_block.0 as int].kind != BlockKind::SyntheticExit {
        Some(Fault::ExitNotSynthetic)
    } else if edges is Some {
        edges
    } else if out_rows is Some {
        out_rows
    } else if in_rows is Some {
        in_rows
    } else if !indexed_once(cfg, false) || !indexed_once(cfg, true) {
        Some(Fault::EdgeNotIndexedOnce)
    } else if reach is Some {
        reach
    } else if !cfg.reachability_wf() {
        Some(Fault::ReachabilityStale)
    } else {
        None
    }
}

/// Checks the block order, the instruction ranges and their ownership.
fn check_order(cfg: &Cfg) -> (r: Option<Fault>)
    requires
        cfg.has_block(cfg.exit_block),
    ensures
        r == ({
            let ordered = first_some(cfg.block_order@.len(), order_fault(cfg));
            let unordered = first_some(cfg.blocks@.len(), unordered_fault(cfg));
            if ordered is Some {
                ordered
            } else if unordered is Some {
                unordered
            } else if exists|i: int|
                0 <= i < cfg.instr_to_block@.len() && !#[trigger] covered(cfg, cfg.block_order@.len() as int, i) {
                Some(Fault::InstrsUncovered)
            } else {
                None
            }
        }),
{
    let block_count = cfg.blocks.len();
    let instr_count = cfg.instr_to_block.len();
    let mut seen_blocks: Vec<bool> = vec![false; block_count];
    let mut seen_instrs: Vec<bool> = vec![false; instr_count];
    let total = cfg.block_order.len();
    let mut k: usize = 0;
    while k < total
        invariant
            cfg.has_block(cfg.exit_block),
            block_count == cfg.blocks@.len(),
            instr_count == cfg.instr_to_block@.len(),
            total == cfg.block_order@.len(),
            seen_blocks@.len() == block_count,
            seen_instrs@.len() == instr_count,
            k <= total,
            first_some(k as nat, order_fault(cfg)) is None,
            forall|i: int| 0 <= i < block_count ==> #[trigger] seen_blocks@[i] == cfg.block_order@.subrange(
                0,
                k as int,
            ).contains(BlockRef(i as usize)),
            forall|i: int| 0 <= i < instr_count ==> #[trigger] seen_instrs@[i] == covered(cfg, k as int, i),
        decreases total - k,
    {
        let block = cfg.block_order[k];
        let ghost prefix = cfg.block_order@.subrange(0, k as int);
        proof {
            assert(first_some((k + 1) as nat, order_fault(cfg)) == order_fault_at(cfg, k as int));
            if order_fault_at(cfg, k as int) is Some {
                first_some_stable((k + 1) as nat, total as nat, order_fault(cfg));
            }
        }
        if block.0 >= block_count {
            return Some(Fault::OrderMissingBlock(block));
        }
        if block == cfg.exit_block || seen_blocks[block.0] {
            return Some(Fault::OrderInvalidBlock(block));
        }
        seen_blocks[block.0] = true;
        proof {
            assert(cfg.block_order@.subrange(0, k as int + 1) =~= prefix.push(block));
            assert forall|i: int| 0 <= i < block_count implies #[trigger] seen_blocks@[i]
                == cfg.block_order@.subrange(0, k as int + 1).contains(BlockRef(i as usize)) by {
                let q = BlockRef(i as usize);
                if prefix.contains(q) {
                    let j = choose|j: int| 0 <= j < prefix.len() && prefix[j] == q;
                    assert(prefix.push(block)[j] == q);
                }
                if q == block {
                    assert(prefix.push(block)[k as int] == q);
                }
            }
        }
        let range = cfg.blocks[block.0].instrs;
        let start: usize = range.start.0;
        if range.len > usize::MAX - start {
            return Some(Fault::RangeOverflow(block));
        }
        let end: usize = start + range.len;
        if end > instr_count {
            return Some(Fault::RangeExceedsProto(block));
        }
        let mut i: usize = start;
        while i < end
            invariant
                cfg.has_block(block),
                range == cfg.range(block),
                start == range.start.0,
                end == range.end_at(),
                end <= instr_count,
                instr_count == cfg.instr_to_block@.len(),
                block == cfg.block_order@[k as int],
                0 <= k < total,
                total == cfg.block_order@.len(),
                start <= i <= end,
                seen_instrs@.len() == instr_count,
                first_where((i - start) as nat, misowned(cfg, block)) is None,
                first_some(k as nat, order_fault(cfg)) is None,
                block != cfg.exit_block,
                !cfg.block_order@.subrange(0, k as int).contains(block),
                forall|j: int| 0 <= j < instr_count ==> #[trigger] seen_instrs@[j] == (covered(cfg, k as int, j) || (start <= j
                    < i)),
            ensures
                i == end,
            decreases end - i,
        {
            let owner = cfg.instr_to_block[i];
            proof {
                if covered(cfg, k as int, i as int) {
                    covered_is_owned(cfg, k as int, i as int);
                }
                assert(misowned(cfg, block)(i - start) == (owner != block));
            }
            if seen_instrs[i] || owner != block {
                proof {
                    assert(first_where((i - start + 1) as nat, misowned(cfg, block)) == Some((i - start) as int));
                    first_where_stable((i - start + 1) as nat, range.len as nat, misowned(cfg, block));
                    assert(order_fault_at(cfg, k as int) == Some(Fault::InstrOwnership(i)));
                    first_some_stable((k + 1) as nat, total as nat, order_fault(cfg));
                }
                return Some(Fault::InstrOwnership(i));
            }
            seen_instrs[i] = true;
            i = i + 1;
        }
        proof {
            assert forall|j: int| 0 <= j < instr_count implies #[trigger] seen_instrs@[j] == covered(
                cfg,
                k as int + 1,
                j,
            ) by {
                if covered(cfg, k as int, j) {
                    let q = choose|q: int|
                        0 <= q < k && cfg.range(#[trigger] cfg.block_order@[q]).start.0 <= j < cfg.range(
                            cfg.block_order@[q],
                        ).end_at();
                    assert(0 <= q < k + 1);
                }
                assert(cfg.block_order@[k as int] == block);
            }
        }
        k = k + 1;
    }
    assert(cfg.block_order@.subrange(0, total as int) =~= cfg.block_order@);
    let mut b: usize = 0;
    while b < block_count
        invariant
            block_count == cfg.blocks@.len(),
            seen_blocks@.len() == block_count,
            b <= block_count,
            first_some(b as nat, unordered_fault(cfg)) is None,
            forall|i: int| 0 <= i < block_count ==> #[trigger] seen_blocks@[i] == cfg.block_order@.contains(
                BlockRef(i as usize),
            ),
            first_some(cfg.block_order@.len(), order_fault(cfg)) is None,
        decreases block_count - b,
    {
        if b != cfg.exit_block.0 && !seen_blocks[b] {
            proof {
                assert(first_some((b + 1) as nat, unordered_fault(cfg)) == Some(Fault::BlockNotOrdered(b)));
                first_some_stable((b + 1) as nat, block_count as nat, unordered_fault(cfg));
            }
            return Some(Fault::BlockNotOrdered(b));
        }
        b = b + 1;
    }
    let mut i: usize = 0;
    while i < instr_count
        invariant
            instr_count == cfg.instr_to_block@.len(),
            seen_instrs@.len() == instr_count,
            i <= instr_count,
            total == cfg.block_order@.len(),
            forall|j: int| 0 <= j < instr_count ==> #[trigger] seen_instrs@[j] == covered(cfg, total as int, j),
            forall|j: int| 0 <= j < i ==> #[trigger] covered(cfg, total as int, j),
            first_some(cfg.block_order@.len(), order_fault(cfg)) is None,
            first_some(cfg.blocks@.len(), unordered_fault(cfg)) is None,
        decreases instr_count - i,
    {
        if !seen_instrs[i] {
            assert(!covered(cfg, total as int, i as int));
            return Some(Fault::InstrsUncovered);
        }
        i = i + 1;
    }
    None
}

/// An instruction that an accepted block covers is recorded under an accepted block.
proof fn covered_is_owned(cfg: &Cfg, upto: int, i: int)
    requires
        0 <= upto <= cfg.block_order@.len(),
        first_some(upto as nat, order_fault(cfg)) is None,
        covered(cfg, upto, i),
    ensures
        0 <= i < cfg.instr_to_block@.len(),
        cfg.block_order@.subrange(0, upto).contains(cfg.instr_to_block@[i]),
        exists|k: int| 0 <= k < upto && cfg.block_order@[k] == cfg.instr_to_block@[i] && cfg.range(
            #[trigger] cfg.block_order@[k],
        ).start.0 <= i < cfg.range(cfg.block_order@[k]).end_at(),
{
    let k = choose|k: int|
        0 <= k < upto && cfg.range(#[trigger] cfg.block_order@[k]).start.0 <= i < cfg.range(
            cfg.block_order@[k],
        ).end_at();
    let b = cfg.block_order@[k];
    first_some_empty(upto as nat, order_fault(cfg));
    assert(order_fault(cfg)(k) is None);
    assert(order_fault_at(cfg, k) is None);
    first_where_least(cfg.range(b).len as nat, misowned(cfg, b));
    let off = i - cfg.range(b).start.0;
    assert(!misowned(cfg, b)(off));
    assert(cfg.block_order@.subrange(0, upto)[k] == b);
}

/// Counts how often the rows mention each edge: not at all, once, or more often.
fn check_rows(cfg: &Cfg, backward: bool) -> (r: Result<Vec<u8>, Fault>)
    requires
        rows(cfg, backward).len() == cfg.blocks@.len(),
    ensures
        match r {
            Err(f) => first_some(cfg.blocks@.len(), row_fault(cfg, backward)) == Some(f),
            Ok(counts) => {
                &&& first_some(cfg.blocks@.len(), row_fault(cfg, backward)) is None
                &&& counts@.len() == cfg.edges@.len()
                &&& forall|e: int| 0 <= e < counts@.len() ==> (#[trigger] counts@[e] == 1) == (mentions(
                    rows(cfg, backward),
                    rows(cfg, backward).len(),
                    EdgeRef(e as usize),
                ) == 1)
            },
        },
{
    let block_count = cfg.blocks.len();
    let edge_count = cfg.edges.len();
    let mut counts: Vec<u8> = vec![0u8; edge_count];
    let ghost table = rows(cfg, backward);
    let mut b: usize = 0;
    while b < block_count
        invariant
            block_count == cfg.blocks@.len(),
            edge_count == cfg.edges@.len(),
            table == rows(cfg, backward),
            table.len() == block_count,
            counts@.len() == edge_count,
            b <= block_count,
            first_some(b as nat, row_fault(cfg, backward)) is None,
            forall|e: int| 0 <= e < edge_count ==> {
                let m = mentions(table, b as nat, EdgeRef(e as usize));
                #[trigger] counts@[e] == if m < 2 {
                    m as int
                } else {
                    2
                }
            },
        decreases block_count - b,
    {
        let m = if backward {
            cfg.preds[b].len()
        } else {
            cfg.succs[b].len()
        };
        let ghost row = table[b as int]@;
        let mut k: usize = 0;
        while k < m
            invariant
                block_count == cfg.blocks@.len(),
                edge_count == cfg.edges@.len(),
                table == rows(cfg, backward),
                table.len() == block_count,
                counts@.len() == edge_count,
                b < block_count,
                row == table[b as int]@,
                m == row.len(),
                k <= m,
                first_some(b as nat, row_fault(cfg, backward)) is None,
                first_some(k as nat, cell_fault(cfg, backward, b as int)) is None,
                forall|e: int| 0 <= e < edge_count ==> {
                    let t = mentions(table, b as nat, EdgeRef(e as usize)) + count_where(
                        k as nat,
                        is_edge(row, EdgeRef(e as usize)),
                    );
                    #[trigger] counts@[e] == if t < 2 {
                        t as int
                    } else {
                        2
                    }
                },
            decreases m - k,
        {
            let e = if backward {
                cfg.preds[b][k]
            } else {
                cfg.succs[b][k]
            };
            assert(e == row[k as int]);
            let ghost cells = cell_fault(cfg, backward, b as int);
            proof {
                assert(first_some((k + 1) as nat, cells) == cells(k as int));
                if cells(k as int) is Some {
                    first_some_stable((k + 1) as nat, m as nat, cells);
                    assert(row_fault(cfg, backward)(b as int) == cells(k as int));
                    assert(first_some((b + 1) as nat, row_fault(cfg, backward)) == cells(k as int));
                    first_some_stable((b + 1) as nat, block_count as nat, row_fault(cfg, backward));
                }
            }
            if e.0 >= edge_count {
                let f = if backward {
                    Fault::PredecessorMissingEdge(b, e)
                } else {
                    Fault::SuccessorMissingEdge(b, e)
                };
                return Err(f);
            }
            let at = if backward {
                cfg.edges[e.0].to
            } else {
                cfg.edges[e.0].from
            };
            if at.0 != b {
                let f = if backward {
                    Fault::PredecessorWrongTarget(e)
                } else {
                    Fault::SuccessorWrongSource(e)
                };
                return Err(f);
            }
            let c: u8 = counts[e.0];
            if c < 2 {
                counts[e.0] = c + 1;
            }
            proof {
                assert forall|q: int| 0 <= q < edge_count implies {
                    let t = mentions(table, b as nat, EdgeRef(q as usize)) + count_where(
                        (k + 1) as nat,
                        is_edge(row, EdgeRef(q as usize)),
                    );
                    #[trigger] counts@[q] == if t < 2 {
                        t as int
                    } else {
                        2
                    }
                } by {
                    assert(is_edge(row, EdgeRef(q as usize))(k as int) == (q == e.0));
                }
            }
            k = k + 1;
        }
        proof {
            assert(row_fault(cfg, backward)(b as int) is None);
        }
        b = b + 1;
    }
    Ok(counts)
}

fn all_one(counts: &Vec<u8>) -> (r: bool)
    ensures
        r == (forall|e: int| 0 <= e < counts@.len() ==> #[trigger] counts@[e] == 1),
{
    let n = counts.len();
    let mut i: usize = 0;
    while i < n
        invariant
            n == counts@.len(),
            i <= n,
            forall|e: int| 0 <= e < i ==> #[trigger] counts@[e] == 1,
        decreases n - i,
    {
        if counts[i] != 1 {
            return false;
        }
        i = i + 1;
    }
    true
}

fn check_edges(cfg: &Cfg) -> (r: Option<Fault>)
    ensures
        r == first_some(cfg.edges@.len(), edge_fault(cfg)),
{
    let block_count = cfg.blocks.len();
    let edge_count = cfg.edges.len();
    let mut e: usize = 0;
    while e < edge_count
        invariant
            block_count == cfg.blocks@.len(),
            edge_count == cfg.edges@.len(),
            e <= edge_count,
            first_some(e as nat, edge_fault(cfg)) is None,
        decreases edge_count - e,
    {
        let edge = cfg.edges[e];
        if edge.from.0 >= block_count || edge.to.0 >= block_count {
            proof {
                assert(first_some((e + 1) as nat, edge_fault(cfg)) == Some(Fault::EdgeMissingBlock(e)));
                first_some_stable((e + 1) as nat, edge_count as nat, edge_fault(cfg));
            }
            return Some(Fault::EdgeMissingBlock(e));
        }
        e = e + 1;
    }
    None
}

fn check_reachability(cfg: &Cfg) -> (r: Option<Fault>)
    requires
        cfg.adjacency_wf(),
        cfg.has_block(cfg.entry_block),
    ensures
        r == ({
            let reach = first_some(cfg.reachable_blocks.seq().len(), reach_range_fault(cfg));
            if reach is Some {
                reach
            } else if !cfg.reachability_wf() {
                Some(Fault::ReachabilityStale)
            } else {
                None
            }
        }),
{
    let n = cfg.blocks.len();
    let total = cfg.reachable_blocks.len();
    let mut k: usize = 0;
    while k < total
        invariant
            n == cfg.blocks@.len(),
            total == cfg.reachable_blocks.seq().len(),
            k <= total,
            first_some(k as nat, reach_range_fault(cfg)) is None,
        decreases total - k,
    {
        let b = cfg.reachable_blocks.at(k);
        if b.0 >= n {
            proof {
                assert(first_some((k + 1) as nat, reach_range_fault(cfg)) == Some(Fault::ReachabilityMissingBlock(b)));
                first_some_stable((k + 1) as nat, total as nat, reach_range_fault(cfg));
            }
            return Some(Fault::ReachabilityMissingBlock(b));
        }
        k = k + 1;
    }
    let declared = set_to_mask(&cfg.reachable_blocks, n);
    let allowed: Vec<bool> = vec![true; n];
    let mut starts: Vec<BlockRef> = Vec::new();
    starts.push(cfg.entry_block);
    let reachable = flood(cfg, &starts, &allowed, false);
    proof {
        let region = mask_set(allowed@);
        let inner = step_in(cfg, region, false);
        assert forall|b: BlockRef| #[trigger] mask_set(reachable@).contains(b) <==> reaches(
            cfg.step(),
            cfg.entry_block,
            b,
        ) by {
            assert forall|x: BlockRef, y: BlockRef| #[trigger] inner(x, y) <==> (cfg.step())(x, y) by {
                if cfg.links(x, y) {
                    let e = choose|e: EdgeRef| #[trigger]
                        cfg.has_edge(e) && cfg.edge(e).from == x && cfg.edge(e).to == y;
                    assert(cfg.has_block(x) && cfg.has_block(y));
                }
            }
            if reaches(cfg.step(), cfg.entry_block, b) {
                reaches_monotone(cfg.step(), inner, cfg.entry_block, b);
                assert(starts@[0] == cfg.entry_block);
                assert(region.contains(starts@[0]));
                assert(floods_to(cfg, starts@, region, false, b));
            }
            if mask_set(reachable@).contains(b) {
                assert(floods_to(cfg, starts@, region, false, b));
                reaches_monotone(inner, cfg.step(), cfg.entry_block, b);
            }
        }
        first_some_empty(total as nat, reach_range_fault(cfg));
        assert forall|b: BlockRef| #[trigger] cfg.is_reachable(b) implies cfg.has_block(b) by {
            let k = choose|k: int| 0 <= k < cfg.reachable_blocks.seq().len() && cfg.reachable_blocks.seq()[k] == b;
            assert(reach_range_fault(cfg)(k) is None);
        }
    }
    let mut b: usize = 0;
    while b < n
        invariant
            n == cfg.blocks@.len(),
            declared@.len() == n,
            reachable@.len() == n,
            b <= n,
            forall|j: int| 0 <= j < b ==> #[trigger] declared@[j] == reachable@[j],
            forall|i: int| 0 <= i < n ==> #[trigger] declared@[i] == cfg.reachable_blocks@.contains(BlockRef(i as usize)),
            forall|b: BlockRef| #[trigger] mask_set(reachable@).contains(b) <==> reaches(
                cfg.step(),
                cfg.entry_block,
                b,
            ),
            first_some(cfg.reachable_blocks.seq().len(), reach_range_fault(cfg)) is None,
        decreases n - b,
    {
        if declared[b] != reachable[b] {
            proof {
                let q = BlockRef(b);
                assert(declared@[q.0 as int] == cfg.reachable_blocks@.contains(q));
                assert(mask_set(reachable@).contains(q) == reachable@[b as int]);
                assert(!(cfg.reachable_blocks@.contains(q) <==> reaches(cfg.step(), cfg.entry_block, q)));
            }
            return Some(Fault::ReachabilityStale);
        }
        b = b + 1;
    }
    proof {
        assert forall|q: BlockRef| #[trigger] cfg.reachable_blocks@.contains(q) <==> reaches(
            cfg.step(),
            cfg.entry_block,
            q,
        ) by {
            assert(mask_set(reachable@).contains(q) <==> reaches(cfg.step(), cfg.entry_block, q));
            if cfg.has_block(q) {
                assert(declared@[q.0 as int] == reachable@[q.0 as int]);
            } else {
                assert(!cfg.is_reachable(q));
            }
        }
    }
    None
}

proof fn mentions_at_home(table: Seq<Vec<EdgeRef>>, n: nat, e: EdgeRef, h: int)
    requires
        n <= table.len(),
        0 <= h < table.len(),
        table[h]@.contains(e),
        table[h]@.no_duplicates(),
        forall|b: int| 0 <= b < table.len() && b != h ==> !(#[trigger] table[b])@.contains(e),
    ensures
        mentions(table, n, e) == if h < n {
            1nat
        } else {
            0nat
        },
    decreases n,
{
    if n > 0 {
        mentions_at_home(table, (n - 1) as nat, e, h);
        let row = table[n - 1]@;
        count_where_zero(row.len(), is_edge(row, e));
        count_where_one(row.len(), is_edge(row, e));
        if h == n - 1 {
            let k = choose|k: int| 0 <= k < row.len() && row[k] == e;
            assert(is_edge(row, e)(k));
            assert(count_where(row.len(), is_edge(row, e)) <= 1);
        } else {
            assert(!table[n - 1]@.contains(e));
            assert forall|k: int| 0 <= k < row.len() implies !#[trigger] is_edge(row, e)(k) by {
                assert(row.contains(row[k]));
            }
        }
    }
}

proof fn adjacency_is_indexed(cfg: &Cfg, backward: bool)
    requires
        cfg.adjacency_wf(),
    ensures
        first_some(cfg.blocks@.len(), row_fault(cfg, backward)) is None,
        indexed_once(cfg, backward),
{
    let table = rows(cfg, backward);
    let block_count = cfg.blocks.len();
    assert(cfg.blocks@.len() == block_count);
    first_some_empty(cfg.blocks@.len(), row_fault(cfg, backward));
    assert forall|b: int| 0 <= b < cfg.blocks@.len() implies (#[trigger] row_fault(cfg, backward)(b)) is None by {
        first_some_empty(table[b]@.len(), cell_fault(cfg, backward, b));
        assert forall|k: int| 0 <= k < table[b]@.len() implies (#[trigger] cell_fault(cfg, backward, b)(k)) is None by {
            let q = BlockRef(b as usize);
            assert(cfg.has_block(q));
            if backward {
                assert(cfg.in_edges(q)[k] == table[b]@[k]);
            } else {
                assert(cfg.out_edges(q)[k] == table[b]@[k]);
            }
        }
    }
    assert forall|e: EdgeRef| #[trigger] cfg.has_edge(e) implies mentions(table, table.len(), e) == 1 by {
        let h = home(cfg, backward, e);
        assert(cfg.has_block(h));
        assert forall|b: int| 0 <= b < table.len() && b != h.0 implies !(#[trigger] table[b])@.contains(e) by {
            let q = BlockRef(b as usize);
            assert(cfg.has_block(q));
            if table[b]@.contains(e) {
                let k = choose|k: int| 0 <= k < table[b]@.len() && table[b]@[k] == e;
                if backward {
                    assert(cfg.in_edges(q)[k] == e);
                } else {
                    assert(cfg.out_edges(q)[k] == e);
                }
            }
        }
        if backward {
            assert(cfg.in_edges(h).no_duplicates() && cfg.in_edges(h).contains(e));
        } else {
            assert(cfg.out_edges(h).no_duplicates() && cfg.out_edges(h).contains(e));
        }
        mentions_at_home(table, table.len(), e, h.0 as int);
    }
}

/// A consistent graph has no fault: validation accepts exactly the consistent graphs.
pub proof fn consistent_graph_has_no_fault(cfg: &Cfg)
    requires
        cfg.wf(),
    ensures
        cfg_fault(cfg) is None,
{
    let total = cfg.block_order@.len();
    let n = cfg.blocks@.len();
    let limit = cfg.instr_to_block.len();
    assert(cfg.instr_to_block@.len() == limit);
    let block_count = cfg.blocks.len();
    assert(n == block_count);
    let edge_count = cfg.edges.len();
    assert(cfg.edges@.len() == edge_count);
    first_some_empty(total, order_fault(cfg));
    assert forall|k: int| 0 <= k < total implies (#[trigger] order_fault(cfg)(k)) is None by {
        let b = cfg.block_order@[k];
        assert(cfg.has_block(b) && b != cfg.exit_block);
        if cfg.block_order@.subrange(0, k).contains(b) {
            let j = choose|j: int| 0 <= j < k && cfg.block_order@.subrange(0, k)[j] == b;
            assert(cfg.block_order@[j] == b);
        }
        first_where_least(cfg.range(b).len as nat, misowned(cfg, b));
        assert forall|i: int| 0 <= i < cfg.range(b).len implies !#[trigger] misowned(cfg, b)(i) by {
            let q = cfg.instr_to_block@[cfg.range(b).start.0 + i];
        }
    }
    first_some_empty(n, unordered_fault(cfg));
    assert forall|i: int| 0 <= i < n implies (#[trigger] unordered_fault(cfg)(i)) is None by {
        assert(cfg.has_block(BlockRef(i as usize)));
    }
    assert forall|i: int| 0 <= i < cfg.instr_to_block@.len() implies #[trigger] covered(cfg, total as int, i) by {
        let b = cfg.instr_to_block@[i];
        assert(cfg.block_order@.contains(b));
        let k = choose|k: int| 0 <= k < total && cfg.block_order@[k] == b;
        assert(cfg.range(cfg.block_order@[k]).start.0 <= i);
    }
    first_some_empty(cfg.edges@.len(), edge_fault(cfg));
    assert forall|e: int| 0 <= e < cfg.edges@.len() implies (#[trigger] edge_fault(cfg)(e)) is None by {
        assert(cfg.has_edge(EdgeRef(e as usize)));
    }
    adjacency_is_indexed(cfg, false);
    adjacency_is_indexed(cfg, true);
    reachable_in_range(cfg);
    first_some_empty(cfg.reachable_blocks.seq().len(), reach_range_fault(cfg));
    assert forall|k: int| 0 <= k < cfg.reachable_blocks.seq().len() implies (#[trigger] reach_range_fault(cfg)(
        k,
    )) is None by {
        assert(cfg.reachable_blocks@.contains(cfg.reachable_blocks.seq()[k]));
        assert(cfg.is_reachable(cfg.reachable_blocks.seq()[k]));
    }
}

/// Checks that the graph is consistent and names the first fault otherwise.
pub fn validate_cfg(cfg: &Cfg) -> (r: Result<(), StructureError>)
    ensures
        match r {
            Ok(_) => cfg_fault(cfg) is None && cfg.wf(),
            Err(e) => cfg_fault(cfg) == Some(e.fault),
        },
{
    let n = cfg.blocks.len();
    if n == 0 {
        return Err(StructureError::invalid(Fault::NoBlocks));
    }
    if cfg.entry_block.0 >= n || cfg.exit_block.0 >= n {
        return Err(StructureError::invalid(Fault::MissingEntryOrExit));
    }
    if cfg.entry_block == cfg.exit_block {
        return Err(StructureError::invalid(Fault::EntryIsExit));
    }
    if cfg.preds.len() != n || cfg.succs.len() != n {
        return Err(StructureError::invalid(Fault::AdjacencyLength));
    }
    if let Some(f) = check_order(cfg) {
        return Err(StructureError::invalid(f));
    }
    if cfg.blocks[cfg.exit_block.0].kind != BlockKind::SyntheticExit {
        return Err(StructureError::invalid(Fault::ExitNotSynthetic));
    }
    if let Some(f) = check_edges(cfg) {
        return Err(StructureError::invalid(f));
    }
    let out_counts = match check_rows(cfg, false) {
        Ok(counts) => counts,
        Err(f) => {
            return Err(StructureError::invalid(f));
        },
    };
    let in_counts = match check_rows(cfg, true) {
        Ok(counts) => counts,
        Err(f) => {
            return Err(StructureError::invalid(f));
        },
    };
    let once = all_one(&out_counts) && all_one(&in_counts);
    proof {
        assert(all_counts_one(cfg, false, out_counts@) == indexed_once(cfg, false)) by {
            counts_are_index(cfg, false, out_counts@);
        }
        assert(all_counts_one(cfg, true, in_counts@) == indexed_once(cfg, true)) by {
            counts_are_index(cfg, true, in_counts@);
        }
    }
    if !once {
        return Err(StructureError::invalid(Fault::EdgeNotIndexedOnce));
    }
    proof {
        rows_are_adjacency(cfg);
    }
    if let Some(f) = check_reachability(cfg) {
        return Err(StructureError::invalid(f));
    }
    proof {
        order_is_layout(cfg);
    }
    Ok(())
}

spec fn all_counts_one(cfg: &Cfg, backward: bool, counts: Seq<u8>) -> bool {
    forall|e: int| 0 <= e < counts.len() ==> #[trigger] counts[e] == 1
}

proof fn counts_are_index(cfg: &Cfg, backward: bool, counts: Seq<u8>)
    requires
        counts.len() == cfg.edges@.len(),
        forall|e: int| 0 <= e < counts.len() ==> (#[trigger] counts[e] == 1) == (mentions(
            rows(cfg, backward),
            rows(cfg, backward).len(),
            EdgeRef(e as usize),
        ) == 1),
    ensures
        all_counts_one(cfg, backward, counts) == indexed_once(cfg, backward),
{
    if all_counts_one(cfg, backward, counts) {
        assert forall|e: EdgeRef| #[trigger] cfg.has_edge(e) implies mentions(
            rows(cfg, backward),
            rows(cfg, backward).len(),
            e,
        ) == 1 by {
            assert(counts[e.0 as int] == 1);
            assert(EdgeRef(e.0) == e);
        }
    }
    if indexed_once(cfg, backward) {
        assert forall|e: int| 0 <= e < counts.len() implies #[trigger] counts[e] == 1 by {
            assert(cfg.has_edge(EdgeRef(e as usize)));
        }
    }
}

proof fn mentions_unfold(table: Seq<Vec<EdgeRef>>, n: nat, e: EdgeRef)
    requires
        n <= table.len(),
    ensures
        mentions(table, n, e) >= 1 ==> exists|b: int, k: int|
            0 <= b < n && 0 <= k < table[b]@.len() && #[trigger] table[b]@[k] == e,
        forall|b: int| 0 <= b < n ==> count_where((#[trigger] table[b])@.len(), is_edge(table[b]@, e)) <= mentions(
            table,
            n,
            e,
        ),
    decreases n,
{
    if n > 0 {
        mentions_unfold(table, (n - 1) as nat, e);
        let row = table[n - 1]@;
        count_where_zero(row.len(), is_edge(row, e));
        if mentions(table, n, e) >= 1 && mentions(table, (n - 1) as nat, e) == 0 {
            let k = choose|k: int| 0 <= k < row.len() && #[trigger] is_edge(row, e)(k);
            assert(table[n - 1]@[k] == e);
        }
    }
}

proof fn row_is_indexed(cfg: &Cfg, backward: bool)
    requires
        rows(cfg, backward).len() == cfg.blocks@.len(),
        first_some(cfg.blocks@.len(), row_fault(cfg, backward)) is None,
        first_some(cfg.edges@.len(), edge_fault(cfg)) is None,
        indexed_once(cfg, backward),
    ensures
        forall|e: EdgeRef| #[trigger] cfg.has_edge(e) ==> cfg.has_block(home(cfg, backward, e)) && rows(cfg, backward)[
            home(cfg, backward, e).0 as int
        ]@.contains(e),
        forall|b: int, k: int|
            0 <= b < cfg.blocks@.len() && 0 <= k < rows(cfg, backward)[b]@.len() ==> cfg.has_edge(
                #[trigger] rows(cfg, backward)[b]@[k],
            ) && home(cfg, backward, rows(cfg, backward)[b]@[k]).0 == b,
        forall|b: int| 0 <= b < cfg.blocks@.len() ==> (#[trigger] rows(cfg, backward)[b])@.no_duplicates(),
{
    let table = rows(cfg, backward);
    first_some_empty(cfg.blocks@.len(), row_fault(cfg, backward));
    first_some_empty(cfg.edges@.len(), edge_fault(cfg));
    assert forall|b: int, k: int| 0 <= b < cfg.blocks@.len() && 0 <= k < table[b]@.len() implies cfg.has_edge(
        #[trigger] table[b]@[k],
    ) && home(cfg, backward, table[b]@[k]).0 == b by {
        assert(row_fault(cfg, backward)(b) is None);
        first_some_empty(table[b]@.len(), cell_fault(cfg, backward, b));
        assert(cell_fault(cfg, backward, b)(k) is None);
    }
    assert forall|e: EdgeRef| #[trigger] cfg.has_edge(e) implies cfg.has_block(home(cfg, backward, e)) && table[home(
        cfg,
        backward,
        e,
    ).0 as int]@.contains(e) by {
        assert(edge_fault(cfg)(e.0 as int) is None);
        mentions_unfold(table, table.len(), e);
        let (b, k) = choose|b: int, k: int|
            0 <= b < table.len() && 0 <= k < table[b]@.len() && #[trigger] table[b]@[k] == e;
        assert(home(cfg, backward, e).0 == b);
    }
    assert forall|b: int| 0 <= b < cfg.blocks@.len() implies (#[trigger] table[b])@.no_duplicates() by {
        let row = table[b]@;
        assert forall|i: int, j: int| 0 <= i < row.len() && 0 <= j < row.len() && i != j implies row[i] != row[j] by {
            if row[i] == row[j] {
                let e = row[i];
                assert(table[b]@[i] == e);
                assert(cfg.has_edge(e));
                mentions_unfold(table, table.len(), e);
                count_where_one(row.len(), is_edge(row, e));
                assert(is_edge(row, e)(i) && is_edge(row, e)(j));
            }
        }
    }
}

proof fn rows_are_adjacency(cfg: &Cfg)
    requires
        cfg.succs@.len() == cfg.blocks@.len(),
        cfg.preds@.len() == cfg.blocks@.len(),
        first_some(cfg.blocks@.len(), row_fault(cfg, false)) is None,
        first_some(cfg.blocks@.len(), row_fault(cfg, true)) is None,
        first_some(cfg.edges@.len(), edge_fault(cfg)) is None,
        indexed_once(cfg, false),
        indexed_once(cfg, true),
    ensures
        cfg.adjacency_wf(),
{
    row_is_indexed(cfg, false);
    row_is_indexed(cfg, true);
    first_some_empty(cfg.edges@.len(), edge_fault(cfg));
    assert forall|e: EdgeRef| #[trigger] cfg.has_edge(e) implies {
        &&& cfg.has_block(cfg.edge(e).from)
        &&& cfg.has_block(cfg.edge(e).to)
        &&& cfg.out_edges(cfg.edge(e).from).contains(e)
        &&& cfg.in_edges(cfg.edge(e).to).contains(e)
    } by {
        assert(edge_fault(cfg)(e.0 as int) is None);
        assert(home(cfg, false, e) == cfg.edge(e).from);
        assert(home(cfg, true, e) == cfg.edge(e).to);
    }
    assert forall|b: BlockRef, k: int| #![trigger cfg.out_edges(b)[k]]
        cfg.has_block(b) && 0 <= k < cfg.out_edges(b).len() implies cfg.has_edge(cfg.out_edges(b)[k]) && cfg.edge(
        cfg.out_edges(b)[k],
    ).from == b by {
        let e = rows(cfg, false)[b.0 as int]@[k];
        assert(home(cfg, false, e) == cfg.edge(e).from);
    }
    assert forall|b: BlockRef, k: int| #![trigger cfg.in_edges(b)[k]]
        cfg.has_block(b) && 0 <= k < cfg.in_edges(b).len() implies cfg.has_edge(cfg.in_edges(b)[k]) && cfg.edge(
        cfg.in_edges(b)[k],
    ).to == b by {
        let e = rows(cfg, true)[b.0 as int]@[k];
        assert(home(cfg, true, e) == cfg.edge(e).to);
    }
    assert forall|b: BlockRef| #[trigger] cfg.has_block(b) implies cfg.out_edges(b).no_duplicates() by {
        assert(rows(cfg, false)[b.0 as int]@.no_duplicates());
    }
    assert forall|b: BlockRef| #[trigger] cfg.has_block(b) implies cfg.in_edges(b).no_duplicates() by {
        assert(rows(cfg, true)[b.0 as int]@.no_duplicates());
    }
}

proof fn order_is_layout(cfg: &Cfg)
    requires
        first_some(cfg.block_order@.len(), order_fault(cfg)) is None,
        first_some(cfg.blocks@.len(), unordered_fault(cfg)) is None,
        forall|i: int| 0 <= i < cfg.instr_to_block@.len() ==> #[trigger] covered(cfg, cfg.block_order@.len() as int, i),
    ensures
        cfg.layout_wf(),
{
    let total = cfg.block_order@.len();
    first_some_empty(total, order_fault(cfg));
    first_some_empty(cfg.blocks@.len(), unordered_fault(cfg));
    assert(cfg.block_order@.subrange(0, total as int) =~= cfg.block_order@);
    assert forall|k: int| 0 <= k < total implies cfg.has_block(#[trigger] cfg.block_order@[k]) && cfg.block_order@[k]
        != cfg.exit_block by {
        assert(order_fault(cfg)(k) is None);
    }
    assert forall|b: BlockRef| #[trigger] cfg.has_block(b) && b != cfg.exit_block implies cfg.block_order@.contains(b) by {
        assert(unordered_fault(cfg)(b.0 as int) is None);
        assert(BlockRef(b.0) == b);
    }
    assert forall|b: BlockRef| #[trigger] cfg.has_block(b) && b != cfg.exit_block implies cfg.range(b).end_at()
        <= cfg.instr_to_block@.len() by {
        let k = choose|k: int| 0 <= k < total && cfg.block_order@[k] == b;
        assert(order_fault(cfg)(k) is None);
    }
    assert forall|b: BlockRef, i: int| #![trigger cfg.has_block(b), cfg.instr_to_block@[i]]
        cfg.has_block(b) && b != cfg.exit_block && cfg.range(b).start.0 <= i < cfg.range(b).end_at() implies
        cfg.instr_to_block@[i] == b by {
        let k = choose|k: int| 0 <= k < total && cfg.block_order@[k] == b;
        assert(order_fault(cfg)(k) is None);
        first_where_least(cfg.range(b).len as nat, misowned(cfg, b));
        assert(!misowned(cfg, b)(i - cfg.range(b).start.0));
    }
    assert forall|i: int| 0 <= i < cfg.instr_to_block@.len() implies {
        let b = #[trigger] cfg.instr_to_block@[i];
        &&& cfg.has_block(b)
        &&& b != cfg.exit_block
        &&& cfg.range(b).start.0 <= i < cfg.range(b).end_at()
    } by {
        assert(covered(cfg, total as int, i));
        covered_is_owned(cfg, total as int, i);
    }
    assert(cfg.block_order@.no_duplicates()) by {
        assert forall|i: int, j: int| 0 <= i < j < total implies cfg.block_order@[i] != cfg.block_order@[j] by {
            assert(order_fault(cfg)(j) is None);
            if cfg.block_order@[i] == cfg.block_order@[j] {
                assert(cfg.block_order@.subrange(0, j)[i] == cfg.block_order@[j]);
            }
        }
    }
}

} // verus!
