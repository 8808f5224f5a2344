//! Region queries shared by the structuring passes.

use vstd::prelude::*;

use crate::cfg::{Cfg, EdgeKind};
use crate::evidence::IrreducibleRegion;
use crate::flood::{flood, floods_to, mask_set, mask_to_set, reachable_in_range};
use crate::graph::{DominatorTree, GraphFacts};
use crate::ids::{BlockRef, EdgeRef, InstrRef};
use crate::idset::{ascending, ascending_unique, IdSet};
use crate::lir::{LowInstr, LoweredProto};

verus! {

/// The instructions that an instruction names exist.
pub open spec fn targets_exist(instr: LowInstr, n: nat) -> bool {
    match instr {
        LowInstr::Jump(j) => j.target.0 < n,
        LowInstr::GenericForPrep(j) => j.target.0 < n,
        LowInstr::Branch(b) => b.then_target.0 < n && b.else_target.0 < n,
        LowInstr::NumericForInit(f) => f.body_target.0 < n && f.exit_target.0 < n,
        LowInstr::NumericForLoop(f) => f.body_target.0 < n && f.exit_target.0 < n,
        LowInstr::GenericForLoop(f) => f.body_target.0 < n && f.exit_target.0 < n,
        _ => true,
    }
}

/// The graph is a consistent graph of the prototype.
pub open spec fn fits(proto: &LoweredProto, cfg: &Cfg) -> bool {
    &&& cfg.wf()
    &&& proto.instrs@.len() == cfg.instr_to_block@.len()
    &&& cfg.range(cfg.exit_block).end_at() <= proto.instrs@.len()
    &&& forall|i: int| 0 <= i < proto.instrs@.len() ==> targets_exist(#[trigger] proto.instrs@[i], proto.instrs@.len())
}

/// Every block's instructions lie in the prototype.
pub proof fn ranges_fit(proto: &LoweredProto, cfg: &Cfg, b: BlockRef)
    requires
        fits(proto, cfg),
        cfg.has_block(b),
    ensures
        cfg.range(b).end_at() <= proto.instrs@.len(),
        proto.instrs@.len() <= usize::MAX,
{
    let n = proto.instrs.len();
    assert(proto.instrs@.len() == n);
}

/// The block that holds an instruction.
pub open spec fn block_of(cfg: &Cfg, i: InstrRef) -> BlockRef {
    cfg.instr_to_block@[i.0 as int]
}

/// The reason for which a shared block that only returns may be copied to its users.
pub open spec fn pure_terminal(cfg: &Cfg, b: BlockRef) -> Option<EdgeKind> {
    if b.0 < cfg.preds@.len() && cfg.has_block(b) && b.0 < cfg.succs@.len() && cfg.in_edges(b).len() >= 2 && cfg.range(b).len
        == 1 && cfg.out_edges(b).len() == 1 && cfg.has_edge(cfg.out_edges(b)[0]) {
        let e = cfg.edge(cfg.out_edges(b)[0]);
        if e.to == cfg.exit_block && (e.kind == EdgeKind::Return || e.kind == EdgeKind::TailCall) {
            Some(e.kind)
        } else {
            None
        }
    } else {
        None
    }
}

pub fn shared_pure_terminal_kind(cfg: &Cfg, block: BlockRef) -> (r: Option<EdgeKind>)
    ensures
        r == pure_terminal(cfg, block),
{
    if block.0 >= cfg.preds.len() || block.0 >= cfg.blocks.len() || block.0 >= cfg.succs.len() {
        return None;
    }
    if cfg.preds[block.0].len() < 2 || cfg.blocks[block.0].instrs.len != 1 || cfg.succs[block.0].len() != 1 {
        return None;
    }
    let e = cfg.succs[block.0][0];
    if e.0 >= cfg.edges.len() {
        return None;
    }
    let edge = cfg.edges[e.0];
    if edge.to == cfg.exit_block && (edge.kind == EdgeKind::Return || edge.kind == EdgeKind::TailCall) {
        Some(edge.kind)
    } else {
        None
    }
}

/// The block holds more than the instruction that passes control on.
pub open spec fn has_prefix(proto: &LoweredProto, cfg: &Cfg, b: BlockRef) -> bool {
    match cfg.terminator_of(proto.instrs@, b) {
        Some(last) => if last.ends_control() {
            cfg.range(b).len > 1
        } else {
            true
        },
        None => false,
    }
}

pub fn block_has_non_control_prefix(proto: &LoweredProto, cfg: &Cfg, block: BlockRef) -> (r: bool)
    requires
        fits(proto, cfg),
        cfg.has_block(block),
    ensures
        r == has_prefix(proto, cfg, block),
{
    proof {
        ranges_fit(proto, cfg, block);
    }
    let len = cfg.blocks[block.0].instrs.len;
    match cfg.terminator(proto.instrs.as_slice(), block) {
        Some(last) => if last.is_control_terminator() {
            len > 1
        } else {
            true
        },
        None => false,
    }
}

/// An instruction that only loads a constant.
pub open spec fn loads_constant(i: LowInstr) -> bool {
    i is LoadNil || i is LoadBool || i is LoadConst || i is LoadInteger || i is LoadNumber
}

/// One past the instructions that come before the one that passes control on.
pub open spec fn prefix_end(proto: &LoweredProto, cfg: &Cfg, b: BlockRef) -> int {
    match cfg.terminator_of(proto.instrs@, b) {
        Some(last) => if last.ends_control() {
            cfg.range(b).end_at() - 1
        } else {
            cfg.range(b).end_at()
        },
        None => cfg.range(b).end_at(),
    }
}

/// Everything before the instruction that passes control on only loads constants.
pub open spec fn movable_prefix(proto: &LoweredProto, cfg: &Cfg, b: BlockRef) -> bool {
    forall|i: int|
        cfg.range(b).start.0 <= i < prefix_end(proto, cfg, b) ==> loads_constant(#[trigger] proto.instrs@[i])
}

pub fn control_prefix_is_movable(proto: &LoweredProto, cfg: &Cfg, block: BlockRef) -> (r: bool)
    requires
        fits(proto, cfg),
        cfg.has_block(block),
    ensures
        r == movable_prefix(proto, cfg, block),
{
    proof {
        ranges_fit(proto, cfg, block);
    }
    let range = cfg.blocks[block.0].instrs;
    let end: usize = match range.last() {
        None => range.end(),
        Some(last) => if proto.instrs[last.0].is_control_terminator() {
            range.end() - 1
        } else {
            range.end()
        },
    };
    assert(end == prefix_end(proto, cfg, block));
    let mut i: usize = range.start.0;
    while i < end
        invariant
            range == cfg.range(block),
            end == prefix_end(proto, cfg, block),
            end <= proto.instrs@.len(),
            range.start.0 <= i,
            forall|j: int| range.start.0 <= j < i ==> loads_constant(#[trigger] proto.instrs@[j]),
        decreases end - i,
    {
        match proto.instrs[i] {
            LowInstr::LoadNil(_)
            | LowInstr::LoadBool(_)
            | LowInstr::LoadConst(_)
            | LowInstr::LoadInteger(_)
            | LowInstr::LoadNumber(_) => {},
            _ => {
                assert(!loads_constant(proto.instrs@[i as int]));
                return false;
            },
        }
        i = i + 1;
    }
    true
}

/// `b` ends in a jump to the block `target`.
pub open spec fn jumps_to(proto: &LoweredProto, cfg: &Cfg, b: BlockRef, target: BlockRef) -> bool {
    match cfg.terminator_of(proto.instrs@, b) {
        Some(LowInstr::Jump(j)) => block_of(cfg, j.target) == target,
        _ => false,
    }
}

/// Whether `b` ends in a jump to the block `target`.
pub fn block_jumps_to(proto: &LoweredProto, cfg: &Cfg, block: BlockRef, target: BlockRef) -> (r: bool)
    requires
        fits(proto, cfg),
        cfg.has_block(block),
    ensures
        r == jumps_to(proto, cfg, block, target),
{
    proof {
        ranges_fit(proto, cfg, block);
    }
    match cfg.terminator(proto.instrs.as_slice(), block) {
        Some(LowInstr::Jump(j)) => {
            assert(targets_exist(proto.instrs@[cfg.range(block).end_at() - 1], proto.instrs@.len()));
            cfg.instr_to_block[j.target.0] == target
        },
        _ => false,
    }
}

pub open spec fn same_or_jump(proto: &LoweredProto, cfg: &Cfg, actual: InstrRef, expected: InstrRef) -> bool {
    actual == expected || (cfg.range(block_of(cfg, actual)).len == 1 && jumps_to(
        proto,
        cfg,
        block_of(cfg, actual),
        block_of(cfg, expected),
    ))
}

/// Whether `actual` is `expected`, or lies in a block that does nothing but jump there.
pub fn same_or_transparent_jump_target(proto: &LoweredProto, cfg: &Cfg, actual: InstrRef, expected: InstrRef) -> (r: bool)
    requires
        fits(proto, cfg),
        actual.0 < proto.instrs@.len(),
        expected.0 < proto.instrs@.len(),
    ensures
        r == same_or_jump(proto, cfg, actual, expected),
{
    if actual == expected {
        return true;
    }
    let block = cfg.instr_to_block[actual.0];
    cfg.blocks[block.0].instrs.len == 1 && block_jumps_to(proto, cfg, block, cfg.instr_to_block[expected.0])
}

pub open spec fn same_return(proto: &LoweredProto, cfg: &Cfg, actual: InstrRef, expected: InstrRef) -> bool {
    let a = block_of(cfg, actual);
    let b = block_of(cfg, expected);
    cfg.range(a).len == 1 && cfg.range(b).len == 1 && match (
        cfg.terminator_of(proto.instrs@, a),
        cfg.terminator_of(proto.instrs@, b),
    ) {
        (Some(LowInstr::Return(x)), Some(LowInstr::Return(y))) => x == y,
        _ => false,
    }
}

/// Whether both lie in blocks that only return, and return the same.
pub fn equivalent_single_return_targets(proto: &LoweredProto, cfg: &Cfg, actual: InstrRef, expected: InstrRef) -> (r: bool)
    requires
        fits(proto, cfg),
        actual.0 < proto.instrs@.len(),
        expected.0 < proto.instrs@.len(),
    ensures
        r == same_return(proto, cfg, actual, expected),
{
    let a = cfg.instr_to_block[actual.0];
    let b = cfg.instr_to_block[expected.0];
    proof {
        ranges_fit(proto, cfg, a);
        ranges_fit(proto, cfg, b);
    }
    if cfg.blocks[a.0].instrs.len != 1 || cfg.blocks[b.0].instrs.len != 1 {
        return false;
    }
    match (cfg.terminator(proto.instrs.as_slice(), a), cfg.terminator(proto.instrs.as_slice(), b)) {
        (Some(LowInstr::Return(x)), Some(LowInstr::Return(y))) => *x == *y,
        _ => false,
    }
}

/// All members are blocks of the graph.
pub open spec fn known_blocks(cfg: &Cfg, blocks: Set<BlockRef>) -> bool {
    forall|b: BlockRef| #[trigger] blocks.contains(b) ==> cfg.has_block(b)
}

/// An edge from the region to a reachable block outside of it.
pub open spec fn leaves_region(cfg: &Cfg, blocks: Set<BlockRef>, e: EdgeRef) -> bool {
    cfg.has_edge(e) && blocks.contains(cfg.edge(e).from) && cfg.is_reachable(cfg.edge(e).to) && !blocks.contains(
        cfg.edge(e).to,
    )
}

/// An edge from a reachable block outside of the region into it.
pub open spec fn enters_region(cfg: &Cfg, blocks: Set<BlockRef>, e: EdgeRef) -> bool {
    cfg.has_edge(e) && blocks.contains(cfg.edge(e).to) && cfg.is_reachable(cfg.edge(e).from) && !blocks.contains(
        cfg.edge(e).from,
    )
}

/// The reachable blocks outside of the region to which it has an edge.
pub open spec fn region_exits(cfg: &Cfg, blocks: Set<BlockRef>) -> Set<BlockRef> {
    Set::new(|b: BlockRef| exists|e: EdgeRef| #[trigger] leaves_region(cfg, blocks, e) && cfg.edge(e).to == b)
}

/// An outgoing edge of a member of the region, to a reachable block outside of it.
pub open spec fn listed_exit(cfg: &Cfg, blocks: Set<BlockRef>, e: EdgeRef) -> bool {
    &&& cfg.is_reachable(cfg.edge(e).to)
    &&& !blocks.contains(cfg.edge(e).to)
    &&& exists|b: BlockRef| #[trigger] blocks.contains(b) && cfg.out_edges(b).contains(e)
}

/// An incoming edge of a member of the region, from a reachable block outside of it.
pub open spec fn listed_entry(cfg: &Cfg, blocks: Set<BlockRef>, e: EdgeRef) -> bool {
    &&& cfg.is_reachable(cfg.edge(e).from)
    &&& !blocks.contains(cfg.edge(e).from)
    &&& exists|b: BlockRef| #[trigger] blocks.contains(b) && cfg.in_edges(b).contains(e)
}

pub open spec fn all_list_out(cfg: &Cfg, blocks: Set<BlockRef>) -> bool {
    forall|b: BlockRef| #[trigger] blocks.contains(b) ==> cfg.lists_out(b)
}

pub open spec fn all_list_in(cfg: &Cfg, blocks: Set<BlockRef>) -> bool {
    forall|b: BlockRef| #[trigger] blocks.contains(b) ==> cfg.lists_in(b)
}

/// In a consistent graph the lists of the members hold exactly the edges at the boundary.
pub proof fn lists_hold_boundary(cfg: &Cfg, blocks: Set<BlockRef>)
    requires
        cfg.adjacency_wf(),
        known_blocks(cfg, blocks),
    ensures
        all_list_out(cfg, blocks),
        all_list_in(cfg, blocks),
        forall|e: EdgeRef| #[trigger] listed_exit(cfg, blocks, e) <==> leaves_region(cfg, blocks, e),
        forall|e: EdgeRef| #[trigger] listed_entry(cfg, blocks, e) <==> enters_region(cfg, blocks, e),
{
    assert forall|b: BlockRef| #[trigger] blocks.contains(b) implies cfg.lists_out(b) && cfg.lists_in(b) by {
        cfg.lists_hold_links(b);
    }
    assert forall|e: EdgeRef| #[trigger] listed_exit(cfg, blocks, e) <==> leaves_region(cfg, blocks, e) by {
        if listed_exit(cfg, blocks, e) {
            let b = choose|b: BlockRef| #[trigger] blocks.contains(b) && cfg.out_edges(b).contains(e);
            let k = cfg.out_edges(b).index_of(e);
            assert(cfg.out_edges(b)[k] == e);
            assert(cfg.has_block(b));
        }
        if leaves_region(cfg, blocks, e) {
            assert(blocks.contains(cfg.edge(e).from));
        }
    }
    assert forall|e: EdgeRef| #[trigger] listed_entry(cfg, blocks, e) <==> enters_region(cfg, blocks, e) by {
        if listed_entry(cfg, blocks, e) {
            let b = choose|b: BlockRef| #[trigger] blocks.contains(b) && cfg.in_edges(b).contains(e);
            let k = cfg.in_edges(b).index_of(e);
            assert(cfg.in_edges(b)[k] == e);
            assert(cfg.has_block(b));
        }
        if enters_region(cfg, blocks, e) {
            assert(blocks.contains(cfg.edge(e).to));
        }
    }
}

/// The edges that the first `n` members list, and that lie at the boundary.
spec fn boundary_so_far(cfg: &Cfg, blocks: &IdSet<BlockRef>, entering: bool, n: int, e: EdgeRef) -> bool {
    exists|i: int| 0 <= i < n && if entering {
        cfg.in_edges(#[trigger] blocks.seq()[i]).contains(e)
    } else {
        cfg.out_edges(blocks.seq()[i]).contains(e)
    }
}

spec fn far_end(cfg: &Cfg, entering: bool, e: EdgeRef) -> BlockRef {
    if entering {
        cfg.edge(e).from
    } else {
        cfg.edge(e).to
    }
}

pub open spec fn is_outside(cfg: &Cfg, blocks: Set<BlockRef>, b: BlockRef) -> bool {
    cfg.is_reachable(b) && !blocks.contains(b)
}

/// Adds the listed edges whose far end is reachable and outside of the region.
fn add_outside(cfg: &Cfg, blocks: &IdSet<BlockRef>, entering: bool, list: &Vec<EdgeRef>, r: &mut IdSet<EdgeRef>)
    requires
        forall|k: int| 0 <= k < list@.len() ==> cfg.has_edge(#[trigger] list@[k]),
    ensures
        forall|e: EdgeRef| #[trigger]
            final(r)@.contains(e) <==> old(r)@.contains(e) || (list@.contains(e) && is_outside(
                cfg,
                blocks@,
                far_end(cfg, entering, e),
            )),
{
    let n = list.len();
    let mut k: usize = 0;
    while k < n
        invariant
            forall|k: int| 0 <= k < list@.len() ==> cfg.has_edge(#[trigger] list@[k]),
            n == list@.len(),
            k <= n,
            forall|e: EdgeRef| #[trigger]
                r@.contains(e) <==> old(r)@.contains(e) || (list@.subrange(0, k as int).contains(e) && is_outside(
                    cfg,
                    blocks@,
                    far_end(cfg, entering, e),
                )),
        decreases n - k,
    {
        let e = list[k];
        assert(list@[k as int] == e);
        let end = if entering {
            cfg.edges[e.0].from
        } else {
            cfg.edges[e.0].to
        };
        assert(end == far_end(cfg, entering, e));
        proof {
            let pre = list@.subrange(0, k as int);
            let post = list@.subrange(0, k + 1);
            assert(post =~= pre.push(e));
            assert forall|x: EdgeRef| #[trigger] post.contains(x) <==> pre.contains(x) || x == e by {
                if pre.contains(x) {
                    assert(post[pre.index_of(x)] == x);
                }
                assert(post[k as int] == e);
                if post.contains(x) && x != e {
                    assert(pre[post.index_of(x)] == x);
                }
            }
        }
        if cfg.reachable_blocks.contains(end) && !blocks.contains(end) {
            r.insert(e);
        }
        k = k + 1;
    }
    assert(list@.subrange(0, n as int) =~= list@);
}

/// Collects, in ascending order, the edges that leave (or, with `entering`, enter) a region.
fn boundary_edges(cfg: &Cfg, blocks: &IdSet<BlockRef>, entering: bool) -> (r: Vec<EdgeRef>)
    requires
        entering ==> all_list_in(cfg, blocks@),
        !entering ==> all_list_out(cfg, blocks@),
    ensures
        ascending(r@),
        forall|e: EdgeRef| #[trigger] r@.contains(e) <==> if entering {
            listed_entry(cfg, blocks@, e)
        } else {
            listed_exit(cfg, blocks@, e)
        },
{
    let n = blocks.len();
    let mut found: IdSet<EdgeRef> = IdSet::new();
    let mut i: usize = 0;
    while i < n
        invariant
            entering ==> all_list_in(cfg, blocks@),
            !entering ==> all_list_out(cfg, blocks@),
            n == blocks.seq().len(),
            i <= n,
            forall|e: EdgeRef| #[trigger]
                found@.contains(e) <==> boundary_so_far(cfg, blocks, entering, i as int, e) && is_outside(
                    cfg,
                    blocks@,
                    far_end(cfg, entering, e),
                ),
        decreases n - i,
    {
        let b = blocks.at(i);
        let list = if entering {
            &cfg.preds[b.0]
        } else {
            &cfg.succs[b.0]
        };
        proof {
            assert forall|k: int| 0 <= k < list@.len() implies cfg.has_edge(#[trigger] list@[k]) by {
                if entering {
                    assert(list@[k] == cfg.in_edges(b)[k]);
                } else {
                    assert(list@[k] == cfg.out_edges(b)[k]);
                }
            }
            assert forall|e: EdgeRef| boundary_so_far(cfg, blocks, entering, i + 1, e) <==> (#[trigger] boundary_so_far(
                cfg,
                blocks,
                entering,
                i as int,
                e,
            ) || list@.contains(e)) by {
                assert(blocks.seq()[i as int] == b);
            }
        }
        add_outside(cfg, blocks, entering, list, &mut found);
        proof {
            assert forall|e: EdgeRef| #[trigger]
                found@.contains(e) <==> boundary_so_far(cfg, blocks, entering, i + 1, e) && is_outside(
                    cfg,
                    blocks@,
                    far_end(cfg, entering, e),
                ) by {
                assert(boundary_so_far(cfg, blocks, entering, i + 1, e) <==> (boundary_so_far(
                    cfg,
                    blocks,
                    entering,
                    i as int,
                    e,
                ) || list@.contains(e)));
            }
        }
        i = i + 1;
    }
    let r = found.to_vec();
    proof {
        assert forall|e: EdgeRef| #[trigger] r@.contains(e) <==> if entering {
            listed_entry(cfg, blocks@, e)
        } else {
            listed_exit(cfg, blocks@, e)
        } by {
            assert(r@.to_set().contains(e) <==> found@.contains(e));
            if boundary_so_far(cfg, blocks, entering, n as int, e) {
                let i = choose|i: int| 0 <= i < n && if entering {
                    cfg.in_edges(#[trigger] blocks.seq()[i]).contains(e)
                } else {
                    cfg.out_edges(blocks.seq()[i]).contains(e)
                };
                assert(blocks@.contains(blocks.seq()[i]));
            }
            if entering && listed_entry(cfg, blocks@, e) {
                let b = choose|b: BlockRef| #[trigger] blocks@.contains(b) && cfg.in_edges(b).contains(e);
                assert(blocks.seq()[blocks.seq().index_of(b)] == b);
            }
            if !entering && listed_exit(cfg, blocks@, e) {
                let b = choose|b: BlockRef| #[trigger] blocks@.contains(b) && cfg.out_edges(b).contains(e);
                assert(blocks.seq()[blocks.seq().index_of(b)] == b);
            }
        }
    }
    r
}

pub fn collect_region_exit_edges(cfg: &Cfg, blocks: &IdSet<BlockRef>) -> (r: Vec<EdgeRef>)
    requires
        all_list_out(cfg, blocks@),
    ensures
        ascending(r@),
        forall|e: EdgeRef| #[trigger] r@.contains(e) <==> listed_exit(cfg, blocks@, e),
        cfg.adjacency_wf() && known_blocks(cfg, blocks@) ==> forall|e: EdgeRef| #[trigger]
            r@.contains(e) <==> leaves_region(cfg, blocks@, e),
{
    proof {
        if cfg.adjacency_wf() && known_blocks(cfg, blocks@) {
            lists_hold_boundary(cfg, blocks@);
        }
    }
    boundary_edges(cfg, blocks, false)
}

pub fn collect_region_entry_edges(cfg: &Cfg, blocks: &IdSet<BlockRef>) -> (r: Vec<EdgeRef>)
    requires
        all_list_in(cfg, blocks@),
    ensures
        ascending(r@),
        forall|e: EdgeRef| #[trigger] r@.contains(e) <==> listed_entry(cfg, blocks@, e),
        cfg.adjacency_wf() && known_blocks(cfg, blocks@) ==> forall|e: EdgeRef| #[trigger]
            r@.contains(e) <==> enters_region(cfg, blocks@, e),
{
    proof {
        if cfg.adjacency_wf() && known_blocks(cfg, blocks@) {
            lists_hold_boundary(cfg, blocks@);
        }
    }
    boundary_edges(cfg, blocks, true)
}

/// The targets of edges that all exist.
pub fn edge_targets(cfg: &Cfg, edges: &Vec<EdgeRef>) -> (r: IdSet<BlockRef>)
    requires
        forall|i: int| 0 <= i < edges@.len() ==> cfg.has_edge(#[trigger] edges@[i]),
    ensures
        forall|b: BlockRef| #[trigger] r@.contains(b) <==> exists|i: int|
            0 <= i < edges@.len() && cfg.edge(#[trigger] edges@[i]).to == b,
{
    let n = edges.len();
    let mut r: IdSet<BlockRef> = IdSet::new();
    let mut i: usize = 0;
    while i < n
        invariant
            n == edges@.len(),
            i <= n,
            forall|i: int| 0 <= i < edges@.len() ==> cfg.has_edge(#[trigger] edges@[i]),
            forall|b: BlockRef| #[trigger] r@.contains(b) <==> exists|j: int|
                0 <= j < i && cfg.edge(#[trigger] edges@[j]).to == b,
        decreases n - i,
    {
        let e = edges[i];
        let to = cfg.edges[e.0].to;
        let ghost before = r@;
        r.insert(to);
        proof {
            assert(cfg.edge(edges@[i as int]).to == to);
            assert forall|b: BlockRef| #[trigger] r@.contains(b) <==> exists|j: int|
                0 <= j < i + 1 && cfg.edge(#[trigger] edges@[j]).to == b by {
                if before.contains(b) {
                    let j = choose|j: int| 0 <= j < i && cfg.edge(#[trigger] edges@[j]).to == b;
                    assert(cfg.edge(edges@[j]).to == b);
                }
                if exists|j: int| 0 <= j < i + 1 && cfg.edge(#[trigger] edges@[j]).to == b {
                    let j = choose|j: int| 0 <= j < i + 1 && cfg.edge(#[trigger] edges@[j]).to == b;
                    if j < i {
                        assert(before.contains(b));
                    }
                }
            }
        }
        i = i + 1;
    }
    r
}

/// The reachable blocks outside of the region to which a listed edge leads.
pub open spec fn listed_exits(cfg: &Cfg, blocks: Set<BlockRef>) -> Set<BlockRef> {
    Set::new(|b: BlockRef| exists|e: EdgeRef| #[trigger] listed_exit(cfg, blocks, e) && cfg.edge(e).to == b)
}

pub fn collect_region_exits(cfg: &Cfg, blocks: &IdSet<BlockRef>) -> (r: IdSet<BlockRef>)
    requires
        all_list_out(cfg, blocks@),
    ensures
        r@ == listed_exits(cfg, blocks@),
        cfg.adjacency_wf() && known_blocks(cfg, blocks@) ==> r@ == region_exits(cfg, blocks@),
{
    let edges = collect_region_exit_edges(cfg, blocks);
    proof {
        assert forall|i: int| 0 <= i < edges@.len() implies cfg.has_edge(#[trigger] edges@[i]) by {
            let e = edges@[i];
            assert(edges@.contains(e));
            assert(listed_exit(cfg, blocks@, e));
            let b = choose|b: BlockRef| #[trigger] blocks@.contains(b) && cfg.out_edges(b).contains(e);
            assert(cfg.out_edges(b)[cfg.out_edges(b).index_of(e)] == e);
        }
    }
    let r = edge_targets(cfg, &edges);
    proof {
        assert forall|b: BlockRef| r@.contains(b) <==> listed_exits(cfg, blocks@).contains(b) by {
            if r@.contains(b) {
                let i = choose|i: int| 0 <= i < edges@.len() && cfg.edge(#[trigger] edges@[i]).to == b;
                assert(edges@.contains(edges@[i]));
                assert(listed_exit(cfg, blocks@, edges@[i]));
            }
            if listed_exits(cfg, blocks@).contains(b) {
                let e = choose|e: EdgeRef| #[trigger] listed_exit(cfg, blocks@, e) && cfg.edge(e).to == b;
                assert(edges@.contains(e));
                let i = choose|i: int| 0 <= i < edges@.len() && edges@[i] == e;
                assert(cfg.edge(edges@[i]).to == b);
            }
        }
        assert(r@ =~= listed_exits(cfg, blocks@));
        if cfg.adjacency_wf() && known_blocks(cfg, blocks@) {
            lists_hold_boundary(cfg, blocks@);
            assert forall|b: BlockRef| listed_exits(cfg, blocks@).contains(b) <==> region_exits(cfg, blocks@).contains(b) by {
                if listed_exits(cfg, blocks@).contains(b) {
                    let e = choose|e: EdgeRef| #[trigger] listed_exit(cfg, blocks@, e) && cfg.edge(e).to == b;
                    assert(leaves_region(cfg, blocks@, e));
                }
                if region_exits(cfg, blocks@).contains(b) {
                    let e = choose|e: EdgeRef| #[trigger] leaves_region(cfg, blocks@, e) && cfg.edge(e).to == b;
                    assert(listed_exit(cfg, blocks@, e));
                }
            }
            assert(r@ =~= region_exits(cfg, blocks@));
        }
    }
    r
}

/// The blocks through which a forward collection may go.
pub open spec fn open_region(cfg: &Cfg, stop: Option<BlockRef>, limit: Option<(BlockRef, &DominatorTree)>) -> Set<BlockRef> {
    Set::new(
        |b: BlockRef|
            stop != Some(b) && cfg.is_reachable(b) && match limit {
                Some((root, tree)) => tree.dominated(root, b),
                None => true,
            },
    )
}

/// The blocks reached from `entries` without passing `stop` or leaving the dominated part.
pub open spec fn forward_region(
    cfg: &Cfg,
    entries: Seq<BlockRef>,
    stop: Option<BlockRef>,
    limit: Option<(BlockRef, &DominatorTree)>,
) -> Set<BlockRef> {
    Set::new(|b: BlockRef| floods_to(cfg, entries, open_region(cfg, stop, limit), false, b))
}

pub fn collect_forward_region_blocks(
    cfg: &Cfg,
    entries: &Vec<BlockRef>,
    stop: Option<BlockRef>,
    limit: Option<(BlockRef, &DominatorTree)>,
) -> (r: IdSet<BlockRef>)
    requires
        cfg.wf(),
        forall|k: int| 0 <= k < entries@.len() ==> cfg.has_block(#[trigger] entries@[k]),
    ensures
        r@ == forward_region(cfg, entries@, stop, limit),
        known_blocks(cfg, r@),
{
    let n = cfg.blocks.len();
    let mut allowed: Vec<bool> = Vec::new();
    let mut i: usize = 0;
    while i < n
        invariant
            i <= n,
            allowed@.len() == i,
            forall|j: int| 0 <= j < i ==> #[trigger] allowed@[j] == open_region(cfg, stop, limit).contains(
                BlockRef(j as usize),
            ),
        decreases n - i,
    {
        let b = BlockRef(i);
        let inside = match limit {
            Some((root, tree)) => tree.dominates(root, b),
            None => true,
        };
        let stopped = match stop {
            Some(s) => s == b,
            None => false,
        };
        allowed.push(!stopped && cfg.reachable_blocks.contains(b) && inside);
        i = i + 1;
    }
    proof {
        reachable_in_range(cfg);
        assert forall|b: BlockRef| mask_set(allowed@).contains(b) <==> open_region(cfg, stop, limit).contains(b) by {
            if open_region(cfg, stop, limit).contains(b) {
                assert(cfg.is_reachable(b));
                assert(cfg.has_block(b));
            }
            if b.0 < n {
                assert(BlockRef(b.0 as int as usize) == b);
                assert(allowed@[b.0 as int] == open_region(cfg, stop, limit).contains(b));
            }
        }
        assert(mask_set(allowed@) =~= open_region(cfg, stop, limit));
    }
    let seen = flood(cfg, entries, &allowed, false);
    let r = mask_to_set(&seen);
    proof {
        assert(r@ =~= forward_region(cfg, entries@, stop, limit)) by {
            assert forall|b: BlockRef| r@.contains(b) <==> forward_region(cfg, entries@, stop, limit).contains(b) by {
                assert(mask_set(seen@).contains(b) <==> floods_to(
                    cfg,
                    entries@,
                    open_region(cfg, stop, limit),
                    false,
                    b,
                ));
            }
        }
    }
    r
}

/// The members of a region with an edge to `target`.
pub open spec fn region_preds(cfg: &Cfg, blocks: Set<BlockRef>, target: BlockRef) -> Set<BlockRef> {
    Set::new(|b: BlockRef| blocks.contains(b) && cfg.links(b, target))
}

/// Whether an outgoing edge of `from` leads to `to`.
pub fn has_link(cfg: &Cfg, from: BlockRef, to: BlockRef) -> (r: bool)
    requires
        cfg.lists_out(from),
    ensures
        r == cfg.leads_to(from, to),
        cfg.adjacency_wf() && cfg.has_block(from) ==> r == cfg.links(from, to),
{
    proof {
        if cfg.adjacency_wf() && cfg.has_block(from) {
            cfg.lists_hold_links(from);
            assert(cfg.leads_to(from, to) <==> cfg.links(from, to));
        }
    }
    let n = cfg.succs[from.0].len();
    let mut k: usize = 0;
    while k < n
        invariant
            cfg.lists_out(from),
            n == cfg.out_edges(from).len(),
            k <= n,
            forall|j: int| 0 <= j < k ==> cfg.edge(#[trigger] cfg.out_edges(from)[j]).to != to,
        decreases n - k,
    {
        let e = cfg.succs[from.0][k];
        assert(e == cfg.out_edges(from)[k as int]);
        if cfg.edges[e.0].to == to {
            assert(cfg.edge(cfg.out_edges(from)[k as int]).to == to);
            return true;
        }
        k = k + 1;
    }
    false
}

pub fn collect_region_predecessors_to_target(cfg: &Cfg, blocks: &IdSet<BlockRef>, target: BlockRef) -> (r: IdSet<BlockRef>)
    requires
        all_list_out(cfg, blocks@),
    ensures
        r@ == Set::new(|b: BlockRef| blocks@.contains(b) && cfg.leads_to(b, target)),
        cfg.adjacency_wf() && known_blocks(cfg, blocks@) ==> r@ == region_preds(cfg, blocks@, target),
{
    let n = blocks.len();
    let mut r: IdSet<BlockRef> = IdSet::new();
    let mut i: usize = 0;
    while i < n
        invariant
            all_list_out(cfg, blocks@),
            n == blocks.seq().len(),
            i <= n,
            forall|b: BlockRef| #[trigger] r@.contains(b) ==> blocks@.contains(b) && cfg.leads_to(b, target),
            forall|j: int| 0 <= j < i && cfg.leads_to(#[trigger] blocks.seq()[j], target) ==> r@.contains(blocks.seq()[j]),
        decreases n - i,
    {
        let b = blocks.at(i);
        if has_link(cfg, b, target) {
            r.insert(b);
        }
        i = i + 1;
    }
    proof {
        let all = Set::new(|b: BlockRef| blocks@.contains(b) && cfg.leads_to(b, target));
        assert forall|b: BlockRef| r@.contains(b) <==> all.contains(b) by {
            if blocks@.contains(b) {
                let j = choose|j: int| 0 <= j < blocks.seq().len() && blocks.seq()[j] == b;
                assert(blocks.seq()[j] == b);
            }
        }
        assert(r@ =~= all);
        if cfg.adjacency_wf() && known_blocks(cfg, blocks@) {
            assert forall|b: BlockRef| all.contains(b) <==> region_preds(cfg, blocks@, target).contains(b) by {
                if blocks@.contains(b) {
                    cfg.lists_hold_links(b);
                    assert(cfg.leads_to(b, target) <==> cfg.links(b, target));
                }
            }
            assert(r@ =~= region_preds(cfg, blocks@, target));
        }
    }
    r
}

/// The blocks through which an arm that starts at `entry` flows into `merge`.
pub open spec fn merge_arm_preds(cfg: &Cfg, entry: BlockRef, merge: BlockRef) -> Set<BlockRef> {
    region_preds(cfg, forward_region(cfg, seq![entry], Some(merge), None), merge)
}

pub fn collect_merge_arm_preds(cfg: &Cfg, entry: BlockRef, merge: BlockRef) -> (r: IdSet<BlockRef>)
    requires
        cfg.wf(),
        cfg.has_block(entry),
    ensures
        r@ == merge_arm_preds(cfg, entry, merge),
        known_blocks(cfg, r@),
{
    let mut entries: Vec<BlockRef> = Vec::new();
    entries.push(entry);
    assert(entries@ =~= seq![entry]);
    let blocks = collect_forward_region_blocks(cfg, &entries, Some(merge), None);
    proof {
        lists_hold_boundary(cfg, blocks@);
    }
    collect_region_predecessors_to_target(cfg, &blocks, merge)
}

/// Reachable blocks enter the region at the header only.
pub open spec fn reducible_at(cfg: &Cfg, header: BlockRef, blocks: Set<BlockRef>) -> bool {
    forall|e: EdgeRef| #[trigger] enters_region(cfg, blocks, e) ==> cfg.edge(e).to == header
}

/// The listed edges enter the region at the header only.
pub open spec fn listed_reducible(cfg: &Cfg, header: BlockRef, blocks: Set<BlockRef>) -> bool {
    forall|b: BlockRef, e: EdgeRef|
        #![trigger blocks.contains(b), cfg.in_edges(b).contains(e)]
        blocks.contains(b) && b != header && cfg.in_edges(b).contains(e) ==> !is_outside(cfg, blocks, cfg.edge(e).from)
}

/// Whether all but the header is entered from the region itself; the edges into the header
/// are not looked at.
pub fn is_reducible_region(cfg: &Cfg, header: BlockRef, blocks: &IdSet<BlockRef>) -> (r: bool)
    requires
        all_list_in(cfg, blocks@.remove(header)),
    ensures
        r == listed_reducible(cfg, header, blocks@),
        cfg.adjacency_wf() && known_blocks(cfg, blocks@) ==> r == reducible_at(cfg, header, blocks@),
{
    proof {
        if cfg.adjacency_wf() && known_blocks(cfg, blocks@) {
            reducible_by_lists(cfg, header, blocks@);
        }
    }
    let n = blocks.len();
    let mut i: usize = 0;
    while i < n
        invariant
            all_list_in(cfg, blocks@.remove(header)),
            n == blocks.seq().len(),
            i <= n,
            forall|q: int, e: EdgeRef|
                #![trigger blocks.seq()[q], cfg.in_edges(blocks.seq()[q]).contains(e)]
                0 <= q < i && blocks.seq()[q] != header && cfg.in_edges(blocks.seq()[q]).contains(e) ==> !is_outside(
                    cfg,
                    blocks@,
                    cfg.edge(e).from,
                ),
        decreases n - i,
    {
        let b = blocks.at(i);
        if b != header {
            assert(blocks@.remove(header).contains(b));
            let m = cfg.preds[b.0].len();
            let mut k: usize = 0;
            while k < m
                invariant
                    cfg.lists_in(b),
                    blocks@.contains(b),
                    b != header,
                    m == cfg.in_edges(b).len(),
                    k <= m,
                    forall|q: int| 0 <= q < k ==> !is_outside(cfg, blocks@, cfg.edge(#[trigger] cfg.in_edges(b)[q]).from),
                decreases m - k,
            {
                let e = cfg.preds[b.0][k];
                assert(e == cfg.in_edges(b)[k as int]);
                let from = cfg.edges[e.0].from;
                if cfg.reachable_blocks.contains(from) && !blocks.contains(from) {
                    proof {
                        assert(cfg.in_edges(b).contains(e));
                        assert(is_outside(cfg, blocks@, cfg.edge(e).from));
                        if cfg.adjacency_wf() && known_blocks(cfg, blocks@) {
                            reducible_by_lists(cfg, header, blocks@);
                        }
                    }
                    return false;
                }
                k = k + 1;
            }
            assert forall|e: EdgeRef| cfg.in_edges(b).contains(e) implies !is_outside(cfg, blocks@, #[trigger] cfg.edge(e).from) by {
                assert(cfg.in_edges(b)[cfg.in_edges(b).index_of(e)] == e);
            }
        }
        i = i + 1;
    }
    proof {
        assert forall|b: BlockRef, e: EdgeRef|
            #![trigger blocks@.contains(b), cfg.in_edges(b).contains(e)]
            blocks@.contains(b) && b != header && cfg.in_edges(b).contains(e) implies !is_outside(cfg, blocks@, cfg.edge(e).from) by {
            let q = blocks.seq().index_of(b);
            assert(blocks.seq()[q] == b);
        }
    }
    true
}

proof fn reducible_by_lists(cfg: &Cfg, header: BlockRef, blocks: Set<BlockRef>)
    requires
        cfg.adjacency_wf(),
        known_blocks(cfg, blocks),
    ensures
        listed_reducible(cfg, header, blocks) == reducible_at(cfg, header, blocks),
{
    if listed_reducible(cfg, header, blocks) {
        assert forall|e: EdgeRef| #[trigger] enters_region(cfg, blocks, e) implies cfg.edge(e).to == header by {
            let b = cfg.edge(e).to;
            assert(blocks.contains(b));
            assert(cfg.in_edges(b).contains(e));
        }
    }
    if reducible_at(cfg, header, blocks) {
        assert forall|b: BlockRef, e: EdgeRef|
            #![trigger blocks.contains(b), cfg.in_edges(b).contains(e)]
            blocks.contains(b) && b != header && cfg.in_edges(b).contains(e) implies !is_outside(cfg, blocks, cfg.edge(e).from) by {
            assert(cfg.has_block(b));
            assert(cfg.in_edges(b)[cfg.in_edges(b).index_of(e)] == e);
            if is_outside(cfg, blocks, cfg.edge(e).from) {
                assert(enters_region(cfg, blocks, e));
            }
        }
    }
}

/// Two edges enter the region at different blocks.
pub open spec fn multi_entry(cfg: &Cfg, blocks: Set<BlockRef>) -> bool {
    exists|d: EdgeRef, e: EdgeRef|
        #[trigger] enters_region(cfg, blocks, d) && #[trigger] enters_region(cfg, blocks, e) && cfg.edge(d).to != cfg.edge(
            e,
        ).to
}

/// The component is cyclic and entered at more than one block.
pub open spec fn is_irreducible(cfg: &Cfg, graph: &GraphFacts, component: Seq<BlockRef>) -> bool {
    component.len() > 0 && graph.cyclic(component[0]) && multi_entry(cfg, component.to_set())
}

/// The region says of a component what there is to say.
pub open spec fn is_region_of(cfg: &Cfg, component: Seq<BlockRef>, region: &IrreducibleRegion) -> bool {
    &&& component.len() > 0
    &&& region.entry == component[0]
    &&& region.blocks@ == component.to_set()
    &&& ascending(region.entry_edges@)
    &&& forall|e: EdgeRef| #[trigger] region.entry_edges@.contains(e) <==> enters_region(cfg, component.to_set(), e)
}

/// Some irreducible component has this region.
pub open spec fn comes_from(cfg: &Cfg, graph: &GraphFacts, list: Seq<Vec<BlockRef>>, region: &IrreducibleRegion) -> bool {
    exists|c: int|
        0 <= c < list.len() && is_irreducible(cfg, graph, (#[trigger] list[c])@) && is_region_of(cfg, list[c]@, region)
}

/// Some region is the region of this component.
pub open spec fn has_region(cfg: &Cfg, regions: Seq<IrreducibleRegion>, component: Seq<BlockRef>) -> bool {
    exists|i: int| 0 <= i < regions.len() && is_region_of(cfg, component, &(#[trigger] regions[i]))
}

/// The irreducible components, by their smallest block.
pub open spec fn irreducible_regions(cfg: &Cfg, graph: &GraphFacts, regions: Seq<IrreducibleRegion>) -> bool {
    let list = graph.strongly_connected_components@;
    &&& forall|i: int, j: int| 0 <= i < j < regions.len() ==> (#[trigger] regions[i]).entry.0 < (#[trigger] regions[j]).entry.0
    &&& forall|i: int| 0 <= i < regions.len() ==> comes_from(cfg, graph, list, &(#[trigger] regions[i]))
    &&& forall|c: int|
        0 <= c < list.len() && is_irreducible(cfg, graph, (#[trigger] list[c])@) ==> has_region(cfg, regions, list[c]@)
}

/// The region of one component, when it is irreducible.
fn irreducible_region(cfg: &Cfg, graph_facts: &GraphFacts, component: &Vec<BlockRef>) -> (r: Option<IrreducibleRegion>)
    requires
        cfg.adjacency_wf(),
        forall|k: int| 0 <= k < component@.len() ==> cfg.has_block(#[trigger] component@[k]),
    ensures
        match r {
            Some(region) => is_irreducible(cfg, graph_facts, component@) && is_region_of(cfg, component@, &region),
            None => !is_irreducible(cfg, graph_facts, component@),
        },
{
    if component.len() == 0 {
        return None;
    }
    let entry = component[0];
    if !graph_facts.block_is_cyclic(entry) {
        return None;
    }
    let mut blocks: IdSet<BlockRef> = IdSet::new();
    let n = component.len();
    let mut i: usize = 0;
    while i < n
        invariant
            n == component@.len(),
            i <= n,
            forall|b: BlockRef| #[trigger] blocks@.contains(b) <==> component@.subrange(0, i as int).contains(b),
        decreases n - i,
    {
        let b = component[i];
        proof {
            let pre = component@.subrange(0, i as int);
            let post = component@.subrange(0, i as int + 1);
            assert(post =~= pre.push(b));
            assert forall|x: BlockRef| #[trigger] post.contains(x) <==> pre.contains(x) || x == b by {
                if pre.contains(x) {
                    let j = choose|j: int| 0 <= j < pre.len() && pre[j] == x;
                    assert(post[j] == x);
                }
                if x == b {
                    assert(post[i as int] == x);
                }
            }
        }
        blocks.insert(b);
        i = i + 1;
    }
    proof {
        assert(component@.subrange(0, n as int) =~= component@);
        assert(blocks@ =~= component@.to_set());
        assert forall|b: BlockRef| #[trigger] blocks@.contains(b) implies cfg.has_block(b) by {
            assert(component@[component@.index_of(b)] == b);
        }
        lists_hold_boundary(cfg, blocks@);
    }
    let entry_edges = collect_region_entry_edges(cfg, &blocks);
    proof {
        assert forall|i: int| 0 <= i < entry_edges@.len() implies cfg.has_edge(#[trigger] entry_edges@[i]) by {
            assert(entry_edges@.contains(entry_edges@[i]));
        }
    }
    let targets = edge_targets(cfg, &entry_edges);
    let count = targets.len();
    proof {
        let s = targets.seq();
        if count > 1 {
            assert(targets@.contains(s[0]) && targets@.contains(s[1]));
            let i = choose|i: int| 0 <= i < entry_edges@.len() && cfg.edge(#[trigger] entry_edges@[i]).to == s[0];
            let j = choose|j: int| 0 <= j < entry_edges@.len() && cfg.edge(#[trigger] entry_edges@[j]).to == s[1];
            assert(entry_edges@.contains(entry_edges@[i]) && entry_edges@.contains(entry_edges@[j]));
            assert(enters_region(cfg, blocks@, entry_edges@[i]) && enters_region(cfg, blocks@, entry_edges@[j]));
            assert(s[0] != s[1]);
        }
        if multi_entry(cfg, blocks@) {
            let (d, e) = choose|d: EdgeRef, e: EdgeRef|
                #[trigger] enters_region(cfg, blocks@, d) && #[trigger] enters_region(cfg, blocks@, e) && cfg.edge(d).to
                    != cfg.edge(e).to;
            assert(entry_edges@.contains(d) && entry_edges@.contains(e));
            let i = choose|i: int| 0 <= i < entry_edges@.len() && entry_edges@[i] == d;
            let j = choose|j: int| 0 <= j < entry_edges@.len() && entry_edges@[j] == e;
            assert(cfg.edge(entry_edges@[i]).to == cfg.edge(d).to);
            assert(cfg.edge(entry_edges@[j]).to == cfg.edge(e).to);
            assert(targets@.contains(cfg.edge(d).to) && targets@.contains(cfg.edge(e).to));
            let a = choose|a: int| 0 <= a < s.len() && s[a] == cfg.edge(d).to;
            let b = choose|b: int| 0 <= b < s.len() && s[b] == cfg.edge(e).to;
            assert(a != b);
        }
    }
    if count <= 1 {
        return None;
    }
    Some(IrreducibleRegion { entry, blocks, entry_edges })
}

/// Finds the irreducible regions among the strongly connected components.
pub fn compute_irreducible_regions(cfg: &Cfg, graph_facts: &GraphFacts) -> (r: Vec<IrreducibleRegion>)
    requires
        cfg.wf(),
        graph_facts.describes(cfg),
    ensures
        irreducible_regions(cfg, graph_facts, r@),
{
    let ghost list = graph_facts.strongly_connected_components@;
    let n = cfg.blocks.len();
    let m = graph_facts.strongly_connected_components.len();
    let mut r: Vec<IrreducibleRegion> = Vec::new();
    proof {
        reachable_in_range(cfg);
        assert forall|c: int| 0 <= c < list.len() implies {
            let k = (#[trigger] list[c])@;
            ascending(k) && k.len() > 0 && k[0].0 < n
        } by {
            assert(list[c]@.contains(list[c]@[0]));
            assert(cfg.is_reachable(list[c]@[0]));
        }
        assert forall|c: int, k: int| 0 <= c < list.len() && 0 <= k < list[c]@.len() implies cfg.has_block(#[trigger] list[c]@[k]) by {
            assert(list[c]@.contains(list[c]@[k]));
            assert(cfg.is_reachable(list[c]@[k]));
        }
        assert forall|c: int, d: int| 0 <= c < list.len() && 0 <= d < list.len() && (#[trigger] list[c])@[0] == (#[trigger] list[d])@[0]
            implies list[c]@ == list[d]@ by {
            assert forall|x: BlockRef| list[c]@.contains(x) <==> list[d]@.contains(x) by {}
            ascending_unique(list[c]@, list[d]@);
        }
    }
    let mut b: usize = 0;
    while b < n
        invariant
            cfg.adjacency_wf(),
            list == graph_facts.strongly_connected_components@,
            m == list.len(),
            b <= n,
            forall|c: int, k: int| 0 <= c < list.len() && 0 <= k < list[c]@.len() ==> cfg.has_block(#[trigger] list[c]@[k]),
            forall|c: int, d: int|
                0 <= c < list.len() && 0 <= d < list.len() && (#[trigger] list[c])@[0] == (#[trigger] list[d])@[0] ==> list[c]@
                    == list[d]@,
            forall|i: int| 0 <= i < r@.len() ==> (#[trigger] r@[i]).entry.0 < b,
            forall|i: int, j: int| 0 <= i < j < r@.len() ==> (#[trigger] r@[i]).entry.0 < (#[trigger] r@[j]).entry.0,
            forall|i: int| 0 <= i < r@.len() ==> comes_from(cfg, graph_facts, list, &(#[trigger] r@[i])),
            forall|c: int|
                0 <= c < list.len() && is_irreducible(cfg, graph_facts, (#[trigger] list[c])@) && list[c]@[0].0 < b
                    ==> has_region(cfg, r@, list[c]@),
        decreases n - b,
    {
        let ghost before = r@;
        let mut found: Option<IrreducibleRegion> = None;
        let mut c: usize = 0;
        let ghost mut at: int = 0;
        while c < m && found.is_none()
            invariant
                cfg.adjacency_wf(),
                list == graph_facts.strongly_connected_components@,
                m == list.len(),
                c <= m,
                forall|c: int, k: int| 0 <= c < list.len() && 0 <= k < list[c]@.len() ==> cfg.has_block(#[trigger] list[c]@[k]),
                match found {
                    Some(region) => {
                        &&& 0 <= at < list.len()
                        &&& is_irreducible(cfg, graph_facts, list[at]@)
                        &&& is_region_of(cfg, list[at]@, &region)
                        &&& list[at]@[0].0 == b
                    },
                    None => forall|q: int|
                        0 <= q < c && is_irreducible(cfg, graph_facts, (#[trigger] list[q])@) ==> list[q]@[0].0 != b,
                },
            decreases m - c,
        {
            let component = &graph_facts.strongly_connected_components[c];
            assert(list[c as int]@ == component@);
            if component.len() > 0 && component[0].0 == b {
                found = irreducible_region(cfg, graph_facts, component);
                proof {
                    at = c as int;
                }
            }
            c = c + 1;
        }
        if let Some(region) = found {
            r.push(region);
            proof {
                assert forall|i: int| 0 <= i < before.len() implies #[trigger] r@[i] == before[i] by {}
                assert(comes_from(cfg, graph_facts, list, &region));
            }
        }
        proof {
            assert forall|c: int|
                0 <= c < list.len() && is_irreducible(cfg, graph_facts, (#[trigger] list[c])@) && list[c]@[0].0 < b + 1
                implies has_region(cfg, r@, list[c]@) by {
                if list[c]@[0].0 < b {
                    assert(has_region(cfg, before, list[c]@));
                    let i = choose|i: int| 0 <= i < before.len() && is_region_of(cfg, list[c]@, &(#[trigger] before[i]));
                    assert(is_region_of(cfg, list[c]@, &r@[i]));
                } else {
                    assert(found is Some);
                    assert(list[c]@[0] == list[at]@[0]);
                    assert(is_region_of(cfg, list[c]@, &r@[before.len() as int]));
                }
            }
            assert forall|i: int| 0 <= i < r@.len() implies comes_from(cfg, graph_facts, list, &(#[trigger] r@[i])) by {
                if i < before.len() {
                    assert(comes_from(cfg, graph_facts, list, &before[i]));
                }
            }
        }
        b = b + 1;
    }
    r
}

} // verus!
