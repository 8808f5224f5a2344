//! Graph facts of one prototype: order, dominators, components and loops.

use vstd::prelude::*;

use crate::cfg::{Cfg, CfgGraph};
use crate::dfs::{is_postorder, postorder, postorder_facts};
use crate::dominance::{compute_tree, dominates, dominator_reached, is_dominator_tree, tree_answers_dominance};
use crate::error::{Fault, StructureError};
use crate::flood::{
    degree, flood, flood_stays, floods_to, mask_set, mask_to_set, neighbour, neighbour_complete, reachable_closed,
    reachable_in_range, set_to_mask, step_in,
};
use crate::ids::{rank_less, BlockRef, EdgeRef, Ranked};
use crate::idset::{ascending, IdSet};
use crate::loopforest::{NaturalLoop, NaturalLoopForest};
use crate::tree::{members, Tree};
use crate::validate::{cfg_fault, validate_cfg};
use crate::walk::{
    closed_set_holds_reachable, reaches, reaches_monotone, reaches_reversed, reaches_self, reaches_then_step,
    reaches_transitive,
};

verus! {

/// The tree of immediate dominators from the entry.
#[derive(Debug)]
pub struct DominatorTree {
    pub tree: Tree,
}

impl DominatorTree {
    pub open spec fn dominated(&self, d: BlockRef, b: BlockRef) -> bool {
        self.tree.covers(d.0, b.0)
    }

    pub fn dominates(&self, dom: BlockRef, block: BlockRef) -> (r: bool)
        ensures
            r == self.dominated(dom, block),
    {
        self.tree.above(dom.0, block.0)
    }

    /// The immediate dominator of a block.
    pub open spec fn idom(&self, b: BlockRef) -> Option<BlockRef> {
        if b.0 < self.tree.parent@.len() {
            match self.tree.parent@[b.0 as int] {
                Some(p) => Some(BlockRef(p)),
                None => None,
            }
        } else {
            None
        }
    }

    pub fn parent(&self, block: BlockRef) -> (r: Option<BlockRef>)
        ensures
            r == self.idom(block),
    {
        if block.0 >= self.tree.parent.len() {
            return None;
        }
        match self.tree.parent[block.0] {
            Some(p) => Some(BlockRef(p)),
            None => None,
        }
    }

    pub open spec fn nca(&self, left: BlockRef, right: BlockRef) -> Option<BlockRef> {
        match self.tree.nca(left.0, right.0) {
            Some(y) => Some(BlockRef(y)),
            None => None,
        }
    }

    pub fn nearest_common_ancestor(&self, left: BlockRef, right: BlockRef) -> (r: Option<BlockRef>)
        requires
            self.tree.wf(),
        ensures
            r == self.nca(left, right),
            r is Some ==> (r->0).0 < self.tree.parent@.len(),
    {
        match self.tree.nearest_common_ancestor(left.0, right.0) {
            Some(y) => Some(BlockRef(y)),
            None => None,
        }
    }
}

/// The tree of immediate dominators from the exit, against the edges.
#[derive(Debug)]
pub struct PostDominatorTree {
    pub tree: Tree,
}

impl PostDominatorTree {
    pub open spec fn dominated(&self, d: BlockRef, b: BlockRef) -> bool {
        self.tree.covers(d.0, b.0)
    }

    pub fn dominates(&self, dom: BlockRef, block: BlockRef) -> (r: bool)
        ensures
            r == self.dominated(dom, block),
    {
        self.tree.above(dom.0, block.0)
    }

    pub open spec fn nca(&self, left: BlockRef, right: BlockRef) -> Option<BlockRef> {
        match self.tree.nca(left.0, right.0) {
            Some(y) => Some(BlockRef(y)),
            None => None,
        }
    }

    pub fn nearest_common_ancestor(&self, left: BlockRef, right: BlockRef) -> (r: Option<BlockRef>)
        requires
            self.tree.wf(),
        ensures
            r == self.nca(left, right),
            r is Some ==> (r->0).0 < self.tree.parent@.len(),
    {
        match self.tree.nearest_common_ancestor(left.0, right.0) {
            Some(y) => Some(BlockRef(y)),
            None => None,
        }
    }
}

/// Everything that the graph of one prototype says, and of the prototypes nested in it.
#[derive(Debug)]
pub struct GraphFacts {
    pub rpo: Vec<BlockRef>,
    pub dominator_tree: DominatorTree,
    pub post_dominator_tree: PostDominatorTree,
    pub dominance_frontier: Vec<IdSet<BlockRef>>,
    pub strongly_connected_components: Vec<Vec<BlockRef>>,
    pub cyclic_blocks: Vec<bool>,
    pub backedges: Vec<EdgeRef>,
    pub loop_headers: IdSet<BlockRef>,
    pub natural_loops: Vec<NaturalLoop>,
    pub natural_loop_forest: NaturalLoopForest,
    pub children: Vec<GraphFacts>,
}

/// `x` dominates a predecessor of `y`, but does not strictly dominate `y`.
pub open spec fn in_frontier(cfg: &Cfg, dom: &DominatorTree, x: BlockRef, y: BlockRef) -> bool {
    exists|e: EdgeRef| #[trigger]
        cfg.has_edge(e) && cfg.edge(e).to == y && cfg.is_reachable(cfg.edge(e).from) && dom.dominated(
            x,
            cfg.edge(e).from,
        ) && !(x != y && dom.dominated(x, y))
}

/// An edge between reachable blocks whose target dominates its source.
pub open spec fn is_backedge(cfg: &Cfg, dom: &DominatorTree, e: EdgeRef) -> bool {
    cfg.has_edge(e) && cfg.is_reachable(cfg.edge(e).from) && cfg.is_reachable(cfg.edge(e).to) && dom.dominated(
        cfg.edge(e).to,
        cfg.edge(e).from,
    )
}

/// `x` and `y` reach each other over reachable blocks.
pub open spec fn same_component(cfg: &Cfg, x: BlockRef, y: BlockRef) -> bool {
    let step = step_in(cfg, cfg.reachable_blocks@, false);
    cfg.is_reachable(x) && cfg.is_reachable(y) && reaches(step, x, y) && reaches(step, y, x)
}

/// Some walk of at least one step leads from `b` back to `b`.
pub open spec fn on_cycle(cfg: &Cfg, b: BlockRef) -> bool {
    let step = step_in(cfg, cfg.reachable_blocks@, false);
    cfg.is_reachable(b) && exists|x: BlockRef| cfg.is_reachable(x) && cfg.links(b, x) && #[trigger] reaches(step, x, b)
}

/// The sources of edges.
pub open spec fn sources(cfg: &Cfg, edges: Seq<EdgeRef>) -> Seq<BlockRef> {
    Seq::new(edges.len(), |i: int| cfg.edge(edges[i]).from)
}

/// The header, and every block from which a back edge's source can be reached without
/// passing the header.
pub open spec fn loop_body(cfg: &Cfg, header: BlockRef, backedges: Seq<EdgeRef>) -> Set<BlockRef> {
    Set::new(
        |b: BlockRef|
            b == header || floods_to(
                cfg,
                sources(cfg, backedges),
                cfg.reachable_blocks@.remove(header),
                true,
                b,
            ),
    )
}

pub open spec fn is_natural_loop(cfg: &Cfg, dom: &DominatorTree, l: &NaturalLoop) -> bool {
    &&& ascending(l.backedges@)
    &&& l.backedges@.len() > 0
    &&& forall|e: EdgeRef| #[trigger] l.backedges@.contains(e) <==> is_backedge(cfg, dom, e) && cfg.edge(e).to == l.header
    &&& l.blocks@ == loop_body(cfg, l.header, l.backedges@)
}

/// The component list, in the order in which the reverse postorder meets the components.
pub open spec fn is_component_list(cfg: &Cfg, rpo: Seq<BlockRef>, list: Seq<Vec<BlockRef>>) -> bool {
    &&& forall|i: int| 0 <= i < list.len() ==> {
        let c = (#[trigger] list[i])@;
        &&& ascending(c)
        &&& c.len() > 0
        &&& forall|x: BlockRef| #[trigger] c.contains(x) <==> same_component(cfg, c[0], x)
    }
    &&& forall|b: BlockRef| #[trigger] cfg.is_reachable(b) ==> exists|i: int| 0 <= i < list.len() && (#[trigger] list[i])@.contains(b)
    &&& exists|lead: Seq<int>| #[trigger] leads(rpo, list, lead)
}

/// `lead[i]` is the position at which the order first meets component `i`.
pub open spec fn leads(rpo: Seq<BlockRef>, list: Seq<Vec<BlockRef>>, lead: Seq<int>) -> bool {
    &&& lead.len() == list.len()
    &&& forall|i: int, j: int| 0 <= i < j < lead.len() ==> #[trigger] lead[i] < #[trigger] lead[j]
    &&& forall|i: int| 0 <= i < lead.len() ==> 0 <= #[trigger] lead[i] < rpo.len() && list[i]@.contains(rpo[lead[i]])
    &&& forall|i: int, k: int| 0 <= i < lead.len() && 0 <= k < lead[i] ==> !(#[trigger] list[i])@.contains(#[trigger] rpo[k])
}

/// The region in which post-dominators are sought.
pub open spec fn exit_region(cfg: &Cfg) -> Set<BlockRef> {
    cfg.reachable_blocks@.insert(cfg.exit_block)
}

impl GraphFacts {
    /// The facts are those of `cfg`.
    pub open spec fn describes(&self, cfg: &Cfg) -> bool {
        let n = cfg.blocks@.len();
        let reach = cfg.reachable_blocks@;
        &&& is_dominator_tree(&self.dominator_tree.tree, cfg, reach, false, cfg.entry_block)
        &&& is_dominator_tree(&self.post_dominator_tree.tree, cfg, exit_region(cfg), true, cfg.exit_block)
        &&& is_postorder(cfg, reach, cfg.entry_block, self.rpo@.reverse())
        &&& postorder_facts(cfg, reach, cfg.entry_block, self.rpo@.reverse())
        &&& self.dominance_frontier@.len() == n
        &&& forall|x: BlockRef, y: BlockRef| #![trigger self.frontier_has(x, y)]
            cfg.has_block(x) ==> (self.frontier_has(x, y) <==> in_frontier(cfg, &self.dominator_tree, x, y))
        &&& is_component_list(cfg, self.rpo@, self.strongly_connected_components@)
        &&& self.cyclic_blocks@.len() == n
        &&& forall|b: BlockRef| #[trigger] cfg.has_block(b) ==> self.cyclic_blocks@[b.0 as int] == on_cycle(cfg, b)
        &&& ascending(self.backedges@)
        &&& forall|e: EdgeRef| #[trigger] self.backedges@.contains(e) <==> is_backedge(cfg, &self.dominator_tree, e)
        &&& forall|h: BlockRef| #[trigger] self.loop_headers@.contains(h) <==> is_header(cfg, &self.dominator_tree, h)
        &&& forall|i: int| 0 <= i < self.natural_loops@.len() ==> is_natural_loop(
            cfg,
            &self.dominator_tree,
            #[trigger] &self.natural_loops@[i],
        )
        &&& forall|i: int, j: int|
            0 <= i < j < self.natural_loops@.len() ==> (#[trigger] self.natural_loops@[i]).header.0
                < (#[trigger] self.natural_loops@[j]).header.0
        &&& forall|h: BlockRef| #[trigger] is_header(cfg, &self.dominator_tree, h) ==> exists|i: int|
            0 <= i < self.natural_loops@.len() && (#[trigger] self.natural_loops@[i]).header == h
        &&& self.natural_loop_forest.describes(self.natural_loops@, self.dominator_tree.tree.parent@, n)
    }

    /// What the queries need: the trees and tables have the graph's size.
    pub open spec fn sized(&self, cfg: &Cfg) -> bool {
        &&& self.dominator_tree.tree.wf()
        &&& self.post_dominator_tree.tree.wf()
        &&& self.dominator_tree.tree.parent@.len() == cfg.blocks@.len()
        &&& self.post_dominator_tree.tree.parent@.len() == cfg.blocks@.len()
        &&& self.dominance_frontier@.len() == cfg.blocks@.len()
        &&& forall|x: BlockRef, y: BlockRef| #[trigger] self.frontier_has(x, y) ==> cfg.has_block(y)
    }

    /// `y` lies in the dominance frontier of `x`.
    pub open spec fn frontier_has(&self, x: BlockRef, y: BlockRef) -> bool {
        x.0 < self.dominance_frontier@.len() && self.dominance_frontier@[x.0 as int]@.contains(y)
    }

    pub open spec fn dom(&self, d: BlockRef, b: BlockRef) -> bool {
        self.dominator_tree.dominated(d, b)
    }

    pub open spec fn postdom(&self, d: BlockRef, b: BlockRef) -> bool {
        self.post_dominator_tree.dominated(d, b)
    }

    pub open spec fn common_postdom(&self, left: BlockRef, right: BlockRef) -> Option<BlockRef> {
        self.post_dominator_tree.nca(left, right)
    }

    pub open spec fn cyclic(&self, b: BlockRef) -> bool {
        b.0 < self.cyclic_blocks@.len() && self.cyclic_blocks@[b.0 as int]
    }

    pub fn block_is_cyclic(&self, block: BlockRef) -> (r: bool)
        ensures
            r == self.cyclic(block),
    {
        block.0 < self.cyclic_blocks.len() && self.cyclic_blocks[block.0]
    }

    /// The dominance frontier of a block, in ascending order; empty for an unknown block.
    pub fn dominance_frontier_blocks(&self, block: BlockRef) -> (r: Vec<BlockRef>)
        ensures
            ascending(r@),
            forall|y: BlockRef| #[trigger] r@.contains(y) <==> self.frontier_has(block, y),
    {
        if block.0 >= self.dominance_frontier.len() {
            return Vec::new();
        }
        let r = self.dominance_frontier[block.0].to_vec();
        proof {
            assert forall|y: BlockRef| #[trigger] r@.contains(y) <==> self.frontier_has(block, y) by {
                assert(r@.to_set().contains(y) <==> self.dominance_frontier@[block.0 as int]@.contains(y));
            }
        }
        r
    }

    pub fn dominance_frontier_is_empty(&self, block: BlockRef) -> (r: bool)
        ensures
            r == (forall|y: BlockRef| !#[trigger] self.frontier_has(block, y)),
    {
        if block.0 >= self.dominance_frontier.len() {
            return true;
        }
        let r = self.dominance_frontier[block.0].is_empty();
        proof {
            let s = self.dominance_frontier@[block.0 as int]@;
            if r {
                assert forall|y: BlockRef| !#[trigger] self.frontier_has(block, y) by {
                    assert(!s.contains(y));
                }
            } else {
                if forall|y: BlockRef| !#[trigger] self.frontier_has(block, y) {
                    assert forall|y: BlockRef| !s.contains(y) by {
                        assert(!self.frontier_has(block, y));
                    }
                    assert(s =~= Set::empty());
                }
            }
        }
        r
    }

    /// Whether `y` lies in the dominance frontier of `x`.
    pub fn joins(&self, x: BlockRef, y: BlockRef) -> (r: bool)
        ensures
            r == self.frontier_has(x, y),
    {
        x.0 < self.dominance_frontier.len() && self.dominance_frontier[x.0].contains(y)
    }

    pub fn natural_loop_forest(&self) -> (r: &NaturalLoopForest)
        ensures
            *r == self.natural_loop_forest,
    {
        &self.natural_loop_forest
    }

    pub fn dominates(&self, dom: BlockRef, block: BlockRef) -> (r: bool)
        ensures
            r == self.dom(dom, block),
    {
        self.dominator_tree.dominates(dom, block)
    }

    pub fn post_dominates(&self, dom: BlockRef, block: BlockRef) -> (r: bool)
        ensures
            r == self.postdom(dom, block),
    {
        self.post_dominator_tree.dominates(dom, block)
    }

    pub fn nearest_common_postdom(&self, left: BlockRef, right: BlockRef) -> (r: Option<BlockRef>)
        requires
            self.post_dominator_tree.tree.wf(),
        ensures
            r == self.common_postdom(left, right),
            r is Some ==> (r->0).0 < self.post_dominator_tree.tree.parent@.len(),
    {
        self.post_dominator_tree.nearest_common_ancestor(left, right)
    }
}

/// Some back edge leads to `h`.
pub open spec fn is_header(cfg: &Cfg, dom: &DominatorTree, h: BlockRef) -> bool {
    exists|e: EdgeRef| #[trigger] is_backedge(cfg, dom, e) && cfg.edge(e).to == h
}

/// The flags of the reachable blocks.
fn reachable_mask(cfg: &Cfg) -> (mask: Vec<bool>)
    requires
        cfg.wf(),
    ensures
        mask@.len() == cfg.blocks@.len(),
        mask_set(mask@) == cfg.reachable_blocks@,
{
    let mask = set_to_mask(&cfg.reachable_blocks, cfg.blocks.len());
    proof {
        reachable_in_range(cfg);
        assert forall|b: BlockRef| mask_set(mask@).contains(b) <==> cfg.reachable_blocks@.contains(b) by {
            if cfg.is_reachable(b) {
                assert(mask@[b.0 as int] == cfg.reachable_blocks@.contains(BlockRef(b.0 as int as usize)));
            }
            if b.0 < mask@.len() {
                assert(mask@[b.0 as int] == cfg.reachable_blocks@.contains(BlockRef(b.0 as int as usize)));
            }
        }
        assert(mask_set(mask@) =~= cfg.reachable_blocks@);
    }
    mask
}

/// The flags of the blocks in which post-dominators are sought.
fn exit_mask(cfg: &Cfg) -> (mask: Vec<bool>)
    requires
        cfg.wf(),
    ensures
        mask@.len() == cfg.blocks@.len(),
        mask_set(mask@) == exit_region(cfg),
{
    let mut mask = reachable_mask(cfg);
    let ghost before = mask@;
    mask[cfg.exit_block.0] = true;
    proof {
        assert forall|b: BlockRef| mask_set(mask@).contains(b) <==> exit_region(cfg).contains(b) by {
            assert(mask_set(before).contains(b) <==> cfg.reachable_blocks@.contains(b));
        }
        assert(mask_set(mask@) =~= exit_region(cfg));
    }
    mask
}

/// The reverse postorder of the reachable blocks.
fn compute_rpo(cfg: &Cfg, reachable: &Vec<bool>) -> (rpo: Vec<BlockRef>)
    requires
        cfg.wf(),
        reachable@.len() == cfg.blocks@.len(),
        mask_set(reachable@) == cfg.reachable_blocks@,
    ensures
        is_postorder(cfg, cfg.reachable_blocks@, cfg.entry_block, rpo@.reverse()),
        postorder_facts(cfg, cfg.reachable_blocks@, cfg.entry_block, rpo@.reverse()),
        forall|b: BlockRef| #[trigger] rpo@.contains(b) <==> cfg.is_reachable(b),
{
    proof {
        reaches_self(cfg.step(), cfg.entry_block);
        assert(cfg.is_reachable(cfg.entry_block));
        assert(mask_set(reachable@).contains(cfg.entry_block));
    }
    let post = postorder(cfg, cfg.entry_block, reachable);
    let rpo = reversed(&post);
    proof {
        assert(rpo@.reverse() =~= post@);
        assert forall|b: BlockRef| #[trigger] rpo@.contains(b) <==> cfg.is_reachable(b) by {
            walk_in_reachable(cfg, b);
            if rpo@.contains(b) {
                let i = choose|i: int| 0 <= i < rpo@.len() && rpo@[i] == b;
                assert(post@[post@.len() - 1 - i] == b);
                assert(post@.contains(b));
            }
            if cfg.is_reachable(b) {
                assert(post@.contains(b));
                let i = choose|i: int| 0 <= i < post@.len() && post@[i] == b;
                assert(rpo@[rpo@.len() - 1 - i] == b);
            }
        }
    }
    rpo
}

/// The frontier of every block.
fn compute_dominance_frontier(cfg: &Cfg, dom: &DominatorTree) -> (f: Vec<IdSet<BlockRef>>)
    requires
        cfg.wf(),
    ensures
        f@.len() == cfg.blocks@.len(),
        forall|x: BlockRef, y: BlockRef| cfg.has_block(x) ==> (#[trigger] f@[x.0 as int]@.contains(y) <==> in_frontier(
            cfg,
            dom,
            x,
            y,
        )),
{
    let n = cfg.blocks.len();
    let m = cfg.edges.len();
    let mut f: Vec<IdSet<BlockRef>> = Vec::new();
    let mut i: usize = 0;
    while i < n
        invariant
            n == cfg.blocks@.len(),
            m == cfg.edges@.len(),
            i <= n,
            f@.len() == i,
            forall|x: BlockRef, y: BlockRef| x.0 < i ==> (#[trigger] f@[x.0 as int]@.contains(y) <==> in_frontier(
                cfg,
                dom,
                x,
                y,
            )),
        decreases n - i,
    {
        let x = BlockRef(i);
        let mut row: IdSet<BlockRef> = IdSet::new();
        let mut k: usize = 0;
        while k < m
            invariant
                m == cfg.edges@.len(),
                k <= m,
                forall|y: BlockRef| #[trigger] row@.contains(y) ==> in_frontier(cfg, dom, x, y),
                forall|e: EdgeRef|
                    e.0 < k && cfg.is_reachable(cfg.edge(e).from) && dom.dominated(x, cfg.edge(e).from) && !(x != cfg.edge(
                        e,
                    ).to && dom.dominated(x, cfg.edge(e).to)) ==> row@.contains((#[trigger] cfg.edge(e)).to),
            decreases m - k,
        {
            let edge = cfg.edges[k];
            assert(cfg.has_edge(EdgeRef(k)) && cfg.edge(EdgeRef(k)) == edge);
            if cfg.reachable_blocks.contains(edge.from) && dom.dominates(x, edge.from) && !(x != edge.to && dom.dominates(
                x,
                edge.to,
            )) {
                assert(in_frontier(cfg, dom, x, edge.to));
                row.insert(edge.to);
            }
            k = k + 1;
        }
        proof {
            assert forall|y: BlockRef| in_frontier(cfg, dom, x, y) implies #[trigger] row@.contains(y) by {
                let e = choose|e: EdgeRef| #[trigger]
                    cfg.has_edge(e) && cfg.edge(e).to == y && cfg.is_reachable(cfg.edge(e).from) && dom.dominated(
                        x,
                        cfg.edge(e).from,
                    ) && !(x != y && dom.dominated(x, y));
                assert(cfg.edge(e).to == y);
            }
        }
        f.push(row);
        i = i + 1;
    }
    f
}

/// The back edges, in ascending order.
fn compute_backedges(cfg: &Cfg, dom: &DominatorTree) -> (r: Vec<EdgeRef>)
    requires
        cfg.wf(),
    ensures
        ascending(r@),
        forall|e: EdgeRef| #[trigger] r@.contains(e) <==> is_backedge(cfg, dom, e),
{
    let m = cfg.edges.len();
    let mut r: Vec<EdgeRef> = Vec::new();
    let mut k: usize = 0;
    while k < m
        invariant
            m == cfg.edges@.len(),
            k <= m,
            ascending(r@),
            forall|i: int| 0 <= i < r@.len() ==> (#[trigger] r@[i]).0 < k,
            forall|e: EdgeRef| #[trigger] r@.contains(e) <==> e.0 < k && is_backedge(cfg, dom, e),
        decreases m - k,
    {
        let edge = cfg.edges[k];
        let ghost before = r@;
        assert(cfg.edge(EdgeRef(k)) == edge);
        if cfg.reachable_blocks.contains(edge.from) && cfg.reachable_blocks.contains(edge.to) && dom.dominates(
            edge.to,
            edge.from,
        ) {
            r.push(EdgeRef(k));
        }
        proof {
            assert forall|e: EdgeRef| #[trigger] r@.contains(e) <==> e.0 < k + 1 && is_backedge(cfg, dom, e) by {
                assert(before.contains(e) <==> e.0 < k && is_backedge(cfg, dom, e));
                if before.contains(e) {
                    let i = choose|i: int| 0 <= i < before.len() && before[i] == e;
                    assert(r@[i] == e);
                }
                if e == EdgeRef(k) && r@.len() > before.len() {
                    assert(r@[before.len() as int] == e);
                }
                if r@.contains(e) && !before.contains(e) {
                    let i = choose|i: int| 0 <= i < r@.len() && r@[i] == e;
                    if i < before.len() {
                        assert(before[i] == e);
                    }
                }
            }
        }
        k = k + 1;
    }
    r
}

/// The targets of the back edges.
fn compute_loop_headers(cfg: &Cfg, dom: &DominatorTree, backedges: &Vec<EdgeRef>) -> (r: IdSet<BlockRef>)
    requires
        forall|e: EdgeRef| #[trigger] backedges@.contains(e) <==> is_backedge(cfg, dom, e),
    ensures
        forall|h: BlockRef| #[trigger] r@.contains(h) <==> is_header(cfg, dom, h),
{
    let m = backedges.len();
    let mut r: IdSet<BlockRef> = IdSet::new();
    let mut k: usize = 0;
    while k < m
        invariant
            m == backedges@.len(),
            k <= m,
            forall|e: EdgeRef| #[trigger] backedges@.contains(e) <==> is_backedge(cfg, dom, e),
            forall|h: BlockRef| #[trigger] r@.contains(h) ==> is_header(cfg, dom, h),
            forall|i: int| 0 <= i < k ==> r@.contains(cfg.edge(#[trigger] backedges@[i]).to),
        decreases m - k,
    {
        let e = backedges[k];
        assert(backedges@.contains(e));
        assert(is_backedge(cfg, dom, e));
        r.insert(cfg.edges[e.0].to);
        k = k + 1;
    }
    proof {
        assert forall|h: BlockRef| is_header(cfg, dom, h) implies #[trigger] r@.contains(h) by {
            let e = choose|e: EdgeRef| #[trigger] is_backedge(cfg, dom, e) && cfg.edge(e).to == h;
            assert(backedges@.contains(e));
            let i = choose|i: int| 0 <= i < backedges@.len() && backedges@[i] == e;
            assert(cfg.edge(backedges@[i]).to == h);
        }
    }
    r
}

/// The natural loop of a header with the given back edges.
fn loop_of(
    cfg: &Cfg,
    dom: &DominatorTree,
    header: BlockRef,
    backedges: Vec<EdgeRef>,
    reachable: &Vec<bool>,
) -> (l: NaturalLoop)
    requires
        cfg.wf(),
        reachable@.len() == cfg.blocks@.len(),
        mask_set(reachable@) == cfg.reachable_blocks@,
        ascending(backedges@),
        backedges@.len() > 0,
        forall|e: EdgeRef| #[trigger] backedges@.contains(e) <==> is_backedge(cfg, dom, e) && cfg.edge(e).to == header,
        cfg.has_block(header),
    ensures
        l.header == header,
        is_natural_loop(cfg, dom, &l),
{
    let n = cfg.blocks.len();
    let ghost region = cfg.reachable_blocks@.remove(header);
    let mut starts: Vec<BlockRef> = Vec::new();
    let m = backedges.len();
    let mut k: usize = 0;
    while k < m
        invariant
            cfg.wf(),
            m == backedges@.len(),
            k <= m,
            forall|e: EdgeRef| #[trigger] backedges@.contains(e) <==> is_backedge(cfg, dom, e) && cfg.edge(e).to == header,
            starts@ =~= sources(cfg, backedges@).subrange(0, k as int),
            forall|i: int| 0 <= i < k ==> cfg.has_block(#[trigger] starts@[i]),
        decreases m - k,
    {
        let e = backedges[k];
        assert(backedges@.contains(e));
        assert(is_backedge(cfg, dom, e));
        assert(cfg.has_edge(e));
        starts.push(cfg.edges[e.0].from);
        k = k + 1;
    }
    assert(starts@ =~= sources(cfg, backedges@));
    let mut allowed: Vec<bool> = Vec::new();
    let mut i: usize = 0;
    while i < n
        invariant
            n == reachable@.len(),
            i <= n,
            allowed@.len() == i,
            forall|j: int| 0 <= j < i ==> #[trigger] allowed@[j] == (reachable@[j] && j != header.0),
        decreases n - i,
    {
        allowed.push(reachable[i] && i != header.0);
        i = i + 1;
    }
    proof {
        assert forall|b: BlockRef| mask_set(allowed@).contains(b) <==> region.contains(b) by {
            assert(mask_set(reachable@).contains(b) <==> cfg.reachable_blocks@.contains(b));
        }
        assert(mask_set(allowed@) =~= region);
    }
    let seen = flood(cfg, &starts, &allowed, true);
    let mut blocks = mask_to_set(&seen);
    blocks.insert(header);
    proof {
        assert(blocks@ =~= loop_body(cfg, header, backedges@)) by {
            assert forall|b: BlockRef| blocks@.contains(b) <==> loop_body(cfg, header, backedges@).contains(b) by {
                assert(mask_set(seen@).contains(b) <==> floods_to(cfg, starts@, region, true, b));
            }
        }
    }
    NaturalLoop { header, backedges, blocks }
}

/// The natural loops, by ascending header.
fn compute_natural_loops(
    cfg: &Cfg,
    dom: &DominatorTree,
    backedges: &Vec<EdgeRef>,
    reachable: &Vec<bool>,
) -> (r: Vec<NaturalLoop>)
    requires
        cfg.wf(),
        reachable@.len() == cfg.blocks@.len(),
        mask_set(reachable@) == cfg.reachable_blocks@,
        ascending(backedges@),
        forall|e: EdgeRef| #[trigger] backedges@.contains(e) <==> is_backedge(cfg, dom, e),
    ensures
        forall|i: int| 0 <= i < r@.len() ==> is_natural_loop(cfg, dom, #[trigger] &r@[i]),
        forall|i: int| 0 <= i < r@.len() ==> cfg.has_block((#[trigger] r@[i]).header),
        forall|i: int, j: int| 0 <= i < j < r@.len() ==> (#[trigger] r@[i]).header.0 < (#[trigger] r@[j]).header.0,
        forall|h: BlockRef| #[trigger] is_header(cfg, dom, h) ==> exists|i: int|
            0 <= i < r@.len() && (#[trigger] r@[i]).header == h,
{
    let n = cfg.blocks.len();
    let m = backedges.len();
    let mut r: Vec<NaturalLoop> = Vec::new();
    let mut h: usize = 0;
    while h < n
        invariant
            cfg.wf(),
            n == cfg.blocks@.len(),
            m == backedges@.len(),
            reachable@.len() == n,
            mask_set(reachable@) == cfg.reachable_blocks@,
            ascending(backedges@),
            forall|e: EdgeRef| #[trigger] backedges@.contains(e) <==> is_backedge(cfg, dom, e),
            h <= n,
            forall|i: int| 0 <= i < r@.len() ==> is_natural_loop(cfg, dom, #[trigger] &r@[i]),
            forall|i: int| 0 <= i < r@.len() ==> (#[trigger] r@[i]).header.0 < h,
            forall|i: int, j: int| 0 <= i < j < r@.len() ==> (#[trigger] r@[i]).header.0 < (#[trigger] r@[j]).header.0,
            forall|q: BlockRef| q.0 < h && #[trigger] is_header(cfg, dom, q) ==> exists|i: int|
                0 <= i < r@.len() && (#[trigger] r@[i]).header == q,
        decreases n - h,
    {
        let header = BlockRef(h);
        let mut group: Vec<EdgeRef> = Vec::new();
        let mut k: usize = 0;
        while k < m
            invariant
                m == backedges@.len(),
                k <= m,
                ascending(backedges@),
                forall|e: EdgeRef| #[trigger] backedges@.contains(e) <==> is_backedge(cfg, dom, e),
                ascending(group@),
                forall|i: int| 0 <= i < group@.len() && k < m ==> (#[trigger] group@[i]).0 < backedges@[k as int].0,
                forall|e: EdgeRef| #[trigger] group@.contains(e) ==> is_backedge(cfg, dom, e) && cfg.edge(e).to == header,
                forall|i: int| 0 <= i < k && cfg.edge(#[trigger] backedges@[i]).to == header ==> group@.contains(backedges@[i]),
            decreases m - k,
        {
            let e = backedges[k];
            let ghost before = group@;
            assert(backedges@.contains(e));
            if cfg.edges[e.0].to == header {
                group.push(e);
                proof {
                    assert forall|x: EdgeRef| #[trigger] group@.contains(x) implies is_backedge(cfg, dom, x) && cfg.edge(x).to
                        == header by {
                        let i = choose|i: int| 0 <= i < group@.len() && group@[i] == x;
                        if i < before.len() {
                            assert(before[i] == x);
                            assert(before.contains(x));
                        }
                    }
                    assert forall|i: int| 0 <= i < k + 1 && cfg.edge(#[trigger] backedges@[i]).to == header implies group@.contains(
                        backedges@[i],
                    ) by {
                        if i < k {
                            assert(before.contains(backedges@[i]));
                            let q = choose|q: int| 0 <= q < before.len() && before[q] == backedges@[i];
                            assert(group@[q] == backedges@[i]);
                        } else {
                            assert(group@[before.len() as int] == e);
                        }
                    }
                }
            }
            proof {
                if k + 1 < m {
                    assert(rank_less(
                        Ranked::rank(backedges@[k as int]),
                        Ranked::rank(backedges@[k + 1]),
                    ));
                }
            }
            k = k + 1;
        }
        proof {
            assert forall|e: EdgeRef| #[trigger] group@.contains(e) <==> is_backedge(cfg, dom, e) && cfg.edge(e).to
                == header by {
                if is_backedge(cfg, dom, e) && cfg.edge(e).to == header {
                    assert(backedges@.contains(e));
                    let i = choose|i: int| 0 <= i < backedges@.len() && backedges@[i] == e;
                    assert(cfg.edge(backedges@[i]).to == header);
                }
            }
            if group@.len() == 0 && is_header(cfg, dom, header) {
                let e = choose|e: EdgeRef| #[trigger] is_backedge(cfg, dom, e) && cfg.edge(e).to == header;
                assert(group@.contains(e));
            }
        }
        let ghost before = r@;
        if group.len() > 0 {
            let l = loop_of(cfg, dom, header, group, reachable);
            r.push(l);
        }
        proof {
            assert forall|i: int| 0 <= i < before.len() implies #[trigger] r@[i] == before[i] by {}
            assert forall|q: BlockRef| q.0 < h + 1 && #[trigger] is_header(cfg, dom, q) implies exists|i: int|
                0 <= i < r@.len() && (#[trigger] r@[i]).header == q by {
                if q.0 < h {
                    let i = choose|i: int| 0 <= i < before.len() && (#[trigger] before[i]).header == q;
                    assert(r@[i].header == q);
                } else {
                    assert(q == header);
                    assert(r@[before.len() as int].header == header);
                }
            }
        }
        h = h + 1;
    }
    proof {
        assert forall|q: BlockRef| #[trigger] is_header(cfg, dom, q) implies exists|i: int|
            0 <= i < r@.len() && (#[trigger] r@[i]).header == q by {
            let e = choose|e: EdgeRef| #[trigger] is_backedge(cfg, dom, e) && cfg.edge(e).to == q;
            assert(cfg.has_edge(e));
        }
    }
    r
}

/// Reaching along the edges inside a region is being reached against them.
proof fn backward_flood(cfg: &Cfg, region: Set<BlockRef>, a: BlockRef, b: BlockRef)
    ensures
        reaches(step_in(cfg, region, true), a, b) <==> reaches(step_in(cfg, region, false), b, a),
{
    let there = step_in(cfg, region, false);
    let back = step_in(cfg, region, true);
    if reaches(back, a, b) {
        reaches_reversed(back, there, a, b);
    }
    if reaches(there, b, a) {
        reaches_reversed(there, back, b, a);
    }
}

/// The component of `b`, in ascending order.
fn component_of(cfg: &Cfg, reachable: &Vec<bool>, b: BlockRef) -> (r: Vec<BlockRef>)
    requires
        cfg.wf(),
        reachable@.len() == cfg.blocks@.len(),
        mask_set(reachable@) == cfg.reachable_blocks@,
        cfg.is_reachable(b),
    ensures
        ascending(r@),
        forall|x: BlockRef| #[trigger] r@.contains(x) <==> same_component(cfg, b, x),
{
    proof {
        reachable_in_range(cfg);
    }
    let n = cfg.blocks.len();
    let ghost region = cfg.reachable_blocks@;
    let mut starts: Vec<BlockRef> = Vec::new();
    starts.push(b);
    let ahead = flood(cfg, &starts, reachable, false);
    let behind = flood(cfg, &starts, reachable, true);
    let mut r: Vec<BlockRef> = Vec::new();
    proof {
        assert(starts@[0] == b);
        assert forall|x: BlockRef| same_component(cfg, b, x) <==> mask_set(ahead@).contains(x) && mask_set(
            behind@,
        ).contains(x) by {
            backward_flood(cfg, region, b, x);
            assert(mask_set(ahead@).contains(x) <==> floods_to(cfg, starts@, region, false, x));
            assert(mask_set(behind@).contains(x) <==> floods_to(cfg, starts@, region, true, x));
            assert(floods_to(cfg, starts@, region, false, x) <==> reaches(step_in(cfg, region, false), b, x));
            assert(floods_to(cfg, starts@, region, true, x) <==> reaches(step_in(cfg, region, true), b, x));
            if reaches(step_in(cfg, region, false), b, x) {
                flood_stays(cfg, region, false, b, x);
            }
        }
    }
    let mut i: usize = 0;
    while i < n
        invariant
            n == ahead@.len(),
            n == behind@.len(),
            i <= n,
            ascending(r@),
            forall|k: int| 0 <= k < r@.len() ==> (#[trigger] r@[k]).0 < i,
            forall|x: BlockRef| #[trigger] r@.contains(x) <==> x.0 < i && mask_set(ahead@).contains(x) && mask_set(
                behind@,
            ).contains(x),
        decreases n - i,
    {
        let ghost before = r@;
        if ahead[i] && behind[i] {
            r.push(BlockRef(i));
        }
        proof {
            assert forall|x: BlockRef| #[trigger] r@.contains(x) <==> x.0 < i + 1 && mask_set(ahead@).contains(x)
                && mask_set(behind@).contains(x) by {
                assert(before.contains(x) <==> x.0 < i && mask_set(ahead@).contains(x) && mask_set(behind@).contains(x));
                if before.contains(x) {
                    let k = choose|k: int| 0 <= k < before.len() && before[k] == x;
                    assert(r@[k] == x);
                }
                if x == BlockRef(i) && r@.len() > before.len() {
                    assert(r@[before.len() as int] == x);
                }
                if r@.contains(x) && !before.contains(x) {
                    let k = choose|k: int| 0 <= k < r@.len() && r@[k] == x;
                    if k < before.len() {
                        assert(before[k] == x);
                    }
                }
            }
        }
        i = i + 1;
    }
    r
}

/// Belonging to one component is an equivalence on the reachable blocks.
pub proof fn same_component_equivalence(cfg: &Cfg, x: BlockRef, y: BlockRef, z: BlockRef)
    ensures
        cfg.is_reachable(x) ==> same_component(cfg, x, x),
        same_component(cfg, x, y) ==> same_component(cfg, y, x),
        same_component(cfg, x, y) && same_component(cfg, y, z) ==> same_component(cfg, x, z),
{
    let step = step_in(cfg, cfg.reachable_blocks@, false);
    reaches_self(step, x);
    if same_component(cfg, x, y) && same_component(cfg, y, z) {
        reaches_transitive(step, x, y, z);
        reaches_transitive(step, z, y, x);
    }
}

/// The strongly connected components, in the order in which `rpo` meets them.
fn compute_strongly_connected_components(cfg: &Cfg, rpo: &Vec<BlockRef>, reachable: &Vec<bool>) -> (list: Vec<Vec<BlockRef>>)
    requires
        cfg.wf(),
        reachable@.len() == cfg.blocks@.len(),
        mask_set(reachable@) == cfg.reachable_blocks@,
        forall|b: BlockRef| #[trigger] rpo@.contains(b) <==> cfg.is_reachable(b),
    ensures
        is_component_list(cfg, rpo@, list@),
{
    let n = cfg.blocks.len();
    let total = rpo.len();
    let mut visited: Vec<bool> = vec![false; n];
    let mut list: Vec<Vec<BlockRef>> = Vec::new();
    let ghost mut lead: Seq<int> = Seq::empty();
    let mut k: usize = 0;
    proof {
        reachable_in_range(cfg);
    }
    while k < total
        invariant
            cfg.wf(),
            n == cfg.blocks@.len(),
            total == rpo@.len(),
            reachable@.len() == n,
            mask_set(reachable@) == cfg.reachable_blocks@,
            forall|b: BlockRef| #[trigger] rpo@.contains(b) <==> cfg.is_reachable(b),
            forall|b: BlockRef| #[trigger] cfg.is_reachable(b) ==> cfg.has_block(b),
            visited@.len() == n,
            k <= total,
            forall|i: int| 0 <= i < list@.len() ==> {
                let c = (#[trigger] list@[i])@;
                &&& ascending(c)
                &&& c.len() > 0
                &&& forall|x: BlockRef| #[trigger] c.contains(x) <==> same_component(cfg, c[0], x)
            },
            forall|b: BlockRef| #[trigger] mask_set(visited@).contains(b) <==> in_list(list@, b),
            forall|q: int| 0 <= q < k ==> mask_set(visited@).contains(#[trigger] rpo@[q]),
            leads(rpo@, list@, lead),
            forall|i: int| 0 <= i < lead.len() ==> #[trigger] lead[i] < k,
        decreases total - k,
    {
        let b = rpo[k];
        assert(rpo@.contains(b));
        assert(cfg.is_reachable(b));
        let ghost list0 = list@;
        let ghost visited0 = visited@;
        if !visited[b.0] {
            let component = component_of(cfg, reachable, b);
            let ghost comp = component@;
            proof {
                same_component_equivalence(cfg, b, b, b);
                assert(comp.contains(b));
                assert(comp.contains(comp[0]));
                assert forall|x: BlockRef| #[trigger] comp.contains(x) <==> same_component(cfg, comp[0], x) by {
                    same_component_equivalence(cfg, b, comp[0], x);
                    same_component_equivalence(cfg, comp[0], b, x);
                    same_component_equivalence(cfg, b, comp[0], b);
                }
            }
            let m = component.len();
            let mut i: usize = 0;
            while i < m
                invariant
                    m == component@.len(),
                    comp == component@,
                    i <= m,
                    visited@.len() == n,
                    forall|x: BlockRef| #[trigger] comp.contains(x) ==> x.0 < n,
                    forall|x: BlockRef| #[trigger] mask_set(visited@).contains(x) <==> mask_set(visited0).contains(x)
                        || comp.subrange(0, i as int).contains(x),
                decreases m - i,
            {
                let x = component[i];
                let ghost v0 = visited@;
                assert(comp.contains(x));
                visited[x.0] = true;
                proof {
                    assert(comp.subrange(0, i as int + 1) =~= comp.subrange(0, i as int).push(x));
                    assert forall|y: BlockRef| #[trigger] mask_set(visited@).contains(y) <==> mask_set(visited0).contains(y)
                        || comp.subrange(0, i as int + 1).contains(y) by {
                        assert(mask_set(v0).contains(y) <==> mask_set(visited0).contains(y) || comp.subrange(0, i as int).contains(y));
                        let a = comp.subrange(0, i as int);
                        let c = comp.subrange(0, i as int + 1);
                        if a.contains(y) {
                            let q = choose|q: int| 0 <= q < a.len() && a[q] == y;
                            assert(c[q] == y);
                        }
                        if y == x {
                            assert(c[i as int] == x);
                        }
                        if c.contains(y) && y != x {
                            let q = choose|q: int| 0 <= q < c.len() && c[q] == y;
                            assert(a[q] == y);
                        }
                    }
                }
                i = i + 1;
            }
            list.push(component);
            proof {
                assert(comp.subrange(0, m as int) =~= comp);
                assert(list@[list0.len() as int]@ == comp);
                assert forall|i: int| 0 <= i < list0.len() implies #[trigger] list@[i] == list0[i] by {}
                assert forall|x: BlockRef| #[trigger] mask_set(visited@).contains(x) <==> in_list(list@, x) by {
                    assert(mask_set(visited0).contains(x) <==> in_list(list0, x));
                    if in_list(list0, x) {
                        let q = choose|q: int| 0 <= q < list0.len() && (#[trigger] list0[q])@.contains(x);
                        assert(list@[q]@.contains(x));
                    }
                    if comp.contains(x) {
                        assert(list@[list0.len() as int]@.contains(x));
                    }
                    if in_list(list@, x) {
                        let q = choose|q: int| 0 <= q < list@.len() && (#[trigger] list@[q])@.contains(x);
                        if q < list0.len() {
                            assert(list0[q]@.contains(x));
                        }
                    }
                }
                let lead0 = lead;
                lead = lead.push(k as int);
                assert forall|i: int, q: int| 0 <= i < lead.len() && 0 <= q < lead[i] implies !(#[trigger] list@[i])@.contains(
                    #[trigger] rpo@[q],
                ) by {
                    if i < lead0.len() {
                        assert(!list0[i]@.contains(rpo@[q]));
                    } else {
                        // An earlier block of this component would have brought it in.
                        let x = rpo@[q];
                        assert(mask_set(visited0).contains(x));
                        if comp.contains(x) {
                            assert(in_list(list0, x));
                            let w = choose|w: int| 0 <= w < list0.len() && (#[trigger] list0[w])@.contains(x);
                            let c = list0[w]@;
                            same_component_equivalence(cfg, b, x, c[0]);
                            same_component_equivalence(cfg, c[0], x, b);
                            assert(c.contains(b));
                            assert(in_list(list0, b));
                            assert(mask_set(visited0).contains(b));
                        }
                    }
                }
                assert forall|i: int| 0 <= i < lead.len() implies 0 <= #[trigger] lead[i] < rpo@.len() && list@[i]@.contains(
                    rpo@[lead[i]],
                ) by {
                    if i < lead0.len() {
                        assert(list@[i] == list0[i]);
                        assert(list0[i]@.contains(rpo@[lead0[i]]));
                    }
                }
                assert(leads(rpo@, list@, lead));
            }
        }
        proof {
            assert forall|q: int| 0 <= q < k + 1 implies mask_set(visited@).contains(#[trigger] rpo@[q]) by {
                if q < k {
                    assert(mask_set(visited0).contains(rpo@[q]));
                } else if !mask_set(visited0).contains(b) {
                    assert(list@[list0.len() as int]@.contains(b));
                    assert(in_list(list@, b));
                }
            }
        }
        k = k + 1;
    }
    proof {
        assert forall|b: BlockRef| #[trigger] cfg.is_reachable(b) implies exists|i: int|
            0 <= i < list@.len() && (#[trigger] list@[i])@.contains(b) by {
            assert(rpo@.contains(b));
            let q = choose|q: int| 0 <= q < rpo@.len() && rpo@[q] == b;
            assert(mask_set(visited@).contains(rpo@[q]));
            assert(in_list(list@, b));
        }
    }
    list
}

spec fn in_list(list: Seq<Vec<BlockRef>>, b: BlockRef) -> bool {
    exists|i: int| 0 <= i < list.len() && (#[trigger] list[i])@.contains(b)
}

/// The blocks that lie on a cycle.
fn compute_cyclic_blocks(cfg: &Cfg, reachable: &Vec<bool>) -> (r: Vec<bool>)
    requires
        cfg.wf(),
        reachable@.len() == cfg.blocks@.len(),
        mask_set(reachable@) == cfg.reachable_blocks@,
    ensures
        r@.len() == cfg.blocks@.len(),
        forall|b: BlockRef| #[trigger] cfg.has_block(b) ==> r@[b.0 as int] == on_cycle(cfg, b),
{
    let n = cfg.blocks.len();
    let ghost region = cfg.reachable_blocks@;
    let mut r: Vec<bool> = Vec::new();
    let mut i: usize = 0;
    while i < n
        invariant
            cfg.wf(),
            n == cfg.blocks@.len(),
            reachable@.len() == n,
            mask_set(reachable@) == cfg.reachable_blocks@,
            region == cfg.reachable_blocks@,
            i <= n,
            r@.len() == i,
            forall|b: BlockRef| b.0 < i ==> #[trigger] r@[b.0 as int] == on_cycle(cfg, b),
        decreases n - i,
    {
        let b = BlockRef(i);
        assert(mask_set(reachable@).contains(b) == reachable@[i as int]);
        if !reachable[i] {
            r.push(false);
        } else {
            let m = cfg.succs[i].len();
            let mut starts: Vec<BlockRef> = Vec::new();
            let mut k: usize = 0;
            while k < m
                invariant
                    cfg.wf(),
                    cfg.has_block(b),
                    b.0 == i,
                    m == cfg.out_edges(b).len(),
                    k <= m,
                    starts@.len() == k,
                    forall|q: int| 0 <= q < k ==> #[trigger] starts@[q] == neighbour(cfg, b, q, false) && cfg.has_block(
                        starts@[q],
                    ) && cfg.links(b, starts@[q]),
                decreases m - k,
            {
                let e = cfg.succs[i][k];
                assert(e == cfg.out_edges(b)[k as int]);
                assert(cfg.has_edge(e));
                let y = cfg.edges[e.0].to;
                assert(cfg.edge(e).from == b && cfg.edge(e).to == y);
                starts.push(y);
                k = k + 1;
            }
            let seen = flood(cfg, &starts, reachable, false);
            r.push(seen[i]);
            proof {
                let step = step_in(cfg, region, false);
                assert(seen@[i as int] == mask_set(seen@).contains(b));
                if seen@[i as int] {
                    assert(floods_to(cfg, starts@, region, false, b));
                    let q = choose|q: int|
                        0 <= q < starts@.len() && region.contains(#[trigger] starts@[q]) && reaches(step, starts@[q], b);
                    assert(reaches(step, starts@[q], b));
                }
                if on_cycle(cfg, b) {
                    let x = choose|x: BlockRef| cfg.is_reachable(x) && cfg.links(b, x) && #[trigger] reaches(step, x, b);
                    neighbour_complete(cfg, b, x, false);
                    let q = choose|q: int|
                        0 <= q < degree(cfg, b, false) && #[trigger] neighbour(cfg, b, q, false) == x;
                    assert(starts@[q] == x);
                    assert(floods_to(cfg, starts@, region, false, b));
                }
            }
        }
        i = i + 1;
    }
    r
}

fn reversed(v: &Vec<BlockRef>) -> (r: Vec<BlockRef>)
    ensures
        r@ == v@.reverse(),
{
    let mut r: Vec<BlockRef> = Vec::new();
    let mut i: usize = v.len();
    while i > 0
        invariant
            i <= v@.len(),
            r@.len() == v@.len() - i,
            forall|k: int| 0 <= k < r@.len() ==> r@[k] == v@[v@.len() - 1 - k],
        decreases i,
    {
        i = i - 1;
        r.push(v[i]);
    }
    assert(r@ =~= v@.reverse());
    r
}

/// Derives the facts of one graph, whose nested prototypes have the facts `children`.
#[verifier::rlimit(60)]
pub fn analyze_graph(cfg: &Cfg, children: Vec<GraphFacts>) -> (r: Result<GraphFacts, StructureError>)
    ensures
        match r {
            Ok(f) => cfg_fault(cfg) is None && cfg.wf() && f.describes(cfg) && f.children == children,
            Err(e) => cfg_fault(cfg) == Some(e.fault),
        },
{
    if let Err(e) = validate_cfg(cfg) {
        return Err(e);
    }
    let reachable = reachable_mask(cfg);
    let dominator_tree = DominatorTree { tree: compute_tree(cfg, &reachable, cfg.entry_block, false) };
    let rpo = compute_rpo(cfg, &reachable);
    let strongly_connected_components = compute_strongly_connected_components(cfg, &rpo, &reachable);
    let cyclic_blocks = compute_cyclic_blocks(cfg, &reachable);
    let exit_visible = exit_mask(cfg);
    let post_dominator_tree = PostDominatorTree { tree: compute_tree(cfg, &exit_visible, cfg.exit_block, true) };
    let dominance_frontier = compute_dominance_frontier(cfg, &dominator_tree);
    let backedges = compute_backedges(cfg, &dominator_tree);
    let loop_headers = compute_loop_headers(cfg, &dominator_tree, &backedges);
    let natural_loops = compute_natural_loops(cfg, &dominator_tree, &backedges, &reachable);
    let natural_loop_forest = NaturalLoopForest::build(&natural_loops, &dominator_tree.tree, cfg.blocks.len());
    let f = GraphFacts {
        rpo,
        dominator_tree,
        post_dominator_tree,
        dominance_frontier,
        strongly_connected_components,
        cyclic_blocks,
        backedges,
        loop_headers,
        natural_loops,
        natural_loop_forest,
        children,
    };
    proof {
        assert forall|x: BlockRef, y: BlockRef| #![trigger f.frontier_has(x, y)]
            cfg.has_block(x) implies (f.frontier_has(x, y) <==> in_frontier(cfg, &f.dominator_tree, x, y)) by {
            assert(f.dominance_frontier@[x.0 as int]@.contains(y) <==> in_frontier(cfg, &f.dominator_tree, x, y));
        }
    }
    Ok(f)
}

/// Inside the reachable blocks the entry reaches exactly those.
pub proof fn walk_in_reachable(cfg: &Cfg, b: BlockRef)
    requires
        cfg.wf(),
    ensures
        cfg.is_reachable(b) <==> reaches(step_in(cfg, cfg.reachable_blocks@, false), cfg.entry_block, b),
{
    let inner = step_in(cfg, cfg.reachable_blocks@, false);
    reaches_self(cfg.step(), cfg.entry_block);
    assert(cfg.is_reachable(cfg.entry_block));
    reaches_self(inner, cfg.entry_block);
    if reaches(inner, cfg.entry_block, b) {
        reaches_monotone(inner, cfg.step(), cfg.entry_block, b);
    }
    if cfg.is_reachable(b) {
        let s = Set::new(|y: BlockRef| reaches(inner, cfg.entry_block, y) && cfg.is_reachable(y));
        assert forall|u: BlockRef, v: BlockRef| s.contains(u) && #[trigger] (cfg.step())(u, v) implies s.contains(v) by {
            reachable_closed(cfg, u, v);
            assert(inner(u, v));
            reaches_then_step(inner, cfg.entry_block, u, v);
        }
        closed_set_holds_reachable(cfg.step(), s, cfg.entry_block, b);
    }
}

/// The facts give every query the size it needs.
pub proof fn facts_are_sized(f: &GraphFacts, cfg: &Cfg)
    requires
        cfg.wf(),
        f.describes(cfg),
    ensures
        f.sized(cfg),
{
    assert forall|x: BlockRef, y: BlockRef| #[trigger] f.frontier_has(x, y) implies cfg.has_block(y) by {
        assert(cfg.has_block(x));
        assert(in_frontier(cfg, &f.dominator_tree, x, y));
        let e = choose|e: EdgeRef| #[trigger]
            cfg.has_edge(e) && cfg.edge(e).to == y && cfg.is_reachable(cfg.edge(e).from) && f.dominator_tree.dominated(
                x,
                cfg.edge(e).from,
            ) && !(x != y && f.dominator_tree.dominated(x, y));
        assert(cfg.has_edge(e));
    }
}

/// The dominance query answers whether every path from the entry passes the dominator.
pub proof fn dominance_by_paths(f: &GraphFacts, cfg: &Cfg, d: BlockRef, b: BlockRef)
    requires
        cfg.wf(),
        f.describes(cfg),
    ensures
        f.dom(d, b) <==> d == b || dominates(
            step_in(cfg, cfg.reachable_blocks@, false),
            cfg.entry_block,
            d,
            b,
        ),
{
    reaches_self(cfg.step(), cfg.entry_block);
    assert(cfg.is_reachable(cfg.entry_block));
    tree_answers_dominance(
        &f.dominator_tree.tree,
        cfg,
        cfg.reachable_blocks@,
        false,
        cfg.entry_block,
        d,
        b,
    );
}

/// The post-dominance query answers whether every path to the exit passes the dominator.
pub proof fn post_dominance_by_paths(f: &GraphFacts, cfg: &Cfg, d: BlockRef, b: BlockRef)
    requires
        cfg.wf(),
        f.describes(cfg),
    ensures
        f.postdom(d, b) <==> d == b || dominates(
            step_in(cfg, exit_region(cfg), true),
            cfg.exit_block,
            d,
            b,
        ),
{
    tree_answers_dominance(
        &f.post_dominator_tree.tree,
        cfg,
        exit_region(cfg),
        true,
        cfg.exit_block,
        d,
        b,
    );
}

/// Unreachable blocks lie in no dominator tree.
pub proof fn unreachable_blocks_have_no_dominator(f: &GraphFacts, cfg: &Cfg, d: BlockRef, b: BlockRef)
    requires
        cfg.wf(),
        f.describes(cfg),
        !cfg.is_reachable(b),
        d != b,
    ensures
        !f.dom(d, b),
        !f.dom(b, d),
        f.dominator_tree.idom(b) is None,
{
    walk_in_reachable(cfg, b);
    dominance_by_paths(f, cfg, d, b);
    dominance_by_paths(f, cfg, b, d);
    let t = f.dominator_tree.tree;
    assert(!t.has(b.0));
    if f.dom(b, d) {
        dominator_reached(step_in(cfg, cfg.reachable_blocks@, false), cfg.entry_block, b, d);
    }
    if b.0 < t.parent@.len() {
        assert(!members(t.depth@)[b.0 as int]);
    }
}

/// The first fault in a tree of graphs: nested prototypes come before the one they lie in.
pub open spec fn graph_fault(g: &CfgGraph) -> Option<Fault>
    decreases g, g.children@.len() + 1,
{
    match nested_fault(g, g.children@.len()) {
        Some(f) => Some(f),
        None => cfg_fault(&g.cfg),
    }
}

/// The first fault among the first `n` nested graphs.
pub open spec fn nested_fault(g: &CfgGraph, n: nat) -> Option<Fault>
    decreases g, n,
    when n <= g.children@.len()
{
    if n == 0 {
        None
    } else {
        match nested_fault(g, (n - 1) as nat) {
            Some(f) => Some(f),
            None => graph_fault(&g.children@[n - 1]),
        }
    }
}

/// The facts describe the graph, and the nested facts the nested graphs.
pub open spec fn facts_of(f: &GraphFacts, g: &CfgGraph) -> bool
    decreases g,
{
    &&& g.cfg.wf()
    &&& f.describes(&g.cfg)
    &&& f.children@.len() == g.children@.len()
    &&& forall|i: int| 0 <= i < g.children@.len() ==> facts_of(&f.children@[i], #[trigger] &g.children@[i])
}

/// Derives the facts of a graph and of everything nested in it.
pub fn analyze_graph_facts(g: &CfgGraph) -> (r: Result<GraphFacts, StructureError>)
    ensures
        match r {
            Ok(f) => graph_fault(g) is None && facts_of(&f, g),
            Err(e) => graph_fault(g) == Some(e.fault),
        },
    decreases g,
{
    let n = g.children.len();
    let mut children: Vec<GraphFacts> = Vec::new();
    let mut i: usize = 0;
    while i < n
        invariant
            n == g.children@.len(),
            i <= n,
            children@.len() == i,
            nested_fault(g, i as nat) is None,
            forall|k: int| 0 <= k < i ==> facts_of(&children@[k], #[trigger] &g.children@[k]),
        decreases n - i,
    {
        let ghost before = children@;
        match analyze_graph_facts(&g.children[i]) {
            Ok(f) => {
                children.push(f);
                proof {
                    assert forall|k: int| 0 <= k < i + 1 implies facts_of(&children@[k], #[trigger] &g.children@[k]) by {
                        if k < i {
                            assert(children@[k] == before[k]);
                            assert(facts_of(&before[k], &g.children@[k]));
                        }
                    }
                }
            },
            Err(e) => {
                proof {
                    assert(nested_fault(g, (i + 1) as nat) == Some(e.fault));
                    nested_fault_stable(g, (i + 1) as nat, n as nat);
                }
                return Err(e);
            },
        }
        i = i + 1;
    }
    analyze_graph(&g.cfg, children)
}

proof fn nested_fault_stable(g: &CfgGraph, m: nat, n: nat)
    requires
        m <= n <= g.children@.len(),
        nested_fault(g, m) is Some,
    ensures
        nested_fault(g, n) == nested_fault(g, m),
    decreases n,
{
    if m < n {
        nested_fault_stable(g, m, (n - 1) as nat);
    }
}

} // verus!
