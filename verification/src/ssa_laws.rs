//! What the renaming promises: on every way through the graph the value at a place is the
//! one that was made last.

use vstd::prelude::*;

use crate::cfg::Cfg;
use crate::collapse::{agrees, is_kept, operand, replacements_are_sound};
use crate::dataflow::{PhiCandidate, PhiId, SsaValue};
use crate::dominance::{
    dominates, dominates_antisymmetric, dominates_reflexive, dominates_transitive, dominator_reached,
    dominators_chain, immediate_dominator_exists, immediately_dominates, is_dominator_tree, is_parent, root_dominates,
    strictly_dominates, tree_answers_dominance,
};
use crate::flood::{reachable_closed, reachable_in_range, step_in};
use crate::graph::{in_frontier, walk_in_reachable, GraphFacts};
use crate::ids::{BlockRef, EdgeRef, Reg};
use crate::renaming::{site_at, value_from, SsaAnalysis, SsaInput};
use crate::search::{count_where, count_where_monotone};
use crate::tracks::{last_write, level, parent_is_higher, written_in, Origin, TrackModel};
use crate::walk::{is_walk, reaches, reaches_self, reaches_then_step, reaches_transitive, Step};

verus! {

/// The phis stand where the variable needs them.
pub open spec fn phis_placed(track: &TrackModel, cfg: &Cfg, graph: &GraphFacts, phis: Seq<Option<usize>>) -> bool {
    &&& phis.len() == cfg.blocks@.len()
    &&& forall|b: int| 0 <= b < phis.len() ==> ((#[trigger] phis[b]) is Some <==> track.needs_phi(cfg, graph, b as usize))
}

/// The part of the graph facts on which the renaming rests.
spec fn dominance_known(cfg: &Cfg, graph: &GraphFacts) -> bool {
    &&& is_dominator_tree(&graph.dominator_tree.tree, cfg, cfg.reachable_blocks@, false, cfg.entry_block)
    &&& forall|x: BlockRef, y: BlockRef| #![trigger graph.frontier_has(x, y)]
        cfg.has_block(x) ==> (graph.frontier_has(x, y) <==> in_frontier(cfg, &graph.dominator_tree, x, y))
}

spec fn inner(cfg: &Cfg) -> Step {
    step_in(cfg, cfg.reachable_blocks@, false)
}

/// `d` dominates `b`.
spec fn dom(cfg: &Cfg, d: BlockRef, b: BlockRef) -> bool {
    dominates(inner(cfg), cfg.entry_block, d, b)
}

proof fn no_last_write(writes: Seq<Option<usize>>, start: int, end: int)
    ensures
        last_write(writes, start, end) is None <==> !written_in(writes, start, end),
    decreases end - start,
{
    if end > start {
        no_last_write(writes, start, end - 1);
        if writes[end - 1] is Some {
            assert(written_in(writes, start, end));
        } else {
            if written_in(writes, start, end - 1) {
                let j = choose|j: int| start <= j < end - 1 && (#[trigger] writes[j]) is Some;
                assert(start <= j < end && writes[j] is Some);
            }
            if written_in(writes, start, end) {
                let j = choose|j: int| start <= j < end && (#[trigger] writes[j]) is Some;
                assert(start <= j < end - 1 && writes[j] is Some);
            }
        }
    }
}

/// What strictly dominates a block dominates the blocks before it.
proof fn dominates_before(cfg: &Cfg, d: BlockRef, p: BlockRef, b: BlockRef)
    requires
        dom(cfg, d, b),
        d != b,
        inner(cfg)(p, b),
        reaches(inner(cfg), cfg.entry_block, p),
    ensures
        dom(cfg, d, p),
{
    let step = inner(cfg);
    assert forall|q: Seq<BlockRef>| #[trigger] is_walk(step, q) && q.first() == cfg.entry_block && q.last() == p implies q.contains(d) by {
        let w = q.push(b);
        assert(is_walk(step, w)) by {
            assert forall|k: int| 0 <= k < w.len() - 1 implies #[trigger] step(w[k], w[k + 1]) by {
                if k < q.len() - 1 {
                    assert(step(q[k], q[k + 1]));
                }
            }
        }
        assert(w.first() == cfg.entry_block);
        assert(w.last() == b);
        assert(w.contains(d));
        let i = choose|i: int| 0 <= i < w.len() && w[i] == d;
        assert(q[i] == d);
    }
}

/// A value that is made in `x`, or meets another there, meets another value at `b`, if `x`
/// dominates a block before `b` but not `b` itself.
proof fn meets_behind(track: &TrackModel, cfg: &Cfg, graph: &GraphFacts, x: BlockRef, e: EdgeRef)
    requires
        forall|x: BlockRef, y: BlockRef| #![trigger graph.frontier_has(x, y)]
            cfg.has_block(x) ==> (graph.frontier_has(x, y) <==> in_frontier(cfg, &graph.dominator_tree, x, y)),
        cfg.has_block(x),
        cfg.has_edge(e),
        cfg.is_reachable(cfg.edge(e).from),
        graph.dominator_tree.dominated(x, cfg.edge(e).from),
        !(x != cfg.edge(e).to && graph.dominator_tree.dominated(x, cfg.edge(e).to)),
        track.live_in(cfg, cfg.edge(e).to),
        track.overwritten(cfg, x) || track.meets(cfg, graph, x.0),
    ensures
        track.meets(cfg, graph, cfg.edge(e).to.0),
{
    let b = cfg.edge(e).to;
    let joined = track.joined(cfg, graph);
    assert(in_frontier(cfg, &graph.dominator_tree, x, b));
    assert(graph.frontier_has(x, b));
    assert(BlockRef(x.0) == x && BlockRef(b.0) == b);
    assert(joined(x.0, b.0));
    if track.overwritten(cfg, x) {
        reaches_self(joined, x.0);
        assert(reaches(joined, x.0, x.0));
    } else {
        let (y, z) = choose|y: usize, z: usize|
            y < cfg.blocks@.len() && track.overwritten(cfg, BlockRef(y)) && #[trigger] reaches(joined, y, z) && joined(z, x.0);
        reaches_then_step(joined, y, z, x.0);
        assert(reaches(joined, y, x.0));
    }
}

/// Up from a block before `b`, as far as `b` is not dominated, nothing is made of the
/// variable: what `x` leaves is what arrives at `b`.
proof fn climb(track: &TrackModel, cfg: &Cfg, graph: &GraphFacts, phis: Seq<Option<usize>>, x: BlockRef, e: EdgeRef)
    requires
        cfg.wf(),
        dominance_known(cfg, graph),
        phis_placed(track, cfg, graph, phis),
        cfg.has_edge(e),
        cfg.is_reachable(cfg.edge(e).from),
        track.live_in(cfg, cfg.edge(e).to),
        phis[cfg.edge(e).to.0 as int] is None,
        dom(cfg, x, cfg.edge(e).from),
        x == cfg.edge(e).to || !dom(cfg, x, cfg.edge(e).to),
    ensures
        track.leaving(cfg, &graph.dominator_tree.tree, phis, x.0) == track.arriving(
            cfg,
            &graph.dominator_tree.tree,
            phis,
            cfg.edge(e).to.0,
        ),
    decreases level(&graph.dominator_tree.tree, x.0),
{
    let tree = &graph.dominator_tree.tree;
    let step = inner(cfg);
    let root = cfg.entry_block;
    let p = cfg.edge(e).from;
    let b = cfg.edge(e).to;
    reachable_in_range(cfg);
    assert(cfg.links(p, b));
    reachable_closed(cfg, p, b);
    reaches_self(cfg.step(), root);
    assert(cfg.is_reachable(root));
    walk_in_reachable(cfg, p);
    walk_in_reachable(cfg, b);
    assert(step(p, b));
    dominator_reached(step, root, x, p);
    walk_in_reachable(cfg, x);
    assert(cfg.has_block(x) && cfg.has_block(b));
    assert(BlockRef(x.0) == x && BlockRef(b.0) == b);
    tree_answers_dominance(tree, cfg, cfg.reachable_blocks@, false, root, x, p);
    tree_answers_dominance(tree, cfg, cfg.reachable_blocks@, false, root, x, b);
    if track.overwritten(cfg, x) || track.meets(cfg, graph, x.0) {
        meets_behind(track, cfg, graph, x, e);
        assert(track.needs_phi(cfg, graph, b.0));
        assert(phis[b.0 as int] is Some);
    }
    root_dominates(step, root, b);
    if phis[x.0 as int] is Some {
        assert(track.needs_phi(cfg, graph, x.0));
        assert(x == root);
        assert(x == b);
    }
    no_last_write(track.writes, cfg.range(x).start.0 as int, cfg.range(x).end_at());
    assert(track.leaving(cfg, tree, phis, x.0) == track.arriving(cfg, tree, phis, x.0));
    if x != b {
        assert(x != root);
        assert forall|c: BlockRef| #[trigger] reaches(step, root, c) implies c.0 < cfg.blocks@.len() by {
            walk_in_reachable(cfg, c);
        }
        let y = immediate_dominator_exists(cfg.blocks@.len(), step, root, x);
        assert(is_parent(tree, y, x));
        parent_is_higher(tree, x.0);
        assert(BlockRef(y.0) == y);
        assert(track.arriving(cfg, tree, phis, x.0) == track.leaving(cfg, tree, phis, y.0));
        dominates_transitive(step, root, y, x, p);
        if y == b || !dom(cfg, y, b) {
            climb(track, cfg, graph, phis, y, e);
        } else {
            if b == root {
                dominator_reached(step, root, y, b);
                root_dominates(step, root, y);
                dominates_antisymmetric(step, root, y, b);
            }
            let d = immediate_dominator_exists(cfg.blocks@.len(), step, root, b);
            assert(is_parent(tree, d, b));
            parent_is_higher(tree, b.0);
            dominates_before(cfg, d, p, b);
            dominators_chain(step, root, d, x, p);
            if dom(cfg, x, d) {
                dominates_transitive(step, root, x, d, b);
            }
            assert(d != x);
            assert(strictly_dominates(step, root, d, x));
            assert(dominates(step, root, d, y));
            assert(strictly_dominates(step, root, y, b));
            assert(dominates(step, root, y, d));
            dominates_antisymmetric(step, root, d, y);
            assert(track.arriving(cfg, tree, phis, b.0) == track.leaving(cfg, tree, phis, d.0));
        }
    }
}

/// Over every edge into a block where the variable is still read and no phi stands, the
/// value that the edge brings is the one that arrives: no value is lost, none is confused
/// with another.
pub proof fn every_way_brings_the_value(
    track: &TrackModel,
    cfg: &Cfg,
    graph: &GraphFacts,
    phis: Seq<Option<usize>>,
    e: EdgeRef,
)
    requires
        cfg.wf(),
        graph.describes(cfg),
        phis_placed(track, cfg, graph, phis),
        cfg.has_edge(e),
        cfg.is_reachable(cfg.edge(e).from),
        track.live_in(cfg, cfg.edge(e).to),
        phis[cfg.edge(e).to.0 as int] is None,
    ensures
        track.leaving(cfg, &graph.dominator_tree.tree, phis, cfg.edge(e).from.0) == track.arriving(
            cfg,
            &graph.dominator_tree.tree,
            phis,
            cfg.edge(e).to.0,
        ),
{
    assert(dominance_known(cfg, graph));
    value_brought(track, cfg, graph, phis, e);
}

proof fn value_brought(track: &TrackModel, cfg: &Cfg, graph: &GraphFacts, phis: Seq<Option<usize>>, e: EdgeRef)
    requires
        cfg.wf(),
        dominance_known(cfg, graph),
        phis_placed(track, cfg, graph, phis),
        cfg.has_edge(e),
        cfg.is_reachable(cfg.edge(e).from),
        track.live_in(cfg, cfg.edge(e).to),
        phis[cfg.edge(e).to.0 as int] is None,
    ensures
        track.leaving(cfg, &graph.dominator_tree.tree, phis, cfg.edge(e).from.0) == track.arriving(
            cfg,
            &graph.dominator_tree.tree,
            phis,
            cfg.edge(e).to.0,
        ),
{
    let tree = &graph.dominator_tree.tree;
    let step = inner(cfg);
    let root = cfg.entry_block;
    let p = cfg.edge(e).from;
    let b = cfg.edge(e).to;
    reachable_in_range(cfg);
    assert(cfg.links(p, b));
    reachable_closed(cfg, p, b);
    reaches_self(cfg.step(), root);
    assert(cfg.is_reachable(root));
    walk_in_reachable(cfg, p);
    walk_in_reachable(cfg, b);
    dominates_reflexive(step, root, p);
    if p == b || !dom(cfg, p, b) {
        climb(track, cfg, graph, phis, p, e);
    } else {
        assert forall|c: BlockRef| #[trigger] reaches(step, root, c) implies c.0 < cfg.blocks@.len() by {
            walk_in_reachable(cfg, c);
        }
        if b == root {
            root_dominates(step, root, p);
            dominates_antisymmetric(step, root, p, b);
        }
        let d = immediate_dominator_exists(cfg.blocks@.len(), step, root, b);
        assert(is_parent(tree, d, b));
        parent_is_higher(tree, b.0);
        assert(step(p, b));
        dominates_before(cfg, d, p, b);
        assert(strictly_dominates(step, root, p, b));
        assert(dominates(step, root, p, d));
        dominates_antisymmetric(step, root, d, p);
        assert(BlockRef(d.0) == d && BlockRef(b.0) == b);
    }
}

/// What was made last of the variable on the way over the first `k` edges of a walk: by a
/// phi at the entry of a block, by an instruction, or by whoever called the function.
pub open spec fn made_last(track: &TrackModel, cfg: &Cfg, phis: Seq<Option<usize>>, walk: Seq<BlockRef>, k: nat) -> Origin
    decreases k,
{
    if phis[walk[k as int].0 as int] is Some {
        Origin::Phi(phis[walk[k as int].0 as int]->0)
    } else if k == 0 {
        Origin::Entry
    } else {
        let p = walk[k - 1];
        match last_write(track.writes, cfg.range(p).start.0 as int, cfg.range(p).end_at()) {
            Some(id) => Origin::Def(id),
            None => made_last(track, cfg, phis, walk, (k - 1) as nat),
        }
    }
}

/// A walk through the graph from where the function begins.
pub open spec fn is_run(cfg: &Cfg, walk: Seq<BlockRef>) -> bool {
    is_walk(cfg.step(), walk) && walk.first() == cfg.entry_block
}

/// On every walk from the start of the function to a block where the variable is still
/// read, what arrives at the block is what the walk has made last.
pub proof fn arriving_was_made_last(
    track: &TrackModel,
    cfg: &Cfg,
    graph: &GraphFacts,
    phis: Seq<Option<usize>>,
    walk: Seq<BlockRef>,
)
    requires
        cfg.wf(),
        graph.describes(cfg),
        phis_placed(track, cfg, graph, phis),
        is_run(cfg, walk),
        track.live_in(cfg, walk.last()),
    ensures
        track.arriving(cfg, &graph.dominator_tree.tree, phis, walk.last().0) == made_last(track, cfg, phis, walk, (walk.len() - 1) as nat),
{
    assert(dominance_known(cfg, graph));
    made_last_upto(track, cfg, graph, phis, walk, (walk.len() - 1) as nat);
}

proof fn run_reaches(cfg: &Cfg, walk: Seq<BlockRef>, k: nat)
    requires
        is_run(cfg, walk),
        k < walk.len(),
    ensures
        reaches(cfg.step(), cfg.entry_block, walk[k as int]),
    decreases k,
{
    if k == 0 {
        reaches_self(cfg.step(), cfg.entry_block);
    } else {
        run_reaches(cfg, walk, (k - 1) as nat);
        assert((cfg.step())(walk[k - 1], walk[k - 1 + 1]));
        reaches_then_step(cfg.step(), cfg.entry_block, walk[k - 1], walk[k as int]);
    }
}

proof fn made_last_upto(
    track: &TrackModel,
    cfg: &Cfg,
    graph: &GraphFacts,
    phis: Seq<Option<usize>>,
    walk: Seq<BlockRef>,
    k: nat,
)
    requires
        cfg.wf(),
        dominance_known(cfg, graph),
        phis_placed(track, cfg, graph, phis),
        is_run(cfg, walk),
        k < walk.len(),
        track.live_in(cfg, walk[k as int]),
    ensures
        track.arriving(cfg, &graph.dominator_tree.tree, phis, walk[k as int].0) == made_last(track, cfg, phis, walk, k),
    decreases k,
{
    let tree = &graph.dominator_tree.tree;
    let root = cfg.entry_block;
    let b = walk[k as int];
    reachable_in_range(cfg);
    run_reaches(cfg, walk, k);
    assert(cfg.is_reachable(b));
    assert(BlockRef(b.0) == b);
    if phis[b.0 as int] is None {
        if k == 0 {
            reaches_self(cfg.step(), root);
            walk_in_reachable(cfg, root);
            if tree.parent@[b.0 as int] is Some {
                let d = BlockRef(tree.parent@[b.0 as int]->0);
                assert(is_parent(tree, d, b));
                assert(immediately_dominates(inner(cfg), root, d, b));
                let w = seq![root];
                assert(is_walk(inner(cfg), w));
                assert(w.first() == root && w.last() == b);
                assert(w.contains(d));
                assert(w[0] == d);
            }
        } else {
            let p = walk[k - 1];
            run_reaches(cfg, walk, (k - 1) as nat);
            assert((cfg.step())(walk[k - 1], walk[k - 1 + 1]));
            assert(cfg.links(p, b));
            let e = choose|e: EdgeRef| #[trigger] cfg.has_edge(e) && cfg.edge(e).from == p && cfg.edge(e).to == b;
            value_brought(track, cfg, graph, phis, e);
            assert(BlockRef(p.0) == p);
            if last_write(track.writes, cfg.range(p).start.0 as int, cfg.range(p).end_at()) is None {
                no_last_write(track.writes, cfg.range(p).start.0 as int, cfg.range(p).end_at());
                live_before(track, cfg, p, b);
                made_last_upto(track, cfg, graph, phis, walk, (k - 1) as nat);
            }
        }
    }
}

/// Before a block that hands the variable on, it is still read.
proof fn live_before(track: &TrackModel, cfg: &Cfg, p: BlockRef, b: BlockRef)
    requires
        cfg.links(p, b),
        cfg.is_reachable(p),
        !track.overwritten(cfg, p),
        track.live_in(cfg, b),
    ensures
        track.live_in(cfg, p),
{
    let carried = track.carried(cfg);
    let u = choose|u: usize| u < cfg.blocks@.len() && track.exposed(cfg, BlockRef(u)) && #[trigger] reaches(carried, b.0, u);
    assert(BlockRef(p.0) == p && BlockRef(b.0) == b);
    assert(carried(p.0, b.0));
    reaches_self(carried, p.0);
    reaches_then_step(carried, p.0, p.0, b.0);
    reaches_transitive(carried, p.0, b.0, u);
    assert(reaches(carried, p.0, u));
}

/// Where the variable is still read at the start of a block, what the block itself has made
/// of it before an instruction, or else what has arrived, is what it holds there.
pub proof fn held_was_made_last(
    track: &TrackModel,
    cfg: &Cfg,
    graph: &GraphFacts,
    phis: Seq<Option<usize>>,
    walk: Seq<BlockRef>,
    i: int,
)
    requires
        cfg.wf(),
        graph.describes(cfg),
        phis_placed(track, cfg, graph, phis),
        is_run(cfg, walk),
        track.live_in(cfg, walk.last()),
    ensures
        track.held(cfg, &graph.dominator_tree.tree, phis, walk.last().0, i) == (match last_write(
            track.writes,
            cfg.range(walk.last()).start.0 as int,
            i,
        ) {
            Some(id) => Origin::Def(id),
            None => made_last(track, cfg, phis, walk, (walk.len() - 1) as nat),
        }),
{
    arriving_was_made_last(track, cfg, graph, phis, walk);
    assert(BlockRef(walk.last().0) == walk.last());
}

impl<'a> SsaInput<'a> {
    proof fn site_found(sites: Seq<(BlockRef, Reg)>, b: BlockRef, r: Reg, n: nat)
        requires
            n <= sites.len(),
        ensures
            site_at(sites, b, r, n) is Some <==> exists|q: int| 0 <= q < n && #[trigger] sites[q] == (b, r),
        decreases n,
    {
        if n > 0 {
            Self::site_found(sites, b, r, (n - 1) as nat);
            if sites[n - 1] == (b, r) {
                assert(0 <= n - 1 < n && sites[n - 1] == (b, r));
            }
        }
    }

    proof fn sites_in_are(&self, b: BlockRef, n: nat, acc: Seq<(BlockRef, Reg)>, c: BlockRef, r: Reg)
        requires
            n <= usize::MAX,
        ensures
            self.sites_in(b, n, acc).contains((c, r)) <==> acc.contains((c, r)) || (c == b && r.0 < n && self.track(r).needs_phi(
                self.cfg,
                self.graph,
                b.0,
            )),
        decreases n,
    {
        if n > 0 {
            self.sites_in_are(b, (n - 1) as nat, acc, c, r);
            let rest = self.sites_in(b, (n - 1) as nat, acc);
            let x = Reg((n - 1) as usize);
            let all = self.sites_in(b, n, acc);
            if self.track(x).needs_phi(self.cfg, self.graph, b.0) {
                assert(all == rest.push((b, x)));
                if rest.contains((c, r)) {
                    let q = rest.index_of((c, r));
                    assert(all[q] == (c, r));
                }
                assert(all[rest.len() as int] == (b, x));
                if all.contains((c, r)) {
                    let q = all.index_of((c, r));
                    if q < rest.len() {
                        assert(rest[q] == (c, r));
                    }
                }
            }
        }
    }

    proof fn sites_are(&self, k: nat, c: BlockRef, r: Reg)
        requires
            k <= usize::MAX,
        ensures
            self.sites_upto(k).contains((c, r)) <==> c.0 < k && r.0 < self.reg_count && self.track(r).needs_phi(self.cfg, self.graph, c.0),
        decreases k,
    {
        if k > 0 {
            self.sites_are((k - 1) as nat, c, r);
            let b = BlockRef((k - 1) as usize);
            self.sites_in_are(b, self.reg_count as nat, self.sites_upto((k - 1) as nat), c, r);
        }
    }

    /// The phis of every register stand where it needs them.
    pub proof fn phis_stand_where_needed(&self, r: Reg)
        requires
            r.0 < self.reg_count,
        ensures
            phis_placed(&self.track(r), self.cfg, self.graph, self.phis_for(r)),
    {
        let sites = self.sites();
        let phis = self.phis_for(r);
        assert(self.cfg.blocks.len() <= usize::MAX);
        assert forall|b: int| 0 <= b < phis.len() implies ((#[trigger] phis[b]) is Some <==> self.track(r).needs_phi(
            self.cfg,
            self.graph,
            b as usize,
        )) by {
            let c = BlockRef(b as usize);
            Self::site_found(sites, c, r, sites.len());
            self.sites_are(self.cfg.blocks@.len(), c, r);
            if sites.contains((c, r)) {
                let q = sites.index_of((c, r));
                assert(sites[q] == (c, r));
            }
        }
    }

    /// The value of a register at the entry of a block is, on every walk from the start of
    /// the function, the one that the walk has made last.
    pub proof fn entry_value_was_made_last(&self, walk: Seq<BlockRef>, r: Reg)
        requires
            self.cfg.wf(),
            self.graph.describes(self.cfg),
            r.0 < self.reg_count,
            is_run(self.cfg, walk),
            self.track(r).live_in(self.cfg, walk.last()),
        ensures
            self.entry_value(walk.last(), r) == value_from(
                made_last(&self.track(r), self.cfg, self.phis_for(r), walk, (walk.len() - 1) as nat),
                r,
            ),
    {
        self.phis_stand_where_needed(r);
        arriving_was_made_last(&self.track(r), self.cfg, self.graph, self.phis_for(r), walk);
    }

    /// Over every edge into a block, the value of a register that is still read there
    /// either flows into its phi or is the value at the entry of the block.
    pub proof fn edges_keep_values(&self, e: EdgeRef, r: Reg)
        requires
            self.cfg.wf(),
            self.graph.describes(self.cfg),
            r.0 < self.reg_count,
            self.cfg.has_edge(e),
            self.cfg.is_reachable(self.cfg.edge(e).from),
            self.track(r).live_in(self.cfg, self.cfg.edge(e).to),
        ensures
            ({
                let b = self.cfg.edge(e).to;
                match self.phis_for(r)[b.0 as int] {
                    Some(p) => self.entry_value(b, r) == SsaValue::Phi(PhiId(p)) && exists|j: int|
                        0 <= j < self.incoming_upto(b, r, self.cfg.in_edges(b).len()).len() && (#[trigger] self.incoming_upto(
                            b,
                            r,
                            self.cfg.in_edges(b).len(),
                        )[j]).edge == Some(e) && self.incoming_upto(b, r, self.cfg.in_edges(b).len())[j].value == self.exit_value(
                            self.cfg.edge(e).from,
                            r,
                        ),
                    None => self.entry_value(b, r) == self.exit_value(self.cfg.edge(e).from, r),
                }
            }),
    {
        let b = self.cfg.edge(e).to;
        self.phis_stand_where_needed(r);
        assert(self.cfg.has_block(b));
        if self.phis_for(r)[b.0 as int] is Some {
            assert(self.cfg.in_edges(b).contains(e));
            let k = self.cfg.in_edges(b).index_of(e);
            self.incoming_found(b, r, k, self.cfg.in_edges(b).len());
        } else {
            every_way_brings_the_value(&self.track(r), self.cfg, self.graph, self.phis_for(r), e);
        }
    }

    proof fn site_stands(sites: Seq<(BlockRef, Reg)>, b: BlockRef, r: Reg, n: nat)
        requires
            n <= sites.len() <= usize::MAX,
        ensures
            match site_at(sites, b, r, n) {
                Some(p) => p < n && sites[p as int] == (b, r),
                None => true,
            },
        decreases n,
    {
        if n > 0 {
            Self::site_stands(sites, b, r, (n - 1) as nat);
        }
    }

    /// The finished phi `q` takes the value `w` over edge `e` and makes `v` of it.
    pub open spec fn phi_takes(
        phis: Seq<PhiCandidate>,
        q: int,
        j: int,
        b: BlockRef,
        r: Reg,
        e: EdgeRef,
        v: SsaValue,
        w: SsaValue,
    ) -> bool {
        &&& 0 <= q < phis.len()
        &&& phis[q].block == b
        &&& phis[q].reg == r
        &&& v == SsaValue::Phi(phis[q].id)
        &&& 0 <= j < phis[q].incoming@.len()
        &&& phis[q].incoming@[j].edge == Some(e)
        &&& phis[q].incoming@[j].value == w
    }

    /// The same of the finished values, in which phis with one value have been dissolved:
    /// over every edge into a block, the value of a register that is still read there is the
    /// value at the entry of the block, or flows into the phi that makes it.
    pub proof fn finished_edges_keep_values(&self, facts: &SsaAnalysis, e: EdgeRef, r: Reg)
        requires
            self.cfg.wf(),
            self.graph.describes(self.cfg),
            facts.describes(self),
            self.sites().len() <= usize::MAX,
            r.0 < self.reg_count,
            self.cfg.has_edge(e),
            self.cfg.is_reachable(self.cfg.edge(e).from),
            self.track(r).live_in(self.cfg, self.cfg.edge(e).to),
        ensures
            ({
                let b = self.cfg.edge(e).to;
                let v = self.named(self.entry_value(b, r));
                let w = self.named(self.exit_value(self.cfg.edge(e).from, r));
                v == w || exists|q: int, j: int| #[trigger] Self::phi_takes(facts.phis@, q, j, b, r, e, v, w)
            }),
    {
        let b = self.cfg.edge(e).to;
        let v = self.named(self.entry_value(b, r));
        let w = self.named(self.exit_value(self.cfg.edge(e).from, r));
        self.edges_keep_values(e, r);
        if let Some(p) = self.phis_for(r)[b.0 as int] {
            let sites = self.sites();
            let rep = self.standing();
            let n = self.cfg.in_edges(b).len();
            assert(BlockRef(b.0) == b);
            Self::site_stands(sites, b, r, sites.len());
            replacements_are_sound(self.flows());
            let j = choose|j: int|
                0 <= j < self.incoming_upto(b, r, n).len() && (#[trigger] self.incoming_upto(b, r, n)[j]).edge == Some(e)
                    && self.incoming_upto(b, r, n)[j].value == self.exit_value(self.cfg.edge(e).from, r);
            assert(self.incoming_of(p as int) == self.incoming_upto(b, r, n));
            let at = p as int;
            if is_kept(rep)(at) {
                let q = count_where(p as nat, is_kept(rep)) as int;
                count_where_monotone((p + 1) as nat, sites.len(), is_kept(rep));
                assert(facts.holds_phi(self, at));
                assert(facts.phis@[q].incoming@ == self.named_incoming(at));
                assert(self.named_incoming(at)[j].edge == Some(e));
                assert(Self::phi_takes(facts.phis@, q, j, b, r, e, v, w));
            } else {
                assert(agrees(self.flows(), rep, at));
                assert(operand(self.flows(), rep, at, j) == rep[at]);
            }
        }
    }

    proof fn incoming_found(&self, b: BlockRef, r: Reg, k: int, n: nat)
        requires
            0 <= k < n <= self.cfg.in_edges(b).len(),
            self.cfg.is_reachable(self.cfg.edge(self.cfg.in_edges(b)[k]).from),
        ensures
            exists|j: int|
                0 <= j < self.incoming_upto(b, r, n).len() && (#[trigger] self.incoming_upto(b, r, n)[j]).edge == Some(
                    self.cfg.in_edges(b)[k],
                ) && self.incoming_upto(b, r, n)[j].value == self.exit_value(self.cfg.edge(self.cfg.in_edges(b)[k]).from, r),
        decreases n,
    {
        let all = self.incoming_upto(b, r, n);
        let rest = self.incoming_upto(b, r, (n - 1) as nat);
        if k == n - 1 {
            assert(all[rest.len() as int].edge == Some(self.cfg.in_edges(b)[k]));
        } else {
            self.incoming_found(b, r, k, (n - 1) as nat);
            let j = choose|j: int|
                0 <= j < rest.len() && (#[trigger] rest[j]).edge == Some(self.cfg.in_edges(b)[k]) && rest[j].value == self.exit_value(
                    self.cfg.edge(self.cfg.in_edges(b)[k]).from,
                    r,
                );
            assert(all[j] == rest[j]);
        }
    }
}

} // verus!
