//! What the facts of a graph say of its paths.

use vstd::prelude::*;

use crate::cfg::Cfg;
use crate::dominance::dominates;
use crate::evidence::IrreducibleRegion;
use crate::flood::{floods_to, reachable_closed, reachable_in_range, step_in};
use crate::graph::{
    dominance_by_paths, in_frontier, is_component_list, is_natural_loop, loop_body, on_cycle, same_component, sources,
    walk_in_reachable, GraphFacts,
};
use crate::helpers::{comes_from, enters_region, has_region, irreducible_regions, is_irreducible, is_region_of, multi_entry};
use crate::ids::{BlockRef, EdgeRef};
use crate::walk::{
    closed_set_holds_reachable, is_walk, reaches, reaches_first_step, reaches_self, reaches_then_step, reaches_transitive,
    Step,
};

verus! {

/// The steps between reachable blocks.
pub open spec fn way(cfg: &Cfg) -> Step {
    step_in(cfg, cfg.reachable_blocks@, false)
}

/// A block lies in the dominance frontier of another just when some edge leads to it from a
/// reachable block to which every path passes that other, while not every path to it does,
/// or it is that other itself.
pub proof fn frontiers_by_paths(f: &GraphFacts, cfg: &Cfg, x: BlockRef, y: BlockRef)
    requires
        cfg.wf(),
        f.describes(cfg),
        cfg.has_block(x),
    ensures
        f.frontier_has(x, y) <==> exists|e: EdgeRef| {
            &&& #[trigger] cfg.has_edge(e) && cfg.edge(e).to == y
            &&& cfg.reachable_blocks@.contains(cfg.edge(e).from)
            &&& x == cfg.edge(e).from || dominates(way(cfg), cfg.entry_block, x, cfg.edge(e).from)
            &&& x == y || !dominates(way(cfg), cfg.entry_block, x, y)
        },
{
    assert(f.frontier_has(x, y) <==> in_frontier(cfg, &f.dominator_tree, x, y));
    dominance_by_paths(f, cfg, x, y);
    if in_frontier(cfg, &f.dominator_tree, x, y) {
        let e = choose|e: EdgeRef| #[trigger]
            cfg.has_edge(e) && cfg.edge(e).to == y && cfg.is_reachable(cfg.edge(e).from) && f.dominator_tree.dominated(
                x,
                cfg.edge(e).from,
            ) && !(x != y && f.dominator_tree.dominated(x, y));
        dominance_by_paths(f, cfg, x, cfg.edge(e).from);
        assert(cfg.has_edge(e));
    }
    if exists|e: EdgeRef| {
        &&& #[trigger] cfg.has_edge(e) && cfg.edge(e).to == y
        &&& cfg.reachable_blocks@.contains(cfg.edge(e).from)
        &&& x == cfg.edge(e).from || dominates(way(cfg), cfg.entry_block, x, cfg.edge(e).from)
        &&& x == y || !dominates(way(cfg), cfg.entry_block, x, y)
    } {
        let e = choose|e: EdgeRef| {
            &&& #[trigger] cfg.has_edge(e) && cfg.edge(e).to == y
            &&& cfg.reachable_blocks@.contains(cfg.edge(e).from)
            &&& x == cfg.edge(e).from || dominates(way(cfg), cfg.entry_block, x, cfg.edge(e).from)
            &&& x == y || !dominates(way(cfg), cfg.entry_block, x, y)
        };
        dominance_by_paths(f, cfg, x, cfg.edge(e).from);
        assert(in_frontier(cfg, &f.dominator_tree, x, y));
    }
}

/// The back edges are the edges between reachable blocks whose target is passed on every path
/// to their source.
pub proof fn backedges_by_paths(f: &GraphFacts, cfg: &Cfg, e: EdgeRef)
    requires
        cfg.wf(),
        f.describes(cfg),
    ensures
        f.backedges@.contains(e) <==> cfg.has_edge(e) && cfg.reachable_blocks@.contains(cfg.edge(e).from)
            && cfg.reachable_blocks@.contains(cfg.edge(e).to) && (cfg.edge(e).to == cfg.edge(e).from || dominates(
            way(cfg),
            cfg.entry_block,
            cfg.edge(e).to,
            cfg.edge(e).from,
        )),
{
    dominance_by_paths(f, cfg, cfg.edge(e).to, cfg.edge(e).from);
}

/// What every path to a block passes it also passes on the way to that block's predecessors,
/// unless it is the block itself.
proof fn predecessors_are_dominated(cfg: &Cfg, d: BlockRef, x: BlockRef, y: BlockRef)
    requires
        cfg.wf(),
        dominates(way(cfg), cfg.entry_block, d, x),
        d != x,
        way(cfg)(y, x),
    ensures
        dominates(way(cfg), cfg.entry_block, d, y),
{
    let step = way(cfg);
    walk_in_reachable(cfg, y);
    assert forall|p: Seq<BlockRef>| #[trigger]
        is_walk(step, p) && p.first() == cfg.entry_block && p.last() == y implies p.contains(d) by {
        let q = p.push(x);
        assert forall|i: int| 0 <= i < q.len() - 1 implies step(#[trigger] q[i], q[i + 1]) by {
            if i < p.len() - 1 {
                assert(q[i] == p[i] && q[i + 1] == p[i + 1]);
            }
        }
        assert(is_walk(step, q));
        assert(q.contains(d));
        let j = choose|j: int| 0 <= j < q.len() && q[j] == d;
        assert(p[j] == d);
    }
}

/// Every path to a block of a natural loop passes the loop's header.
pub proof fn headers_dominate_their_loop(f: &GraphFacts, cfg: &Cfg, i: int, b: BlockRef)
    requires
        cfg.wf(),
        f.describes(cfg),
        0 <= i < f.natural_loops@.len(),
        f.natural_loops@[i].blocks@.contains(b),
    ensures
        b == f.natural_loops@[i].header || dominates(way(cfg), cfg.entry_block, f.natural_loops@[i].header, b),
{
    let l = &f.natural_loops@[i];
    let h = l.header;
    if b != h {
        let region = cfg.reachable_blocks@.remove(h);
        let back = step_in(cfg, region, true);
        let from = sources(cfg, l.backedges@);
        let k = choose|k: int|
            0 <= k < from.len() && region.contains(#[trigger] from[k]) && reaches(back, from[k], b);
        let e = l.backedges@[k];
        assert(l.backedges@.contains(e));
        dominance_by_paths(f, cfg, h, from[k]);
        let s = Set::new(|x: BlockRef| x != h && dominates(way(cfg), cfg.entry_block, h, x));
        assert forall|x: BlockRef, y: BlockRef| s.contains(x) && #[trigger] back(x, y) implies s.contains(y) by {
            assert(way(cfg)(y, x));
            predecessors_are_dominated(cfg, h, x, y);
        }
        closed_set_holds_reachable(back, s, from[k], b);
    }
}

/// A block from which the source of a back edge is reached without the header.
proof fn sources_are_reached_backward(cfg: &Cfg, h: BlockRef, edges: Seq<EdgeRef>, k: int, x: BlockRef, y: BlockRef)
    requires
        0 <= k < edges.len(),
        cfg.reachable_blocks@.remove(h).contains(sources(cfg, edges)[k]),
        reaches(step_in(cfg, cfg.reachable_blocks@.remove(h), true), sources(cfg, edges)[k], x),
        step_in(cfg, cfg.reachable_blocks@.remove(h), true)(x, y),
    ensures
        loop_body(cfg, h, edges).contains(y),
{
    let region = cfg.reachable_blocks@.remove(h);
    reaches_then_step(step_in(cfg, region, true), sources(cfg, edges)[k], x, y);
    assert(floods_to(cfg, sources(cfg, edges), region, true, y));
}

/// A natural loop leaves out no reachable predecessor of its blocks but those that enter it
/// at its header, and it holds the sources of its back edges.
pub proof fn natural_loops_are_closed_backward(f: &GraphFacts, cfg: &Cfg, i: int, e: EdgeRef)
    requires
        cfg.wf(),
        f.describes(cfg),
        0 <= i < f.natural_loops@.len(),
        cfg.has_edge(e),
        cfg.reachable_blocks@.contains(cfg.edge(e).from),
        f.natural_loops@[i].blocks@.contains(cfg.edge(e).to),
        cfg.edge(e).to == f.natural_loops@[i].header ==> f.natural_loops@[i].backedges@.contains(e),
    ensures
        f.natural_loops@[i].blocks@.contains(cfg.edge(e).from),
{
    let l = &f.natural_loops@[i];
    let h = l.header;
    let (x, y) = (cfg.edge(e).to, cfg.edge(e).from);
    let region = cfg.reachable_blocks@.remove(h);
    let back = step_in(cfg, region, true);
    let from = sources(cfg, l.backedges@);
    assert(is_natural_loop(cfg, &f.dominator_tree, l));
    if y != h && x == h {
        let k = choose|k: int| 0 <= k < l.backedges@.len() && l.backedges@[k] == e;
        assert(from[k] == y);
        reaches_self(back, y);
        assert(floods_to(cfg, from, region, true, y));
    } else if y != h {
        let k = choose|k: int|
            0 <= k < from.len() && region.contains(#[trigger] from[k]) && reaches(back, from[k], x);
        reachable_closed(cfg, y, x);
        assert(cfg.links(y, x));
        assert(back(x, y));
        sources_are_reached_backward(cfg, h, l.backedges@, k, x, y);
    }
}

/// The members of a component are the blocks that reach each other.
proof fn members_reach_each_other(cfg: &Cfg, c: Seq<BlockRef>)
    requires
        forall|x: BlockRef| #[trigger] c.contains(x) <==> same_component(cfg, c[0], x),
    ensures
        forall|x: BlockRef, y: BlockRef| #[trigger]
            c.contains(x) && #[trigger] c.contains(y) ==> reaches(way(cfg), x, y),
        forall|x: BlockRef, y: BlockRef|
            c.contains(x) && cfg.reachable_blocks@.contains(y) && #[trigger] reaches(way(cfg), x, y) && reaches(
                way(cfg),
                y,
                x,
            ) ==> c.contains(y),
{
    assert forall|x: BlockRef, y: BlockRef| #[trigger] c.contains(x) && #[trigger] c.contains(y) implies reaches(
        way(cfg),
        x,
        y,
    ) by {
        reaches_transitive(way(cfg), x, c[0], y);
    }
    assert forall|x: BlockRef, y: BlockRef|
        c.contains(x) && cfg.reachable_blocks@.contains(y) && #[trigger] reaches(way(cfg), x, y) && reaches(
            way(cfg),
            y,
            x,
        ) implies c.contains(y) by {
        reaches_transitive(way(cfg), c[0], x, y);
        reaches_transitive(way(cfg), y, x, c[0]);
    }
}

/// `e` leads into the blocks from a reachable block that is none of them.
pub open spec fn leads_into(cfg: &Cfg, blocks: Set<BlockRef>, e: EdgeRef) -> bool {
    &&& cfg.has_edge(e)
    &&& blocks.contains(cfg.edge(e).to)
    &&& !blocks.contains(cfg.edge(e).from)
    &&& cfg.reachable_blocks@.contains(cfg.edge(e).from)
}

/// The blocks of an irreducible part are a largest set of blocks that reach each other.
/// Its entry edges are the edges that lead into it, and two of them lead to different blocks.
pub proof fn irreducible_parts_have_two_entries(
    f: &GraphFacts,
    cfg: &Cfg,
    regions: Seq<IrreducibleRegion>,
    i: int,
)
    requires
        cfg.wf(),
        f.describes(cfg),
        irreducible_regions(cfg, f, regions),
        0 <= i < regions.len(),
    ensures
        forall|x: BlockRef, y: BlockRef| #[trigger]
            regions[i].blocks@.contains(x) && #[trigger] regions[i].blocks@.contains(y) ==> reaches(way(cfg), x, y),
        forall|x: BlockRef, y: BlockRef|
            regions[i].blocks@.contains(x) && cfg.reachable_blocks@.contains(y) && #[trigger] reaches(way(cfg), x, y)
                && reaches(way(cfg), y, x) ==> regions[i].blocks@.contains(y),
        forall|e: EdgeRef| #[trigger] regions[i].entry_edges@.contains(e) <==> leads_into(cfg, regions[i].blocks@, e),
        exists|d: EdgeRef, e: EdgeRef| #[trigger]
            leads_into(cfg, regions[i].blocks@, d) && #[trigger] leads_into(cfg, regions[i].blocks@, e) && cfg.edge(
                d,
            ).to != cfg.edge(e).to,
{
    let list = f.strongly_connected_components@;
    assert(is_component_list(cfg, f.rpo@, list));
    assert(comes_from(cfg, f, list, &regions[i]));
    let k = choose|k: int|
        0 <= k < list.len() && is_irreducible(cfg, f, (#[trigger] list[k])@) && is_region_of(cfg, list[k]@, &regions[i]);
    members_reach_each_other(cfg, list[k]@);
    parts_are_their_component(cfg, f, list[k]@, &regions[i]);
}

proof fn parts_are_their_component(cfg: &Cfg, f: &GraphFacts, c: Seq<BlockRef>, r: &IrreducibleRegion)
    requires
        is_irreducible(cfg, f, c),
        is_region_of(cfg, c, r),
    ensures
        forall|x: BlockRef| #[trigger] r.blocks@.contains(x) <==> c.contains(x),
        forall|e: EdgeRef| #[trigger] r.entry_edges@.contains(e) <==> leads_into(cfg, r.blocks@, e),
        exists|d: EdgeRef, e: EdgeRef| #[trigger]
            leads_into(cfg, r.blocks@, d) && #[trigger] leads_into(cfg, r.blocks@, e) && cfg.edge(d).to != cfg.edge(e).to,
{
    let (d, e) = choose|d: EdgeRef, e: EdgeRef|
        #[trigger] enters_region(cfg, c.to_set(), d) && #[trigger] enters_region(cfg, c.to_set(), e) && cfg.edge(d).to
            != cfg.edge(e).to;
    assert(leads_into(cfg, r.blocks@, d) && leads_into(cfg, r.blocks@, e));
}

/// Two blocks reach each other.
pub open spec fn go_round(cfg: &Cfg, x: BlockRef, y: BlockRef) -> bool {
    reaches(way(cfg), x, y) && reaches(way(cfg), y, x)
}

/// Where two edges lead to different blocks that reach each other, from reachable blocks that
/// these do not reach back, an irreducible part holds both blocks.
pub proof fn two_entries_make_an_irreducible_part(
    f: &GraphFacts,
    cfg: &Cfg,
    regions: Seq<IrreducibleRegion>,
    d: EdgeRef,
    e: EdgeRef,
)
    requires
        cfg.wf(),
        f.describes(cfg),
        irreducible_regions(cfg, f, regions),
        cfg.has_edge(d) && cfg.has_edge(e),
        cfg.reachable_blocks@.contains(cfg.edge(d).from) && cfg.reachable_blocks@.contains(cfg.edge(e).from),
        cfg.edge(d).to != cfg.edge(e).to && go_round(cfg, cfg.edge(d).to, cfg.edge(e).to),
        !go_round(cfg, cfg.edge(d).to, cfg.edge(d).from) && !go_round(cfg, cfg.edge(e).to, cfg.edge(e).from),
    ensures
        exists|i: int|
            0 <= i < regions.len() && #[trigger] regions[i].blocks@.contains(cfg.edge(d).to)
                && regions[i].blocks@.contains(cfg.edge(e).to),
{
    let (x, y) = (cfg.edge(d).to, cfg.edge(e).to);
    assert(cfg.links(cfg.edge(d).from, x) && cfg.links(cfg.edge(e).from, y));
    reachable_closed(cfg, cfg.edge(d).from, x);
    reachable_closed(cfg, cfg.edge(e).from, y);
    let k = component_of(f, cfg, x);
    let c = f.strongly_connected_components@[k]@;
    entered_twice(cfg, c, d, e);
    reachable_in_range(cfg);
    cyclic_blocks_are_marked(f, cfg, c[0]);
    assert(is_irreducible(cfg, f, c));
    assert(has_region(cfg, regions, c));
    let i = choose|i: int| 0 <= i < regions.len() && is_region_of(cfg, c, &(#[trigger] regions[i]));
    assert(regions[i].blocks@.contains(x) && regions[i].blocks@.contains(y));
}

proof fn component_of(f: &GraphFacts, cfg: &Cfg, x: BlockRef) -> (k: int)
    requires
        f.describes(cfg),
        cfg.reachable_blocks@.contains(x),
    ensures
        0 <= k < f.strongly_connected_components@.len(),
        f.strongly_connected_components@[k]@.contains(x),
        f.strongly_connected_components@[k]@.len() > 0,
        forall|y: BlockRef| #[trigger]
            f.strongly_connected_components@[k]@.contains(y) <==> same_component(
                cfg,
                f.strongly_connected_components@[k]@[0],
                y,
            ),
{
    let list = f.strongly_connected_components@;
    assert(is_component_list(cfg, f.rpo@, list));
    assert(cfg.is_reachable(x));
    choose|k: int| 0 <= k < list.len() && (#[trigger] list[k])@.contains(x)
}

proof fn cyclic_blocks_are_marked(f: &GraphFacts, cfg: &Cfg, b: BlockRef)
    requires
        f.describes(cfg),
        cfg.has_block(b),
        on_cycle(cfg, b),
    ensures
        f.cyclic(b),
{
}

/// A component that two edges enter at different blocks lies on a cycle.
proof fn entered_twice(cfg: &Cfg, c: Seq<BlockRef>, d: EdgeRef, e: EdgeRef)
    requires
        c.len() > 0,
        forall|x: BlockRef| #[trigger] c.contains(x) <==> same_component(cfg, c[0], x),
        cfg.has_edge(d) && cfg.has_edge(e),
        c.contains(cfg.edge(d).to),
        cfg.reachable_blocks@.contains(cfg.edge(e).to),
        cfg.reachable_blocks@.contains(cfg.edge(d).from) && cfg.reachable_blocks@.contains(cfg.edge(e).from),
        cfg.edge(d).to != cfg.edge(e).to && go_round(cfg, cfg.edge(d).to, cfg.edge(e).to),
        !go_round(cfg, cfg.edge(d).to, cfg.edge(d).from) && !go_round(cfg, cfg.edge(e).to, cfg.edge(e).from),
    ensures
        c.contains(cfg.edge(e).to),
        on_cycle(cfg, c[0]),
        multi_entry(cfg, c.to_set()),
{
    let (x, y) = (cfg.edge(d).to, cfg.edge(e).to);
    members_reach_each_other(cfg, c);
    assert(c.contains(y));
    let z = if c[0] == x { y } else { x };
    assert(c.contains(c[0]));
    let n = reaches_first_step(way(cfg), c[0], z);
    reaches_transitive(way(cfg), n, z, c[0]);
    assert(enters_region(cfg, c.to_set(), d));
    assert(enters_region(cfg, c.to_set(), e));
}

} // verus!
