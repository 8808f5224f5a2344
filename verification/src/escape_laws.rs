//! How the arms of branches leave a loop or an iteration, and what the regions of branches span.

use vstd::prelude::*;

use crate::branch_regions::{merging_upto, spans_branch};
use crate::branches::{
    breaks_at, continues_at, exits_to, for_body_entry, for_exit_owner, is_soft_merge, joint, jump_pad, leads_into,
    scope_size,
};
use crate::cfg::{Cfg, EdgeKind};
use crate::dominance::dominates;
use crate::evidence::{BranchCandidate, BranchRegionFact, LoopCandidate, LoopKindHint, SinglePassFenceFact};
use crate::graph::GraphFacts;
use crate::graph_laws::{frontiers_by_paths, way};
use crate::ids::{BlockRef, EdgeRef};
use crate::lir::LoweredProto;
use crate::refine::{branch_at, headed_by};
use crate::search::{first_where, first_where_least, least_where, least_where_least, only_where, only_where_alone};

verus! {

/// Edge `e` leads from `b` to `t`, and is the only way on from `b`.
pub open spec fn goes_only_to(cfg: &Cfg, b: BlockRef, t: BlockRef, e: EdgeRef) -> bool {
    &&& cfg.has_edge(e)
    &&& cfg.edge(e).from == b
    &&& cfg.edge(e).to == t
    &&& forall|other: EdgeRef| #[trigger] cfg.has_edge(other) && cfg.edge(other).from == b ==> other == e
}

/// A block that counts as a mere jump has one instruction, and its only way on is a jump to
/// the block that is named.
pub proof fn jump_pads_only_jump(cfg: &Cfg, b: BlockRef)
    requires
        cfg.adjacency_wf(),
        cfg.has_block(b),
    ensures
        match jump_pad(cfg, b) {
            Some(t) => cfg.range(b).len == 1 && exists|e: EdgeRef| #[trigger]
                goes_only_to(cfg, b, t, e) && cfg.edge(e).kind == EdgeKind::Jump,
            None => true,
        },
{
    if let Some(t) = jump_pad(cfg, b) {
        let e = cfg.out_edges(b)[0];
        assert forall|other: EdgeRef| #[trigger] cfg.has_edge(other) && cfg.edge(other).from == b implies other == e by {
            let k = choose|k: int| 0 <= k < cfg.out_edges(b).len() && cfg.out_edges(b)[k] == other;
        }
        assert(goes_only_to(cfg, b, t, e));
    }
}

/// An entry at which a loop breaks plays no other part in the loop, and is an exit of the loop
/// or leads to one and nowhere else. Every exit without another part is such an entry.
pub proof fn breaks_lead_out(cfg: &Cfg, c: &LoopCandidate, entry: BlockRef)
    requires
        cfg.adjacency_wf(),
        cfg.has_block(entry),
    ensures
        breaks_at(cfg, c, entry) ==> {
            &&& c.continue_target != Some(entry) && c.condition_header != Some(entry)
            &&& !c.control_blocks@.contains(entry)
            &&& c.exits@.contains(entry) || exists|e: EdgeRef|
                c.exits@.contains(cfg.edge(e).to) && #[trigger] goes_only_to(cfg, entry, cfg.edge(e).to, e)
        },
        c.exits@.contains(entry) && c.continue_target != Some(entry) && c.condition_header != Some(entry)
            && !c.control_blocks@.contains(entry) ==> breaks_at(cfg, c, entry),
{
    if breaks_at(cfg, c, entry) && !c.exits@.contains(entry) {
        let e = cfg.out_edges(entry)[0];
        assert forall|other: EdgeRef| #[trigger] cfg.has_edge(other) && cfg.edge(other).from == entry implies other
            == e by {
            let k = choose|k: int| 0 <= k < cfg.out_edges(entry).len() && cfg.out_edges(entry)[k] == other;
        }
        assert(goes_only_to(cfg, entry, cfg.edge(e).to, e));
    }
}

/// An entry that ends the iteration is where the loop goes on, or holds nothing but the jump
/// of a back edge to the header. In a `while` or generic `for` loop every way to where the
/// loop goes on ends the iteration.
pub proof fn iterations_end_where_the_loop_goes_on(
    proto: &LoweredProto,
    cfg: &Cfg,
    c: &LoopCandidate,
    entry: BlockRef,
)
    requires
        cfg.adjacency_wf(),
        c.wf(cfg),
        cfg.has_block(entry),
    ensures
        continues_at(proto, cfg, c, entry) && c.continue_target != Some(entry) ==> cfg.range(entry).len == 1
            && exists|e: EdgeRef|
            c.backedges@.contains(e) && cfg.edge(e).kind == EdgeKind::Jump && #[trigger] goes_only_to(
                cfg,
                entry,
                c.header,
                e,
            ),
        c.continue_target == Some(entry) && (c.kind_hint == LoopKindHint::WhileLike || c.kind_hint
            == LoopKindHint::GenericForLike) ==> continues_at(proto, cfg, c, entry),
        c.continue_target == Some(entry) && cfg.range(entry).len == 1 && cfg.terminator_of(proto.instrs@, entry) is Some
            && (cfg.terminator_of(proto.instrs@, entry)->0).ends_control() ==> continues_at(proto, cfg, c, entry),
{
    if continues_at(proto, cfg, c, entry) && c.continue_target != Some(entry) {
        let i = choose|i: int|
            0 <= i < c.backedges@.len() && cfg.edge(#[trigger] c.backedges@[i]).from == entry && cfg.edge(c.backedges@[i]).to
                == c.header && jump_pad(cfg, entry) == Some(c.header);
        jump_pads_only_jump(cfg, entry);
        let e = choose|e: EdgeRef| #[trigger]
            goes_only_to(cfg, entry, c.header, e) && cfg.edge(e).kind == EdgeKind::Jump;
        let b = c.backedges@[i];
        assert(cfg.has_edge(b));
        assert(c.backedges@.contains(b));
    }
}

/// A loop is left at a block that is one of its exits, or to which alone all of its exits lead.
pub proof fn loops_end_at_their_boundary(cfg: &Cfg, c: &LoopCandidate, b: BlockRef)
    requires
        exits_to(cfg, c, b),
        !c.exits@.contains(b),
    ensures
        exists|x: BlockRef| #[trigger] c.exits@.contains(x),
        forall|x: BlockRef, y: BlockRef|
            #![trigger c.exits@.contains(x), cfg.leads_to(x, y)]
            c.exits@.contains(x) && cfg.reachable_blocks@.contains(y) && cfg.leads_to(x, y) ==> y == b,
        forall|x: BlockRef| #[trigger] c.exits@.contains(x) ==> cfg.leads_to(x, b) && cfg.reachable_blocks@.contains(b),
{
    assert(exists|x: BlockRef| #[trigger] c.exits@.contains(x)) by {
        if forall|x: BlockRef| !#[trigger] c.exits@.contains(x) {
            assert(c.exits@ =~= Set::<BlockRef>::empty());
        }
    }
    assert forall|x: BlockRef| #[trigger] c.exits@.contains(x) implies cfg.successors_of(x)
        == Set::<BlockRef>::empty().insert(b) by {
        assert(cfg.unique_successor(x) == Some(b));
    }
    assert forall|x: BlockRef, y: BlockRef|
        #![trigger c.exits@.contains(x), cfg.leads_to(x, y)]
        c.exits@.contains(x) && cfg.reachable_blocks@.contains(y) && cfg.leads_to(x, y) implies y == b by {
        assert(cfg.successors_of(x).contains(y));
    }
    assert forall|x: BlockRef| #[trigger] c.exits@.contains(x) implies cfg.leads_to(x, b)
        && cfg.reachable_blocks@.contains(b) by {
        assert(cfg.successors_of(x).contains(b));
    }
}

/// The body of a numeric `for` loop starts at its header; that of a generic one at the only
/// successor of the header within the loop; no other loop has such an entry.
pub proof fn for_bodies_start_inside(cfg: &Cfg, c: &LoopCandidate)
    requires
        cfg.adjacency_wf(),
        cfg.has_block(c.header),
    ensures
        match (for_body_entry(cfg, c), c.kind_hint) {
            (Some(b), LoopKindHint::NumericForLike) => b == c.header,
            (Some(b), LoopKindHint::GenericForLike) => c.blocks@.contains(b) && (exists|e: EdgeRef| #[trigger]
                cfg.has_edge(e) && cfg.edge(e).from == c.header && cfg.edge(e).to == b) && forall|e: EdgeRef| #[trigger]
                cfg.has_edge(e) && cfg.edge(e).from == c.header && c.blocks@.contains(cfg.edge(e).to) ==> cfg.edge(e).to
                    == b,
            (Some(_), _) => false,
            (None, kind) => kind != LoopKindHint::NumericForLike,
        },
{
    if c.kind_hint == LoopKindHint::GenericForLike {
        if let Some(b) = for_body_entry(cfg, c) {
            let out = cfg.out_edges(c.header);
            let p = leads_into(cfg, c.header, c.blocks@);
            let k = only_where(out.len(), p)->0;
            only_where_alone(out.len(), p, k);
            assert(p(k));
            assert(cfg.has_edge(out[k]) && cfg.edge(out[k]).from == c.header);
            assert forall|e: EdgeRef| #[trigger]
                cfg.has_edge(e) && cfg.edge(e).from == c.header && c.blocks@.contains(cfg.edge(e).to) implies cfg.edge(
                e,
            ).to == b by {
                let j = choose|j: int| 0 <= j < out.len() && out[j] == e;
                assert(p(j));
            }
        }
    }
}

/// The `for` loop that a branch leaves holds the whole branch, is left at the boundary, and is
/// the smallest such loop.
pub proof fn exit_owners_are_innermost(
    cfg: &Cfg,
    loops: Seq<LoopCandidate>,
    header: BlockRef,
    then_entry: BlockRef,
    else_entry: BlockRef,
    boundary: BlockRef,
    k: int,
    other: int,
)
    requires
        least_where(
            loops.len(),
            for_exit_owner(cfg, loops, header, then_entry, else_entry, boundary),
            scope_size(loops),
        ) == Some(k),
        0 <= other < loops.len(),
    ensures
        0 <= k < loops.len(),
        loops[k].kind_hint == LoopKindHint::NumericForLike || loops[k].kind_hint == LoopKindHint::GenericForLike,
        loops[k].body_scope_blocks@.contains(header),
        loops[k].body_scope_blocks@.contains(then_entry) && loops[k].body_scope_blocks@.contains(else_entry),
        exits_to(cfg, &loops[k], boundary),
        (loops[other].kind_hint == LoopKindHint::NumericForLike || loops[other].kind_hint == LoopKindHint::GenericForLike)
            && loops[other].body_scope_blocks@.contains(header) && loops[other].body_scope_blocks@.contains(then_entry)
            && loops[other].body_scope_blocks@.contains(else_entry) && loops[other].exits@.contains(boundary)
            ==> loops[k].body_scope_blocks@.len() <= loops[other].body_scope_blocks@.len(),
{
    let p = for_exit_owner(cfg, loops, header, then_entry, else_entry, boundary);
    least_where_least(loops.len(), p, scope_size(loops));
    assert(p(k));
    if loops[other].exits@.contains(boundary) {
        assert(p(other) ==> scope_size(loops)(k) <= scope_size(loops)(other));
    }
}

/// An edge leads to `b` from below `a`, while `b` itself does not lie below `a`.
pub open spec fn runs_into(cfg: &Cfg, a: BlockRef, b: BlockRef, e: EdgeRef) -> bool {
    &&& cfg.has_edge(e) && cfg.edge(e).to == b
    &&& cfg.reachable_blocks@.contains(cfg.edge(e).from)
    &&& a == cfg.edge(e).from || dominates(way(cfg), cfg.entry_block, a, cfg.edge(e).from)
    &&& a == b || !dominates(way(cfg), cfg.entry_block, a, b)
}

/// The block at which two arms are taken to meet is no exit of the function, and an edge from
/// below each of the arms leads to it.
pub proof fn soft_merges_join_both_arms(
    cfg: &Cfg,
    g: &GraphFacts,
    header: BlockRef,
    then_entry: BlockRef,
    else_entry: BlockRef,
    b: BlockRef,
)
    requires
        cfg.wf(),
        g.describes(cfg),
        cfg.has_block(then_entry) && cfg.has_block(else_entry),
        is_soft_merge(cfg, g, header, then_entry, else_entry, b),
    ensures
        b != cfg.exit_block,
        g.dom(header, b),
        exists|e: EdgeRef| #[trigger] runs_into(cfg, then_entry, b, e),
        exists|e: EdgeRef| #[trigger] runs_into(cfg, else_entry, b, e),
        forall|x: BlockRef|
            #![trigger g.frontier_has(then_entry, x)]
            x != cfg.exit_block && g.dom(header, x) && g.frontier_has(then_entry, x) && g.frontier_has(else_entry, x)
                ==> g.dom(b, x),
{
    assert(joint(cfg, g, header, then_entry, else_entry, b));
    arm_runs_into(cfg, g, then_entry, b);
    arm_runs_into(cfg, g, else_entry, b);
    assert forall|x: BlockRef|
        #![trigger g.frontier_has(then_entry, x)]
        x != cfg.exit_block && g.dom(header, x) && g.frontier_has(then_entry, x) && g.frontier_has(else_entry, x) implies g.dom(
        b,
        x,
    ) by {
        assert(joint(cfg, g, header, then_entry, else_entry, x));
    }
}

proof fn arm_runs_into(cfg: &Cfg, g: &GraphFacts, a: BlockRef, b: BlockRef)
    requires
        cfg.wf(),
        g.describes(cfg),
        cfg.has_block(a),
        g.frontier_has(a, b),
    ensures
        exists|e: EdgeRef| #[trigger] runs_into(cfg, a, b, e),
{
    frontiers_by_paths(g, cfg, a, b);
    let e = choose|e: EdgeRef| {
        &&& #[trigger] cfg.has_edge(e) && cfg.edge(e).to == b
        &&& cfg.reachable_blocks@.contains(cfg.edge(e).from)
        &&& a == cfg.edge(e).from || dominates(way(cfg), cfg.entry_block, a, cfg.edge(e).from)
        &&& a == b || !dominates(way(cfg), cfg.entry_block, a, b)
    };
    assert(runs_into(cfg, a, b, e));
}

/// Regions are listed for the branches with a block behind them, each once, by header.
pub proof fn regions_are_of_merging_branches(list: Seq<BranchCandidate>, n: nat)
    requires
        forall|i: int, j: int| 0 <= i < j < list.len() ==> (#[trigger] list[i]).header != (#[trigger] list[j]).header,
        n <= usize::MAX,
    ensures
        forall|i: int| #![trigger merging_upto(list, n)[i]]
            0 <= i < merging_upto(list, n).len() ==> list.contains(merging_upto(list, n)[i]) && merging_upto(list, n)[i].merge is Some
                && merging_upto(list, n)[i].header.0 < n,
        forall|i: int, j: int| #![trigger merging_upto(list, n)[i], merging_upto(list, n)[j]]
            0 <= i < j < merging_upto(list, n).len() ==> merging_upto(list, n)[i].header.0 < merging_upto(list, n)[j].header.0,
        forall|k: int|
            0 <= k < list.len() && (#[trigger] list[k]).merge is Some && list[k].header.0 < n ==> merging_upto(list, n).contains(
                list[k],
            ),
    decreases n,
{
    if n > 0 {
        let m = (n - 1) as nat;
        regions_are_of_merging_branches(list, m);
        let h = BlockRef(m as usize);
        let p = headed_by(list, h);
        first_where_least(list.len(), p);
        let rest = merging_upto(list, m);
        let now = merging_upto(list, n);
        if let Some(b) = branch_at(list, h) {
            assert(list.contains(b) && b.header == h);
        }
        assert forall|k: int| 0 <= k < list.len() && (#[trigger] list[k]).merge is Some && list[k].header.0 < n implies now.contains(
            list[k],
        ) by {
            if list[k].header.0 < m {
                let i = rest.index_of(list[k]);
                assert(now[i] == list[k]);
            } else {
                assert(list[k].header == h);
                assert(p(k));
                let i = first_where(list.len(), p)->0;
                assert(p(i));
                assert(i == k);
                assert(now.last() == list[k]);
            }
        }
    }
}

/// The region of a branch is what its header dominates, without what lies behind it: what its
/// merge dominates, where that does not dominate the header itself, or what the merge or the
/// exit of the fence dominates.
pub proof fn branch_regions_end_before_their_merge(
    g: &GraphFacts,
    b: BranchCandidate,
    fence: Option<SinglePassFenceFact>,
    r: &BranchRegionFact,
    x: BlockRef,
)
    requires
        spans_branch(g, b, fence, r),
    ensures
        r.header == b.header && b.merge == Some(r.merge) && r.kind == b.kind,
        r.domain.has(&g.dominator_tree.tree, x) <==> g.dom(b.header, x) && match fence {
            Some(f) => !g.dom(r.merge, x) && !g.dom(f.exit, x),
            None => g.dom(r.merge, b.header) || !g.dom(r.merge, x),
        },
{
    let span = &r.domain.spans@[0];
    if let Some(f) = fence {
        assert(span.excluded_subtrees@ == seq![r.merge, f.exit]);
        assert(span.excluded_subtrees@[0] == r.merge && span.excluded_subtrees@[1] == f.exit);
    } else if !g.dom(r.merge, b.header) {
        assert(span.excluded_subtrees@ == seq![r.merge]);
        assert(span.excluded_subtrees@[0] == r.merge);
    }
    assert(r.domain.has(&g.dominator_tree.tree, x) <==> span.has(&g.dominator_tree.tree, x));
}

} // verus!
