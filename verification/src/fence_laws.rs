//! What refining a branch keeps, and what a region that runs once looks like.

use vstd::prelude::*;

use crate::branch_laws::{branches_keep_their_targets, has_one_arm, has_two_arms};
use crate::branches::{core_size, is_soft_merge, soft_merge};
use crate::cfg::Cfg;
use crate::classify::{BranchIndex, Fork};
use crate::dataflow::{DataflowFacts, PhiCandidate};
use crate::evidence::{BranchCandidate, BranchKind, LoopCandidate};
use crate::fences::Fence;
use crate::forest::up;
use crate::graph::GraphFacts;
use crate::ids::{BlockRef, EdgeRef};
use crate::loop_laws::is_fork;
use crate::refine::{branch_at, fork_of, headed_by};
use crate::search::{count_where, first_where, first_where_least, least_where, least_where_least, only_where, only_where_alone};
use crate::tree::{covers_is_ancestry, up_compose};

verus! {

/// Block `b` is a reachable fork: a true and a false edge leave it, to different blocks.
pub open spec fn forks_apart(cfg: &Cfg, b: BlockRef) -> bool {
    cfg.reachable_blocks@.contains(b) && cfg.out_edges(b).len() == 2 && exists|t: EdgeRef, f: EdgeRef| #[trigger]
        is_fork(cfg, b, t, f) && cfg.edge(t).to != cfg.edge(f).to
}

/// The list has a branch with header `b`.
pub open spec fn has_branch(list: Seq<BranchCandidate>, b: BlockRef) -> bool {
    exists|k: int| 0 <= k < list.len() && (#[trigger] list[k]).header == b
}

proof fn first_looks_are_forks(index: &BranchIndex, irreducible: Set<BlockRef>, n: nat, b: BlockRef)
    requires
        index.wf(),
        n <= index.cfg.block_order@.len(),
    ensures
        has_branch(index.first_looks(irreducible, n), b) <==> (exists|q: int|
            0 <= q < n && #[trigger] index.cfg.block_order@[q] == b) && forks_apart(index.cfg, b),
    decreases n,
{
    let cfg = index.cfg;
    if n > 0 {
        let m = (n - 1) as nat;
        first_looks_are_forks(index, irreducible, m, b);
        let before = index.first_looks(irreducible, m);
        let now = index.first_looks(irreducible, n);
        let h = cfg.block_order@[m as int];
        assert(cfg.has_block(h));
        match cfg.branch_edges_of(h) {
            Some((t, f)) => {
                cfg.branch_edges_by_kind(h, t, f);
                assert(is_fork(cfg, h, t, f));
            },
            None => {},
        }
        if forks_apart(cfg, h) {
            let (t, f) = choose|t: EdgeRef, f: EdgeRef| #[trigger] is_fork(cfg, h, t, f) && cfg.edge(t).to != cfg.edge(f).to;
            cfg.branch_edges_by_kind(h, t, f);
        }
        let look = index.first_look(irreducible, h);
        assert(look is Some <==> forks_apart(cfg, h));
        if look is Some {
            let fork = fork_of(cfg, h)->0;
            branches_keep_their_targets(index, fork, irreducible.contains(h));
            assert((look->0).header == h);
            assert(now == before.push(look->0));
            assert(now[before.len() as int] == look->0);
        }
        if exists|k: int| 0 <= k < before.len() && (#[trigger] before[k]).header == b {
            let k = choose|k: int| 0 <= k < before.len() && (#[trigger] before[k]).header == b;
            assert(now[k] == before[k]);
        }
        if exists|k: int| 0 <= k < now.len() && (#[trigger] now[k]).header == b {
            let k = choose|k: int| 0 <= k < now.len() && (#[trigger] now[k]).header == b;
            if k < before.len() {
                assert(before[k].header == b);
            } else {
                assert(h == b);
            }
        }
        if exists|q: int| 0 <= q < m && #[trigger] cfg.block_order@[q] == b {
            let q = choose|q: int| 0 <= q < m && #[trigger] cfg.block_order@[q] == b;
            assert(0 <= q < n && cfg.block_order@[q] == b);
        }
        if (exists|q: int| 0 <= q < n && #[trigger] cfg.block_order@[q] == b) && !(exists|q: int|
            0 <= q < m && #[trigger] cfg.block_order@[q] == b) {
            let q = choose|q: int| 0 <= q < n && #[trigger] cfg.block_order@[q] == b;
            assert(q == m);
        }
    }
}

/// The branches are the reachable forks with two different targets, whatever is refined
/// later: a block other than the exit has a candidate just when it is such a fork.
pub proof fn every_fork_is_classified(index: &BranchIndex, dataflow: &DataflowFacts, irreducible: Set<BlockRef>, b: BlockRef)
    requires
        index.wf(),
        index.cfg.has_block(b),
        b != index.cfg.exit_block,
    ensures
        has_branch(index.all_fence_refined(dataflow, index.before_fences(irreducible)), b) <==> forks_apart(index.cfg, b),
{
    let n = index.cfg.block_order@.len();
    first_looks_are_forks(index, irreducible, n, b);
    assert(index.cfg.block_order@.contains(b));
    let q = index.cfg.block_order@.index_of(b);
    assert(index.cfg.block_order@[q] == b);
    let l0 = index.first_looks(irreducible, n);
    let l1 = index.all_iteration_refined(l0);
    let l2 = index.all_terminal_refined(l1, irreducible);
    let l3 = index.all_softly_closed(l2);
    let l4 = index.all_fence_refined(dataflow, l3);
    assert(l3 == index.before_fences(irreducible));
    assert forall|k: int| 0 <= k < l0.len() implies (#[trigger] l0[k]).header == l4[k].header by {
        iterations_refine_one_branch(index, l0, l0[k]);
        terminal_arms_join(index, l1[k], irreducible.contains(l1[k].header));
        soft_closing_keeps_the_branch(index, l2, l2.len(), k);
    }
    if exists|k: int| 0 <= k < l0.len() && (#[trigger] l0[k]).header == b {
        let k = choose|k: int| 0 <= k < l0.len() && (#[trigger] l0[k]).header == b;
        assert(l4[k].header == b);
    }
    if exists|k: int| 0 <= k < l4.len() && (#[trigger] l4[k]).header == b {
        let k = choose|k: int| 0 <= k < l4.len() && (#[trigger] l4[k]).header == b;
        assert(l0[k].header == l4[k].header);
    }
}

/// The first refinement keeps the header. What it changes into two arms has the branch's two
/// targets as arms and a merge that is one of them, or in which both arms join; what it
/// changes into one arm had two, and keeps one as the arm and the other as the merge.
pub proof fn iterations_refine_one_branch(index: &BranchIndex, list: Seq<BranchCandidate>, c: BranchCandidate)
    ensures
        ({
            let r = index.iteration_refined(list, c);
            &&& r.header == c.header
            &&& r != c && r.kind == BranchKind::IfElse ==> {
                let f = fork_of(index.cfg, c.header)->0;
                &&& c.else_entry is None && c.merge is Some
                &&& has_two_arms(f, r) && r.merge is Some
                &&& r.merge == Some(f.then_entry) || r.merge == Some(f.else_entry) || joins_both(
                    index.graph,
                    f.then_entry,
                    f.else_entry,
                    r.merge->0,
                )
            }
            &&& r != c && r.kind != BranchKind::IfElse ==> {
                &&& c.kind == BranchKind::IfElse && r.kind == BranchKind::IfThen && r.else_entry is None
                &&& {
                    ||| r.then_entry == c.then_entry && r.merge == c.else_entry && !r.invert_hint
                    ||| Some(r.then_entry) == c.else_entry && r.merge == Some(c.then_entry) && r.invert_hint
                }
            }
        }),
{
    if c.else_entry is None && c.merge is Some {
        match (branch_at(list, c.merge->0), fork_of(index.cfg, c.header)) {
            (Some(below), Some(f)) => {
                let soft = soft_merge(index.cfg, index.graph, f.header, f.then_entry, f.else_entry);
                if soft is Some {
                    assert(is_soft_merge(index.cfg, index.graph, f.header, f.then_entry, f.else_entry, soft->0));
                }
            },
            _ => {},
        }
    }
}

/// Block `m` lies in the dominance frontiers of both.
pub open spec fn joins_both(g: &GraphFacts, a: BlockRef, b: BlockRef, m: BlockRef) -> bool {
    g.frontier_has(a, m) && g.frontier_has(b, m)
}

/// Two arms without a merge become one only where exactly one of the targets joins, at the
/// other; everything else stays as it is.
pub proof fn terminal_arms_join(index: &BranchIndex, c: BranchCandidate, irreducible: bool)
    ensures
        ({
            let r = index.terminal_refined(c, irreducible);
            &&& r.header == c.header
            &&& r != c ==> {
                &&& c.kind == BranchKind::IfElse && c.merge is None && !irreducible
                &&& r.kind == BranchKind::IfThen && has_one_arm(fork_of(index.cfg, c.header)->0, r)
                &&& index.graph.frontier_has(r.then_entry, r.merge->0)
            }
        }),
{
}

/// Closing branches where their arms join softly keeps header, first arm and hint. What is
/// changed has two arms then, and a merge in which both arms of one of the branches join below
/// its header.
pub proof fn soft_closing_keeps_the_branch(index: &BranchIndex, list: Seq<BranchCandidate>, n: nat, j: int)
    requires
        n <= list.len(),
        0 <= j < list.len(),
    ensures
        ({
            let r = index.softly_closed(list, n, j);
            &&& r.header == list[j].header && r.then_entry == list[j].then_entry && r.invert_hint == list[j].invert_hint
            &&& r != list[j] ==> {
                &&& r.kind == BranchKind::IfElse && r.merge is Some
                &&& exists|k: int| {
                    let outer = #[trigger] list[k];
                    &&& 0 <= k < n
                    &&& outer.kind == BranchKind::IfElse && outer.else_entry is Some
                    &&& joins_both(index.graph, outer.then_entry, outer.else_entry->0, r.merge->0)
                    &&& index.graph.dom(outer.header, r.merge->0)
                    &&& r.else_entry == list[j].merge || (k == j && r.else_entry == list[j].else_entry)
                }
            }
        }),
    decreases n,
{
    if n > 0 {
        soft_closing_keeps_the_branch(index, list, (n - 1) as nat, j);
        let k = n - 1;
        let outer = list[k];
        match index.soft_rewrite(list, k, j) {
            Some(r) => {
                let soft = soft_merge(index.cfg, index.graph, outer.header, outer.then_entry, outer.else_entry->0);
                assert(soft is Some);
                assert(is_soft_merge(index.cfg, index.graph, outer.header, outer.then_entry, outer.else_entry->0, soft->0));
                assert(joins_both(index.graph, outer.then_entry, outer.else_entry->0, r.merge->0));
            },
            None => {
                let r = index.softly_closed(list, (n - 1) as nat, j);
                if r != list[j] {
                    let q = choose|q: int| {
                        let outer = #[trigger] list[q];
                        &&& 0 <= q < (n - 1) as nat
                        &&& outer.kind == BranchKind::IfElse && outer.else_entry is Some
                        &&& joins_both(index.graph, outer.then_entry, outer.else_entry->0, r.merge->0)
                        &&& index.graph.dom(outer.header, r.merge->0)
                        &&& r.else_entry == list[j].merge || (q == j && r.else_entry == list[j].else_entry)
                    };
                    assert(0 <= q < n);
                }
            },
        }
    }
}

/// The block lies below the region's header, and below neither its tail nor its exit.
pub open spec fn within_fence(index: &BranchIndex, f: Fence, b: BlockRef) -> bool {
    index.cfg.reachable_blocks@.contains(b) && (b == f.tail || (index.graph.dom(f.header, b) && !index.graph.dom(f.tail, b)
        && !index.graph.dom(f.exit, b)))
}

/// Edge `e` leaves the region for its exit, but not from its tail.
pub open spec fn escapes_fence(index: &BranchIndex, f: Fence, e: EdgeRef) -> bool {
    let edge = index.cfg.edge(e);
    &&& index.cfg.has_edge(e)
    &&& edge.to == f.exit && edge.from != f.tail
    &&& index.cfg.reachable_blocks@.contains(edge.from) && index.graph.dom(f.header, edge.from)
}

/// A region that runs once starts at a branch and is closed by a plain block, no branch and no
/// loop's header, whose only edge leads to the region's exit. Everything before the tail lies
/// in the region, some edge escapes from it past the tail, and all that do start in it. Its
/// header lies above every branch that merges at its exit.
pub proof fn single_pass_regions(index: &BranchIndex, dataflow: &DataflowFacts, list: Seq<BranchCandidate>, exit: BlockRef)
    requires
        index.wf(),
        index.cfg.has_block(exit),
        index.fence_at(dataflow, list, exit) is Some,
    ensures
        ({
            let f = index.fence_at(dataflow, list, exit)->0;
            let cfg = index.cfg;
            &&& f.exit == exit && exit != cfg.exit_block
            &&& cfg.has_edge(f.tail_edge) && cfg.edge(f.tail_edge).from == f.tail && cfg.edge(f.tail_edge).to == exit
            &&& cfg.out_edges(f.tail) == seq![f.tail_edge]
            &&& index.graph.dom(f.header, f.tail)
            &&& forall|k: int| 0 <= k < list.len() ==> (#[trigger] list[k]).header != f.tail
            &&& forall|i: int| 0 <= i < index.loops@.len() ==> (#[trigger] index.loops@[i]).header != f.tail
            &&& exists|k: int| 0 <= k < list.len() && (#[trigger] list[k]).header == f.header && list[k].merge == Some(exit)
            &&& forall|k: int|
                0 <= k < list.len() && (#[trigger] list[k]).merge == Some(exit) ==> index.graph.dom(f.header, list[k].header)
            &&& exists|e: EdgeRef| #[trigger] escapes_fence(index, f, e)
            &&& forall|e: EdgeRef| #[trigger] escapes_fence(index, f, e) ==> within_fence(index, f, cfg.edge(e).from)
            &&& forall|e: EdgeRef| #[trigger]
                cfg.has_edge(e) && cfg.edge(e).to == f.tail && cfg.reachable_blocks@.contains(cfg.edge(e).from) ==> within_fence(
                    index,
                    f,
                    cfg.edge(e).from,
                )
        }),
{
    let f = index.fence_at(dataflow, list, exit)->0;
    let cfg = index.cfg;
    let (slot, unclear) = index.outermost(list, exit, list.len());
    outermost_merges(index, list, exit, list.len());
    let header = list[slot->0].header;
    let p = index.tail_at(list, header, exit);
    let n = cfg.in_edges(exit).len();
    let k = only_where(n, p)->0;
    only_where_alone(n, p, k);
    assert(p(k));
    let e = cfg.in_edges(exit)[k];
    assert(cfg.has_edge(e));
    first_where_least(list.len(), headed_by(list, f.tail));
    assert forall|q: int| 0 <= q < list.len() implies (#[trigger] list[q]).header != f.tail by {
        assert(!headed_by(list, f.tail)(q));
    }
    assert forall|i: int| 0 <= i < index.loops@.len() implies (#[trigger] index.loops@[i]).header != f.tail by {}
    assert forall|e: EdgeRef| #[trigger] escapes_fence(index, f, e) <==> index.escapes(f).contains(e) by {}
    let some = index.escapes(f).choose();
    assert(index.escapes(f).contains(some)) by {
        if forall|e: EdgeRef| !index.escapes(f).contains(e) {
            assert(index.escapes(f) =~= Set::<EdgeRef>::empty());
        }
    }
    assert(escapes_fence(index, f, some));
    assert forall|e: EdgeRef| #[trigger] escapes_fence(index, f, e) implies within_fence(index, f, cfg.edge(e).from) by {
        assert(index.escapes(f).contains(e));
        assert(index.fenced(f)(cfg.edge(e).from));
    }
    assert forall|e: EdgeRef| #[trigger]
        cfg.has_edge(e) && cfg.edge(e).to == f.tail && cfg.reachable_blocks@.contains(cfg.edge(e).from) implies within_fence(
        index,
        f,
        cfg.edge(e).from,
    ) by {
        assert(cfg.links(cfg.edge(e).from, f.tail));
        assert(index.fenced(f)(cfg.edge(e).from));
    }
}

proof fn outermost_merges(index: &BranchIndex, list: Seq<BranchCandidate>, exit: BlockRef, n: nat)
    requires
        index.wf(),
        n <= list.len(),
    ensures
        match index.outermost(list, exit, n) {
            (Some(k), unclear) => {
                &&& 0 <= k < n && list[k].merge == Some(exit)
                &&& !unclear ==> forall|j: int|
                    0 <= j < n && (#[trigger] list[j]).merge == Some(exit) ==> index.graph.dom(list[k].header, list[j].header)
            },
            (None, _) => forall|j: int| 0 <= j < n ==> (#[trigger] list[j]).merge != Some(exit),
        },
    decreases n,
{
    if n > 0 {
        let m = (n - 1) as nat;
        outermost_merges(index, list, exit, m);
        let (slot, unclear) = index.outermost(list, exit, m);
        let c = list[m as int];
        if c.merge == Some(exit) && slot is Some && index.graph.dom(c.header, list[slot->0].header) && !unclear {
            assert forall|j: int| 0 <= j < n && (#[trigger] list[j]).merge == Some(exit) implies index.graph.dom(
                c.header,
                list[j].header,
            ) by {
                if j < m {
                    dom_transitive(index.cfg, index.graph, c.header, list[slot->0].header, list[j].header);
                }
            }
        }
    }
}

/// What dominates a dominator dominates.
pub proof fn dom_transitive(cfg: &Cfg, g: &GraphFacts, a: BlockRef, b: BlockRef, c: BlockRef)
    requires
        g.sized(cfg),
        g.dom(a, b),
        g.dom(b, c),
    ensures
        g.dom(a, c),
{
    let t = &g.dominator_tree.tree;
    covers_is_ancestry(t, a.0, b.0);
    covers_is_ancestry(t, b.0, c.0);
    covers_is_ancestry(t, a.0, c.0);
    if a != b && b != c {
        let i = choose|i: nat| #[trigger] up(t.parent@, b.0, i) == Some(a.0);
        let j = choose|j: nat| #[trigger] up(t.parent@, c.0, j) == Some(b.0);
        up_compose(t.parent@, c.0, j, i);
        assert(up(t.parent@, c.0, (j + i) as nat) == Some(a.0));
    }
}

/// A branch below the header of a region that runs once, and which merges at its exit, merges
/// at its tail instead; nothing else of it changes, and no other branch changes.
pub proof fn fences_move_merges_to_their_tail(
    index: &BranchIndex,
    dataflow: &DataflowFacts,
    list: Seq<BranchCandidate>,
    j: int,
)
    requires
        0 <= j < list.len(),
    ensures
        ({
            let r = index.all_fence_refined(dataflow, list)[j];
            let c = list[j];
            let inside = c.merge is Some && index.fence_at(dataflow, list, c.merge->0) is Some && index.graph.dom(
                (index.fence_at(dataflow, list, c.merge->0)->0).header,
                c.header,
            );
            &&& r.header == c.header && r.then_entry == c.then_entry && r.else_entry == c.else_entry && r.kind == c.kind
                && r.invert_hint == c.invert_hint
            &&& inside ==> r.merge == Some((index.fence_at(dataflow, list, c.merge->0)->0).tail)
            &&& !inside ==> r.merge == c.merge
        }),
{
}

/// The loop holds the fork with both targets and the branch below, whose merge is one of the
/// loop's exits.
pub open spec fn leaves_with(c: &LoopCandidate, f: Fork, below: &BranchCandidate) -> bool {
    &&& c.blocks@.contains(f.header) && c.blocks@.contains(f.then_entry) && c.blocks@.contains(f.else_entry)
    &&& c.blocks@.contains(below.header)
    &&& below.merge is Some && c.exits@.contains(below.merge->0)
}

/// A fork gets two arms on account of the branch below it only within a loop that holds both
/// and that the branch below leaves, or whose iteration it guards, and then joins in that loop.
pub proof fn iterations_hold_what_they_join(index: &BranchIndex, f: Fork, below: &BranchCandidate)
    requires
        index.iteration_merge(f, below) is Some,
    ensures
        exists|i: int|
            0 <= i < index.loops@.len() && #[trigger] joins_within(&index.loops@[i], f, below) && joined_in(
                &index.loops@[i],
                (index.iteration_merge(f, below)->0).merge,
            ),
{
    let p = index.iteration_owner(f, below);
    least_where_least(index.loops@.len(), p, core_size(index.loops@));
    let i = least_where(index.loops@.len(), p, core_size(index.loops@))->0;
    assert(p(i));
    assert(joins_within(&index.loops@[i], f, below));
}

pub open spec fn joined_in(c: &LoopCandidate, merge: Option<BlockRef>) -> bool {
    merge is Some && (c.blocks@.contains(merge->0) || c.body_scope_blocks@.contains(merge->0))
}

/// The loop holds the fork with both targets and the branch below; that leaves the loop, or
/// guards it and goes on within.
pub open spec fn joins_within(c: &LoopCandidate, f: Fork, below: &BranchCandidate) -> bool {
    &&& c.blocks@.contains(f.header) && c.blocks@.contains(f.then_entry) && c.blocks@.contains(f.else_entry)
    &&& c.blocks@.contains(below.header)
    &&& below.merge is Some
    &&& c.exits@.contains(below.merge->0) || (below.kind == BranchKind::Guard && below.else_entry is None && joined_in(
        c,
        below.merge,
    ))
}

/// Where the branch below leaves a loop around both, and the two targets meet in every loop
/// around them without one flowing into the other, the fork has two arms that meet there.
pub proof fn meeting_targets_are_two_arms(index: &BranchIndex, f: Fork, below: &BranchCandidate, i: int, m: BlockRef)
    requires
        0 <= i < index.loops@.len(),
        leaves_with(&index.loops@[i], f, below),
        below.merge != Some(f.then_entry) && below.merge != Some(f.else_entry),
        !index.graph.frontier_has(f.then_entry, f.else_entry) && !index.graph.frontier_has(f.else_entry, f.then_entry),
        soft_merge(index.cfg, index.graph, f.header, f.then_entry, f.else_entry) == Some(m),
        forall|j: int| 0 <= j < index.loops@.len() ==> (#[trigger] index.loops@[j]).blocks@.contains(m),
    ensures
        index.iteration_merge(f, below) is Some,
        has_two_arms(f, index.iteration_merge(f, below)->0),
        (index.iteration_merge(f, below)->0).merge == Some(m),
{
    let p = index.iteration_owner(f, below);
    least_where_least(index.loops@.len(), p, core_size(index.loops@));
    assert(p(i));
    let k = least_where(index.loops@.len(), p, core_size(index.loops@))->0;
    assert(index.loops@[k].blocks@.contains(m));
}

/// The incomings that come over one of the edges.
pub open spec fn comes_over(phi: &PhiCandidate, edges: Set<EdgeRef>) -> spec_fn(int) -> bool {
    |k: int| phi.incoming@[k].edge is Some && edges.contains(phi.incoming@[k].edge->0)
}

proof fn same_count(n: nat, p: spec_fn(int) -> bool, q: spec_fn(int) -> bool)
    requires
        forall|k: int| 0 <= k < n ==> #[trigger] p(k) == q(k),
    ensures
        count_where(n, p) == count_where(n, q),
    decreases n,
{
    if n > 0 {
        same_count((n - 1) as nat, p, q);
        assert(p(n - 1) == q(n - 1));
    }
}

/// A phi that parts its values takes one over the edge of the tail, one for each escape, all
/// of these from below the arm, and among them one that differs from that of the tail.
pub proof fn parted_values_differ(index: &BranchIndex, phi: &PhiCandidate, f: Fence, arm: BlockRef)
    requires
        index.parts_values(phi, f, arm),
    ensures
        exists|t: int, k: int|
            0 <= t < phi.incoming@.len() && 0 <= k < phi.incoming@.len() && (#[trigger] phi.incoming@[t]).edge == Some(
                f.tail_edge,
            ) && comes_over(phi, index.escapes(f))(k) && (#[trigger] phi.incoming@[k]).value != phi.incoming@[t].value,
        forall|k: int|
            0 <= k < phi.incoming@.len() && comes_over(phi, index.escapes(f))(k) ==> (#[trigger] phi.incoming@[k]).pred is Some
                && index.graph.dom(arm, phi.incoming@[k].pred->0),
        count_where(phi.incoming@.len(), comes_over(phi, index.escapes(f))) == index.escapes(f).len(),
{
    let n = phi.incoming@.len();
    let p = index.by_escape(phi, f);
    let q = comes_over(phi, index.escapes(f));
    first_where_least(n, index.by_tail(phi, f));
    let t = first_where(n, index.by_tail(phi, f))->0;
    assert((index.by_tail(phi, f))(t));
    same_count(n, p, q);
    let k = choose|k: int| 0 <= k < n && #[trigger] p(k) && phi.incoming@[k].value != phi.incoming@[t].value;
    assert(q(k));
    assert(phi.incoming@[t].edge == Some(f.tail_edge));
    assert forall|k: int| 0 <= k < n && q(k) implies (#[trigger] phi.incoming@[k]).pred is Some && index.graph.dom(
        arm,
        phi.incoming@[k].pred->0,
    ) by {
        assert(p(k));
    }
}

} // verus!
