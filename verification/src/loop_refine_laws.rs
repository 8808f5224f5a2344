//! What splitting, ordering and refining loops keeps.

use vstd::prelude::*;

use crate::cfg::Cfg;
use crate::evidence::{BranchCandidate, LoopKindHint, ShortCircuitCandidate, ShortCircuitExit};
use crate::flood::{floods_to, step_in};
use crate::graph::sources;
use crate::helpers::fits;
use crate::ids::{BlockRef, EdgeRef};
use crate::lir::{BranchInstr, GenericForLoopInstr, LowInstr, LoweredProto, NumericForInstr};
use crate::loop_candidate_laws::sorted_edges_are_the_edges;
use crate::loop_exits::{exit_path, exit_target, is_least, on_all_paths, path_on, shared_exit};
use crate::loop_laws::{ends_in, is_fork, parts_ways};
use crate::loop_partition::{domain_of, negated, other_than, picked, stays_in};
use crate::loop_shape::LoopContext;
use crate::loop_values::LoopModel;
use crate::loopforest::NaturalLoop;
use crate::loops::{for_goes_on, in_order, nested_refined, normal_exit, ordered, place_for};
use crate::repeats::{last_node, RepeatRefinementInput};
use crate::search::{first_where, first_where_least, only_where, only_where_alone};
use crate::walk::{closed_set_holds_reachable, reaches, reaches_self, reaches_then_step};

verus! {

/// The two differ at most in their kind, where they go on, their condition, their scope and
/// the values at their exits.
pub open spec fn same_loop(a: LoopModel, b: LoopModel) -> bool {
    &&& a.header == b.header && a.preheader == b.preheader
    &&& a.blocks == b.blocks && a.backedges == b.backedges && a.exits == b.exits
    &&& a.control == b.control && a.aliases == b.aliases && a.continue_edges == b.continue_edges
    &&& a.bindings == b.bindings && a.header_values == b.header_values
}

/// Where a `for` loop goes on when it is done is the exit that its instruction names: the one
/// that opens a numeric `for` before the loop, or the one that ends a generic `for`'s header.
pub proof fn for_loops_go_on_at_their_exit(proto: &LoweredProto, cfg: &Cfg, c: LoopModel, x: BlockRef)
    requires
        normal_exit(proto, cfg, c) == Some(x),
    ensures
        ({
            ||| c.kind == LoopKindHint::NumericForLike && c.preheader is Some && exists|i: NumericForInstr| #[trigger]
                ends_in(proto, cfg, c.preheader->0, LowInstr::NumericForInit(i)) && cfg.instr_to_block@[i.exit_target.0 as int] == x
            ||| c.kind == LoopKindHint::GenericForLike && exists|i: GenericForLoopInstr| #[trigger]
                ends_in(proto, cfg, c.header, LowInstr::GenericForLoop(i)) && cfg.instr_to_block@[i.exit_target.0 as int] == x
        }),
{
    if c.kind == LoopKindHint::NumericForLike && c.preheader is Some {
        match cfg.terminator_of(proto.instrs@, c.preheader->0) {
            Some(i) => {
                assert(ends_in(proto, cfg, c.preheader->0, i));
            },
            None => {},
        }
    } else {
        match cfg.terminator_of(proto.instrs@, c.header) {
            Some(i) => {
                assert(ends_in(proto, cfg, c.header, i));
            },
            None => {},
        }
    }
}

/// A `while true` stays one unless it has a single exit, at which a smaller `for` loop inside
/// of its scope goes on; then its kind is open. Nothing but its kind and scope changes.
pub proof fn only_endless_loops_lose_their_kind(proto: &LoweredProto, cfg: &Cfg, list: Seq<LoopModel>, i: int)
    ensures
        ({
            let r = nested_refined(proto, cfg, list, i);
            let c = list[i];
            &&& same_loop(r, c)
            &&& r.continue_target == c.continue_target && r.condition_header == c.condition_header && r.exit_values == c.exit_values
            &&& r.kind != c.kind ==> {
                &&& c.kind == LoopKindHint::WhileTrueLike && r.kind == LoopKindHint::Unknown && r.scope == c.blocks
                &&& exists|j: int| {
                    &&& 0 <= j < list.len()
                    &&& (#[trigger] list[j]).blocks.len() < c.blocks.len()
                    &&& list[j].blocks.subset_of(c.scope)
                    &&& normal_exit(proto, cfg, list[j]) is Some && c.exits.contains(normal_exit(proto, cfg, list[j])->0)
                }
            }
            &&& r.kind == c.kind ==> r == c
        }),
{
    let c = list[i];
    if c.kind == LoopKindHint::WhileTrueLike && exists|j: int| 0 <= j < list.len() && #[trigger] for_goes_on(proto, cfg, list, i, j) {
        let j = choose|j: int| 0 <= j < list.len() && #[trigger] for_goes_on(proto, cfg, list, i, j);
        assert(list[j].blocks.len() < c.blocks.len());
    }
}

/// Block `t` ends in a branch, one way to `back`, the other out of `blocks`.
pub open spec fn decides(proto: &LoweredProto, cfg: &Cfg, t: BlockRef, back: BlockRef, blocks: Set<BlockRef>) -> bool {
    &&& exists|b: BranchInstr| #[trigger] ends_in(proto, cfg, t, LowInstr::Branch(b))
    &&& exists|x: EdgeRef, y: EdgeRef| #[trigger]
        is_fork(cfg, t, x, y) && ((cfg.edge(x).to == back && !blocks.contains(cfg.edge(y).to)) || (cfg.edge(y).to == back
            && !blocks.contains(cfg.edge(x).to)))
}

/// A `while` or `while true` whose kind was ambiguous becomes a `repeat` only with a condition
/// before its single way back: a block that branches out of the loop or on to that way. Only
/// kind, scope and where it goes on change.
pub proof fn ambiguous_loops_become_repeats(ctx: &LoopContext, list: Seq<LoopModel>, i: int)
    requires
        fits(ctx.proto, ctx.cfg),
        forall|k: int| 0 <= k < list[i].backedges.len() ==> ctx.cfg.has_edge(#[trigger] list[i].backedges[k]),
    ensures
        ({
            let r = ctx.ambiguous_refined(list, i);
            let c = list[i];
            &&& same_loop(r, c) && r.condition_header == c.condition_header && r.exit_values == c.exit_values
            &&& r.kind != c.kind ==> {
                &&& c.kind == LoopKindHint::WhileLike || c.kind == LoopKindHint::WhileTrueLike
                &&& r.kind == LoopKindHint::RepeatLike
                &&& c.backedges.len() == 1
                &&& r.continue_target is Some && c.blocks.contains(r.continue_target->0)
                &&& decides(ctx.proto, ctx.cfg, r.continue_target->0, ctx.cfg.edge(c.backedges[0]).from, c.blocks)
            }
            &&& r.kind == c.kind ==> r == c
        }),
{
    let c = list[i];
    if ctx.is_repeat(list, i) {
        let source = ctx.cfg.edge(c.backedges[0]).from;
        assert(ctx.cfg.has_edge(c.backedges[0]));
        let t = ctx.tail_condition(c)->0;
        let preds = ctx.cfg.predecessors_of(source).intersect(c.blocks);
        assert(preds == Set::<BlockRef>::empty().insert(t));
        assert(preds.contains(t));
        match ctx.cfg.terminator_of(ctx.proto.instrs@, t) {
            Some(b) => {
                assert(ends_in(ctx.proto, ctx.cfg, t, b));
            },
            None => {},
        }
        let (x, y) = ctx.cfg.branch_edges_of(t)->0;
        ctx.cfg.branch_edges_by_kind(t, x, y);
        assert(is_fork(ctx.cfg, t, x, y));
    }
}

/// Making a loop a `repeat` keeps the loop: only a `while`, a `while true` or a loop of open
/// kind changes, into a `repeat` that goes on at the condition, and the block at which the
/// condition starts dominates every way back.
pub proof fn repeats_come_before_every_way_back(ctx: &LoopContext, input: &RepeatRefinementInput, list: Seq<LoopModel>, i: int)
    ensures
        ({
            let r = ctx.repeat_refined(input, list, i);
            let c = list[i];
            &&& same_loop(r, c)
            &&& r != c ==> {
                &&& c.kind == LoopKindHint::Unknown || c.kind == LoopKindHint::WhileLike || c.kind == LoopKindHint::WhileTrueLike
                &&& r.kind == LoopKindHint::RepeatLike && r.continue_target is Some
                &&& forall|k: int|
                    0 <= k < c.backedges.len() ==> ctx.graph.dom(
                        if r.condition_header is Some {
                            r.condition_header->0
                        } else {
                            r.continue_target->0
                        },
                        ctx.cfg.edge(#[trigger] c.backedges[k]).from,
                    )
            }
        }),
{
}

/// The expression `k` of a list decides the loop: it lies in the loop, leaves it on one side
/// and goes to `back` on the other, and its last question is asked in `target`.
pub open spec fn expression_decides(
    ctx: &LoopContext,
    c: LoopModel,
    s: ShortCircuitCandidate,
    back: BlockRef,
    target: BlockRef,
) -> bool {
    &&& s.blocks@.subset_of(c.blocks) && c.blocks.contains(s.header)
    &&& match s.exit {
        ShortCircuitExit::BranchExit { truthy, falsy } => (truthy == back && c.exits.contains(falsy)) || (falsy == back
            && c.exits.contains(truthy)),
        ShortCircuitExit::ValueMerge(_) => false,
    }
    &&& exists|n: int| {
        &&& 0 <= n < s.nodes@.len()
        &&& (#[trigger] s.nodes@[n]).header == target
        &&& !(s.nodes@[n].truthy is Node) && !(s.nodes@[n].falsy is Node)
    }
}

/// A loop that an expression makes a `repeat` is decided by it: the expression lies in the
/// loop, goes back on one side and leaves the loop on the other, and the loop goes on at the
/// block of the expression's last question.
pub proof fn expressions_decide_their_repeat(
    ctx: &LoopContext,
    c: LoopModel,
    shorts: Seq<ShortCircuitCandidate>,
    extra: Seq<ShortCircuitCandidate>,
    back: BlockRef,
    sources: Seq<BlockRef>,
    owned: bool,
)
    requires
        ctx.short_change(c, shorts, extra, back, sources, owned) is Some,
    ensures
        ({
            let d = ctx.short_change(c, shorts, extra, back, sources, owned)->0;
            &&& d.exit_merge is None
            &&& d.condition_header is Some
            &&& match d.supplement {
                None => exists|k: int|
                    0 <= k < shorts.len() && expression_decides(ctx, c, #[trigger] shorts[k], back, d.target) && d.condition_header
                        == Some(shorts[k].header),
                Some(k) => 0 <= k < extra.len() && expression_decides(ctx, c, extra[k], back, d.target) && d.condition_header == Some(
                    extra[k].header,
                ),
            }
        }),
{
    let a = ctx.best_short(c, shorts, back, sources, owned, shorts.len());
    best_short_decides(ctx, c, shorts, back, sources, owned, shorts.len());
    best_short_decides(ctx, c, extra, back, sources, owned, extra.len());
    if a is Some {
        assert(expression_decides(ctx, c, shorts[a->0], back, ctx.short_target(c, &shorts[a->0], back, sources, owned)->0));
    }
}

proof fn best_short_decides(
    ctx: &LoopContext,
    c: LoopModel,
    list: Seq<ShortCircuitCandidate>,
    back: BlockRef,
    sources: Seq<BlockRef>,
    owned: bool,
    n: nat,
)
    requires
        n <= list.len(),
    ensures
        match ctx.best_short(c, list, back, sources, owned, n) {
            Some(k) => 0 <= k < n && ctx.short_target(c, &list[k], back, sources, owned) is Some && expression_decides(
                ctx,
                c,
                list[k],
                back,
                ctx.short_target(c, &list[k], back, sources, owned)->0,
            ),
            None => true,
        },
    decreases n,
{
    if n > 0 {
        best_short_decides(ctx, c, list, back, sources, owned, (n - 1) as nat);
        let s = &list[n - 1];
        if ctx.short_target(c, s, back, sources, owned) is Some {
            let p = last_node(s);
            let k = only_where(s.nodes@.len(), p)->0;
            only_where_alone(s.nodes@.len(), p, k);
            assert(p(k));
            assert(s.nodes@[k].header == ctx.short_target(c, s, back, sources, owned)->0);
        }
    }
}

/// One of the two edges of the fork at block `b` leads to one of `exits`.
pub open spec fn leaves_at_exit(cfg: &Cfg, b: BlockRef, exits: Set<BlockRef>) -> bool {
    exists|x: EdgeRef, y: EdgeRef| #[trigger]
        is_fork(cfg, b, x, y) && (exits.contains(cfg.edge(x).to) || exits.contains(cfg.edge(y).to))
}

/// A `while` that a plain condition makes a `repeat` leaves by an exit on one side of that
/// condition, its header leaves the loop on one side too, and the block at which the two meet
/// lies behind the loop.
pub proof fn plain_conditions_decide_their_repeat(
    ctx: &LoopContext,
    branches: Seq<BranchCandidate>,
    c: LoopModel,
    source: BlockRef,
)
    requires
        fits(ctx.proto, ctx.cfg),
        ctx.cfg.has_block(c.header),
        ctx.cfg.has_block(source),
        ctx.direct_change(branches, c, source) is Some,
    ensures
        ({
            let d = ctx.direct_change(branches, c, source)->0;
            &&& c.kind == LoopKindHint::WhileLike
            &&& d.condition_header is None && d.supplement is None
            &&& d.exit_merge is Some && !c.blocks.contains(d.exit_merge->0) && d.exit_merge->0 != ctx.cfg.exit_block
            &&& leaves_at_exit(ctx.cfg, d.target, c.exits)
            &&& parts_ways(ctx.cfg, c.header, c.blocks)
        }),
{
    let d = ctx.direct_change(branches, c, source)->0;
    let cfg = ctx.cfg;
    let (t, back) = ctx.direct_condition(c, source)->0;
    if cfg.branch_edges_of(source) is None {
        let preds = cfg.predecessors_of(source).intersect(c.blocks);
        assert(preds == Set::<BlockRef>::empty().insert(t));
        assert(preds.contains(t));
        cfg.lists_hold_links(source);
        assert(cfg.led_from(source, t));
        assert(cfg.links(t, source));
    }
    assert(cfg.has_block(t));
    let (x, y) = cfg.branch_edges_of(t)->0;
    cfg.branch_edges_by_kind(t, x, y);
    let (p, q) = cfg.branch_edges_of(c.header)->0;
    cfg.branch_edges_by_kind(c.header, p, q);
    assert(is_fork(cfg, t, x, y));
    assert(is_fork(cfg, c.header, p, q));
}

/// Putting loops in order loses none and makes none up: they stand by ascending header and,
/// with the same header, smaller loops first.
pub proof fn ordering_keeps_the_loops(list: Seq<LoopModel>, n: nat)
    requires
        n <= list.len(),
    ensures
        ordered(list, n).to_multiset() == list.subrange(0, n as int).to_multiset(),
        forall|i: int, j: int|
            0 <= i < j < ordered(list, n).len() ==> {
                let a = #[trigger] ordered(list, n)[i];
                let b = #[trigger] ordered(list, n)[j];
                a.header.0 < b.header.0 || (a.header == b.header && a.blocks.len() <= b.blocks.len())
            },
    decreases n,
{
    if n == 0 {
        assert(list.subrange(0, 0) =~= Seq::<LoopModel>::empty());
    } else {
        let m = (n - 1) as nat;
        ordering_keeps_the_loops(list, m);
        let rest = ordered(list, m);
        let x = list[m as int];
        let at = place_for(rest, x, 0) as int;
        place_splits(rest, x, 0);
        let now = rest.insert(at, x);
        vstd::seq_lib::to_multiset_insert(rest, at, x);
        assert(list.subrange(0, n as int) =~= list.subrange(0, m as int).push(x));
        vstd::seq_lib::to_multiset_build(list.subrange(0, m as int), x);
        assert forall|i: int, j: int| 0 <= i < j < now.len() implies in_order(#[trigger] now[i], #[trigger] now[j]) by {
            if i < at {
                assert(now[i] == rest[i]);
                if j > at {
                    assert(now[j] == rest[j - 1]);
                } else if j < at {
                    assert(now[j] == rest[j]);
                }
            } else if i == at {
                assert(now[j] == rest[j - 1]);
                if j - 1 > at {
                    assert(in_order(rest[at], rest[j - 1]));
                }
            } else {
                assert(now[i] == rest[i - 1] && now[j] == rest[j - 1]);
            }
        }
    }
}

proof fn place_splits(list: Seq<LoopModel>, x: LoopModel, n: nat)
    requires
        n <= list.len(),
        forall|i: int| 0 <= i < n ==> in_order(#[trigger] list[i], x),
    ensures
        n <= place_for(list, x, n) <= list.len(),
        forall|i: int| 0 <= i < place_for(list, x, n) ==> in_order(#[trigger] list[i], x),
        place_for(list, x, n) < list.len() ==> !in_order(list[place_for(list, x, n) as int], x),
    decreases list.len() - n,
{
    if n < list.len() && in_order(list[n as int], x) {
        place_splits(list, x, n + 1);
    }
}

proof fn picked_holds(edges: Seq<EdgeRef>, p: spec_fn(int) -> bool, n: nat, e: EdgeRef)
    requires
        n <= edges.len(),
    ensures
        picked(edges, p, n).contains(e) <==> exists|i: int| 0 <= i < n && p(i) && #[trigger] edges[i] == e,
    decreases n,
{
    if n > 0 {
        let m = (n - 1) as nat;
        picked_holds(edges, p, m, e);
        let before = picked(edges, p, m);
        let now = picked(edges, p, n);
        if before.contains(e) {
            let i = choose|i: int| 0 <= i < m && p(i) && #[trigger] edges[i] == e;
            assert(0 <= i < n && edges[i] == e);
            let k = before.index_of(e);
            assert(now[k] == e);
        }
        if p(m as int) {
            assert(now[before.len() as int] == edges[m as int]);
        }
        if now.contains(e) && !before.contains(e) {
            let k = now.index_of(e);
            if k < before.len() {
                assert(before[k] == e);
            }
            assert(edges[m as int] == e);
        }
        if exists|i: int| 0 <= i < n && p(i) && #[trigger] edges[i] == e {
            let i = choose|i: int| 0 <= i < n && p(i) && #[trigger] edges[i] == e;
            if i < m {
                assert(before.contains(e));
            }
        }
    }
}

/// The loops that stand for a natural loop share out its back edges: together they have
/// exactly these, and no two of them have one in common. There are one or two of them.
pub proof fn parts_share_out_the_back_edges(ctx: &LoopContext, l: &NaturalLoop, e: EdgeRef)
    requires
        l.backedges@.no_duplicates(),
    ensures
        1 <= ctx.parts(l).len() <= 2,
        l.backedges@.contains(e) <==> exists|i: int| 0 <= i < ctx.parts(l).len() && (#[trigger] ctx.parts(l)[i]).backedges.contains(e),
        forall|i: int, j: int|
            0 <= i < j < ctx.parts(l).len() ==> !((#[trigger] ctx.parts(l)[i]).backedges.contains(e) && (#[trigger] ctx.parts(
                l,
            )[j]).backedges.contains(e)),
{
    let edges = l.backedges@;
    let n = edges.len();
    let list = ctx.parts(l);
    sorted_edges_are_the_edges(edges);
    if ctx.numeric_parts(l) is Some {
        let s = ctx.numeric_site(l)->0;
        only_where_alone(n, ctx.numeric_backedge(l), s.at);
        let rest = picked(edges, other_than(s.at), n);
        picked_holds(edges, other_than(s.at), n, e);
        sorted_edges_are_the_edges(rest);
        sorted_edges_are_the_edges(seq![s.protocol]);
        assert(seq![s.protocol].contains(e) <==> e == s.protocol) by {
            assert(seq![s.protocol][0] == s.protocol);
        }
        let last = list[list.len() - 1];
        assert(last.backedges.contains(e) <==> e == edges[s.at]);
        if rest.len() == 0 {
            if edges.contains(e) && e != edges[s.at] {
                let i = edges.index_of(e);
                assert(other_than(s.at)(i));
                assert(edges[i] == e);
                assert(rest.contains(e));
            }
            assert(list[0].backedges.contains(e) <==> e == edges[s.at]);
        } else {
            assert(list[0].backedges.contains(e) <==> rest.contains(e));
            if edges.contains(e) && e != edges[s.at] {
                let i = edges.index_of(e);
                assert(other_than(s.at)(i));
                assert(edges[i] == e);
            }
            if rest.contains(e) {
                let i = choose|i: int| 0 <= i < n && other_than(s.at)(i) && #[trigger] edges[i] == e;
                assert(edges[i] != edges[s.at]);
            }
            assert(list[1].backedges.contains(e) <==> e == edges[s.at]);
        }
    } else if ctx.repeat_parts(l) is Some {
        let p = ctx.outer_backedge(l);
        let outer = picked(edges, p, n);
        let rest = picked(edges, negated(p), n);
        picked_holds(edges, p, n, e);
        picked_holds(edges, negated(p), n, e);
        sorted_edges_are_the_edges(outer);
        sorted_edges_are_the_edges(rest);
        assert(list[0].backedges.contains(e) <==> rest.contains(e));
        assert(list[1].backedges.contains(e) <==> outer.contains(e));
        if edges.contains(e) {
            let i = edges.index_of(e);
            assert(edges[i] == e);
            assert(p(i) || negated(p)(i));
        }
        if outer.contains(e) && rest.contains(e) {
            let i = choose|i: int| 0 <= i < n && p(i) && #[trigger] edges[i] == e;
            let j = choose|j: int| 0 <= j < n && negated(p)(j) && #[trigger] edges[j] == e;
            assert(i == j);
        }
    } else {
        assert(list[0].backedges.contains(e) <==> edges.contains(e));
    }
}

/// Block `b` does nothing but close scopes, and jump.
pub open spec fn only_closes_at(proto: &LoweredProto, cfg: &Cfg, b: BlockRef) -> bool {
    cfg.range(b).len > 0 && forall|i: int|
        cfg.range(b).start.0 <= i < cfg.range(b).start.0 + cfg.range(b).len ==> (#[trigger] proto.instrs@[i]) is Close || (i
            == cfg.range(b).start.0 + cfg.range(b).len - 1 && proto.instrs@[i] is Jump)
}

/// The way on from an exit starts at the exit, visits no block twice, and passes only blocks
/// that close scopes and jump, the first and the last aside.
pub proof fn ways_out_skip_nothing(proto: &LoweredProto, cfg: &Cfg, exit: BlockRef)
    ensures
        ({
            let path = exit_path(proto, cfg, exit);
            &&& path.len() > 0 && path[0] == exit
            &&& path.no_duplicates()
            &&& forall|i: int| 0 < i < path.len() - 1 ==> only_closes_at(proto, cfg, #[trigger] path[i])
            &&& path.len() > 1 ==> cfg.unique_successor(exit) == Some(path[1])
        }),
{
    let path = seq![exit];
    paths_skip_nothing(proto, cfg, path, cfg.unique_successor(exit), cfg.blocks@.len());
}

proof fn paths_skip_nothing(proto: &LoweredProto, cfg: &Cfg, path: Seq<BlockRef>, next: Option<BlockRef>, fuel: nat)
    requires
        path.len() > 0,
        path.no_duplicates(),
        path.len() > 1 && next is Some ==> only_closes_at(proto, cfg, path.last()),
        forall|i: int| 0 < i < path.len() - 1 ==> only_closes_at(proto, cfg, #[trigger] path[i]),
    ensures
        ({
            let r = path_on(proto, cfg, path, next, fuel);
            &&& path.len() <= r.len()
            &&& forall|i: int| 0 <= i < path.len() ==> #[trigger] r[i] == path[i]
            &&& r.no_duplicates()
            &&& forall|i: int| 0 < i < r.len() - 1 ==> only_closes_at(proto, cfg, #[trigger] r[i])
            &&& r.len() > path.len() ==> next == Some(r[path.len() as int])
        }),
    decreases fuel,
{
    if fuel == 0 || next is None || path.contains(next->0) {
    } else {
        let b = next->0;
        let longer = path.push(b);
        let on = exit_target(proto, cfg, b);
        if on is Some {
            assert(only_closes_at(proto, cfg, b));
        }
        assert forall|i: int| 0 < i < longer.len() - 1 implies only_closes_at(proto, cfg, #[trigger] longer[i]) by {
            assert(longer[i] == path[i]);
            if i == path.len() - 1 {
                assert(path.last() == path[i]);
            }
        }
        paths_skip_nothing(proto, cfg, longer, on, (fuel - 1) as nat);
        let r = path_on(proto, cfg, path, next, fuel);
        assert(r[path.len() as int] == longer[path.len() as int]);
        assert forall|i: int| 0 <= i < path.len() implies #[trigger] r[i] == path[i] by {
            assert(longer[i] == path[i]);
        }
    }
}

/// The block at which the exits of a loop meet lies on the way on from every exit, and is not
/// the function's end.
pub proof fn ways_out_meet(proto: &LoweredProto, cfg: &Cfg, exits: Set<BlockRef>)
    requires
        shared_exit(proto, cfg, exits) is Some,
    ensures
        (shared_exit(proto, cfg, exits)->0).merge != cfg.exit_block,
        forall|x: BlockRef| #[trigger]
            exits.contains(x) ==> exit_path(proto, cfg, x).contains((shared_exit(proto, cfg, exits)->0).merge),
        !(shared_exit(proto, cfg, exits)->0).path_blocks.contains((shared_exit(proto, cfg, exits)->0).merge),
{
    let first = exit_path(proto, cfg, choose|x: BlockRef| is_least(exits, x));
    let p = on_all_paths(proto, cfg, exits, first);
    first_where_least(first.len(), p);
    let i = first_where(first.len(), p)->0;
    assert(p(i));
}

/// The part of a loop that goes with some of its back edges holds the header and the sources of
/// these edges, and with a block other than the header every predecessor within the loop.
pub proof fn parts_are_closed_backward(cfg: &Cfg, l: &NaturalLoop, backedges: Seq<EdgeRef>, k: int, e: EdgeRef)
    ensures
        domain_of(cfg, l, backedges) is Some <==> forall|i: int|
            0 <= i < backedges.len() ==> cfg.edge(#[trigger] backedges[i]).to == l.header && l.blocks@.contains(
                cfg.edge(backedges[i]).from,
            ),
        domain_of(cfg, l, backedges) matches Some(part) ==> {
            &&& part.contains(l.header)
            &&& 0 <= k < backedges.len() ==> part.contains(cfg.edge(backedges[k]).from)
            &&& cfg.has_edge(e) && cfg.edge(e).to != l.header && part.contains(cfg.edge(e).to) && l.blocks@.contains(
                cfg.edge(e).from,
            ) ==> part.contains(cfg.edge(e).from)
            &&& forall|b: BlockRef| #[trigger] part.contains(b) ==> b == l.header || l.blocks@.contains(b)
        },
{
    if forall|i: int| 0 <= i < backedges.len() ==> stays_in(cfg, l, #[trigger] backedges[i]) {
        part_is_closed_backward(cfg, l, backedges, k, e);
    }
    if forall|i: int|
        0 <= i < backedges.len() ==> cfg.edge(#[trigger] backedges[i]).to == l.header && l.blocks@.contains(
            cfg.edge(backedges[i]).from,
        ) {
        assert forall|i: int| 0 <= i < backedges.len() implies stays_in(cfg, l, #[trigger] backedges[i]) by {}
    }
}

proof fn part_is_closed_backward(cfg: &Cfg, l: &NaturalLoop, backedges: Seq<EdgeRef>, k: int, e: EdgeRef)
    requires
        forall|i: int| 0 <= i < backedges.len() ==> stays_in(cfg, l, #[trigger] backedges[i]),
    ensures
        ({
            let part = domain_of(cfg, l, backedges)->0;
            &&& part.contains(l.header)
            &&& 0 <= k < backedges.len() ==> part.contains(cfg.edge(backedges[k]).from)
            &&& cfg.has_edge(e) && cfg.edge(e).to != l.header && part.contains(cfg.edge(e).to) && l.blocks@.contains(
                cfg.edge(e).from,
            ) ==> part.contains(cfg.edge(e).from)
            &&& forall|b: BlockRef| #[trigger] part.contains(b) ==> b == l.header || l.blocks@.contains(b)
        }),
{
    let region = l.blocks@.remove(l.header);
    let step = step_in(cfg, region, true);
    let from = sources(cfg, backedges);
    let all = domain_of(cfg, l, backedges)->0;
    if 0 <= k < backedges.len() && cfg.edge(backedges[k]).from != l.header {
        assert(stays_in(cfg, l, backedges[k]));
        reaches_self(step, from[k]);
        assert(floods_to(cfg, from, region, true, from[k]));
    }
    let (y, x) = (cfg.edge(e).from, cfg.edge(e).to);
    if cfg.has_edge(e) && x != l.header && all.contains(x) && l.blocks@.contains(y) && y != l.header {
        let j = choose|j: int| 0 <= j < from.len() && region.contains(#[trigger] from[j]) && reaches(step, from[j], x);
        closed_set_holds_reachable(step, region, from[j], x);
        assert(cfg.links(y, x));
        assert(step(x, y));
        reaches_then_step(step, from[j], x, y);
        assert(floods_to(cfg, from, region, true, y));
    }
    assert forall|b: BlockRef| #[trigger] all.contains(b) implies b == l.header || l.blocks@.contains(b) by {
        if b != l.header {
            let j = choose|j: int| 0 <= j < from.len() && region.contains(#[trigger] from[j]) && reaches(step, from[j], b);
            closed_set_holds_reachable(step, region, from[j], b);
        }
    }
}

} // verus!
