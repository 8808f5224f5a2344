//! What a loop candidate says of the graph.

use vstd::prelude::*;

use crate::cfg::{sole_member, Cfg, EdgeKind};
use crate::evidence::{LoopKindHint, LoopSourceBindings};
use crate::flood::step_in;
use crate::graph::GraphFacts;
use crate::helpers::{enters_region, fits, leaves_region, region_exits};
use crate::ids::{BlockRef, EdgeRef};
use crate::idset::ascending;
use crate::lir::{GenericForCallInstr, GenericForLoopInstr, LowInstr, NumericForInstr};
use crate::loop_candidates::{dead_latch, outside, sorted_edges, sorts};
use crate::loop_exits::{body_scope, early_exit, scope_region, widened_to, ScopeInput};
use crate::loop_laws::{calls_for, ends_in, ends_in_both, same_registers};
use crate::loop_shape::{shape_of, LoopContext, Shape, ShapeInput};
use crate::search::{first_where, first_where_least};
use crate::walk::{closed_set_holds_reachable, reaches, reaches_monotone, reaches_self};

verus! {

/// Block `p` is reachable, lies outside of `blocks` and leads to `header`.
pub open spec fn enters_at(cfg: &Cfg, p: BlockRef, header: BlockRef, blocks: Set<BlockRef>) -> bool {
    cfg.reachable_blocks@.contains(p) && !blocks.contains(p) && exists|e: EdgeRef| #[trigger]
        cfg.has_edge(e) && cfg.edge(e).from == p && cfg.edge(e).to == header
}

/// Block `p` enters at `header`, and no other block does.
pub open spec fn enters_alone(cfg: &Cfg, p: BlockRef, header: BlockRef, blocks: Set<BlockRef>) -> bool {
    enters_at(cfg, p, header, blocks) && forall|q: BlockRef| #[trigger] enters_at(cfg, q, header, blocks) ==> q == p
}

/// An edge leads from `blocks` to the reachable block `x` outside.
pub open spec fn leaves_at(cfg: &Cfg, x: BlockRef, blocks: Set<BlockRef>) -> bool {
    cfg.reachable_blocks@.contains(x) && !blocks.contains(x) && exists|e: EdgeRef| #[trigger]
        cfg.has_edge(e) && blocks.contains(cfg.edge(e).from) && cfg.edge(e).to == x
}

/// The edges below `n` that occur in `edges`, in ascending order.
spec fn ordered_below(edges: Seq<EdgeRef>, n: nat) -> Seq<EdgeRef>
    decreases n,
{
    if n == 0 {
        Seq::empty()
    } else {
        let e = EdgeRef((n - 1) as usize);
        if edges.contains(e) {
            ordered_below(edges, (n - 1) as nat).push(e)
        } else {
            ordered_below(edges, (n - 1) as nat)
        }
    }
}

proof fn ordered_below_sorts(edges: Seq<EdgeRef>, n: nat)
    requires
        n <= usize::MAX + 1,
    ensures
        ascending(ordered_below(edges, n)),
        forall|e: EdgeRef| #[trigger] ordered_below(edges, n).contains(e) <==> edges.contains(e) && e.0 < n,
    decreases n,
{
    if n > 0 {
        let m = (n - 1) as nat;
        ordered_below_sorts(edges, m);
        let before = ordered_below(edges, m);
        let after = ordered_below(edges, n);
        let last = EdgeRef(m as usize);
        assert forall|i: int| 0 <= i < before.len() implies (#[trigger] before[i]).0 < m by {
            assert(before.contains(before[i]));
        }
        assert forall|e: EdgeRef| #[trigger] after.contains(e) <==> edges.contains(e) && e.0 < n by {
            if before.contains(e) {
                let i = choose|i: int| 0 <= i < before.len() && before[i] == e;
                assert(after[i] == e);
            }
            if edges.contains(last) {
                assert(after[before.len() as int] == last);
            }
            if after.contains(e) {
                let i = choose|i: int| 0 <= i < after.len() && after[i] == e;
                if i < before.len() {
                    assert(before[i] == e);
                    assert(before.contains(e));
                }
            }
            if edges.contains(e) && e.0 == m {
                assert(e == last);
            }
        }
    }
}

/// A loop's exits are the reachable blocks outside to which an edge leads from it; the block
/// before it is the one reachable block outside from which it is entered, if there is one
/// only; its back edges are the ones it was given, in ascending order; and its kind, where it
/// goes on and its variables are read off its own header, blocks, edges, exits and values.
pub proof fn loops_read_the_graph(ctx: &LoopContext, header: BlockRef, blocks: Set<BlockRef>, backedges: Seq<EdgeRef>)
    requires
        fits(ctx.proto, ctx.cfg),
        ctx.cfg.has_block(header),
    ensures
        ({
            let c = ctx.built(header, blocks, backedges);
            &&& c.header == header && c.blocks == blocks
            &&& forall|x: BlockRef| #[trigger] c.exits.contains(x) <==> leaves_at(ctx.cfg, x, blocks)
            &&& forall|p: BlockRef| c.preheader == Some(p) <==> #[trigger] enters_alone(ctx.cfg, p, header, blocks)
            &&& ascending(c.backedges)
            &&& forall|e: EdgeRef| #[trigger] c.backedges.contains(e) <==> backedges.contains(e)
            &&& shape_of(
                ctx.proto,
                ctx.cfg,
                ctx.dataflow,
                ShapeInput {
                    header: c.header,
                    blocks: c.blocks,
                    backedges: c.backedges,
                    exits: c.exits,
                    preheader: c.preheader,
                    values: c.header_values,
                },
            ) == (Shape { kind: c.kind, continue_target: c.continue_target, bindings: c.bindings })
        }),
{
    sorted_edges_are_the_edges(backedges);
    exits_by_edges(ctx.cfg, blocks);
    preheader_by_edges(ctx, header, blocks);
}

pub proof fn sorted_edges_are_the_edges(edges: Seq<EdgeRef>)
    ensures
        ascending(sorted_edges(edges)),
        forall|e: EdgeRef| #[trigger] sorted_edges(edges).contains(e) <==> edges.contains(e),
{
    ordered_below_sorts(edges, (usize::MAX + 1) as nat);
    assert(sorts(edges, ordered_below(edges, (usize::MAX + 1) as nat)));
    assert(sorts(edges, sorted_edges(edges)));
}

proof fn preheader_by_edges(ctx: &LoopContext, header: BlockRef, blocks: Set<BlockRef>)
    requires
        fits(ctx.proto, ctx.cfg),
        ctx.cfg.has_block(header),
    ensures
        forall|p: BlockRef| ctx.preheader_of(header, blocks) == Some(p) <==> #[trigger] enters_alone(ctx.cfg, p, header, blocks),
{
    let cfg = ctx.cfg;
    let preds = cfg.predecessors_of(header).intersect(outside(blocks));
    cfg.lists_hold_links(header);
    assert forall|p: BlockRef| #[trigger] preds.contains(p) <==> enters_at(cfg, p, header, blocks) by {
        assert(cfg.led_from(header, p) <==> cfg.links(p, header));
    }
    assert forall|p: BlockRef| ctx.preheader_of(header, blocks) == Some(p) <==> #[trigger] enters_alone(cfg, p, header, blocks) by {
        if ctx.preheader_of(header, blocks) == Some(p) {
            assert(preds == Set::<BlockRef>::empty().insert(p));
            assert(preds.contains(p));
            assert forall|q: BlockRef| #[trigger] enters_at(cfg, q, header, blocks) implies q == p by {
                assert(preds.contains(q));
            }
        }
        if enters_alone(cfg, p, header, blocks) {
            assert forall|q: BlockRef| #[trigger] preds.contains(q) implies q == p by {
                assert(enters_at(cfg, q, header, blocks));
            }
            assert(preds =~= Set::<BlockRef>::empty().insert(p));
            let y = sole_member(preds)->0;
            assert(preds == Set::<BlockRef>::empty().insert(y));
            assert(preds.contains(y));
        }
    }
}

/// The scope of a body holds the loop's blocks, and reaches beyond them only for the two
/// `for` loops and a `repeat`: there to blocks that the header dominates, short of the
/// function's exit and of the blocks at which the `for` ends by itself, on the way from one
/// of the loop's exits.
pub proof fn scopes_hold_their_loops(cfg: &Cfg, g: &GraphFacts, s: ScopeInput, b: BlockRef)
    ensures
        s.blocks.contains(b) ==> body_scope(cfg, g, s).contains(b),
        body_scope(cfg, g, s).contains(b) && !s.blocks.contains(b) ==> {
            &&& s.kind == LoopKindHint::NumericForLike || s.kind == LoopKindHint::GenericForLike || s.kind
                == LoopKindHint::RepeatLike
            &&& g.dom(s.header, b)
            &&& b != cfg.exit_block
            &&& s.exits.contains(b) ==> forall|e: EdgeRef| #[trigger]
                cfg.has_edge(e) && cfg.edge(e).to == b && s.blocks.contains(cfg.edge(e).from) ==> cfg.edge(e).kind
                    != EdgeKind::LoopExit
            &&& s.shared is Some ==> (s.shared->0).merge != b
            &&& s.kind == LoopKindHint::RepeatLike && s.continue_target is Some ==> !cfg.links(s.continue_target->0, b)
            &&& exists|x: BlockRef| #[trigger] s.exits.contains(x) && g.dom(s.header, x) && reaches(cfg.step(), x, b)
        },
{
    if body_scope(cfg, g, s).contains(b) && !s.blocks.contains(b) {
        let region = scope_region(cfg, g, s);
        let step = step_in(cfg, region, false);
        let x = choose|x: BlockRef| #[trigger] early_exit(cfg, g, s, x) && region.contains(x) && reaches(step, x, b);
        closed_set_holds_reachable(step, region, x, b);
        reaches_monotone(step, cfg.step(), x, b);
        assert(s.exits.contains(x));
    }
}

/// Where a repeat's body goes on past an exit that its header dominates and that no `for`
/// ends at, short of every boundary, that exit belongs to the scope.
pub proof fn early_exits_belong_to_the_scope(cfg: &Cfg, g: &GraphFacts, s: ScopeInput, x: BlockRef)
    requires
        s.kind == LoopKindHint::NumericForLike || s.kind == LoopKindHint::GenericForLike || s.kind == LoopKindHint::RepeatLike,
        cfg.has_block(x),
        s.exits.contains(x),
        x != s.header,
        x != cfg.exit_block,
        g.dom(s.header, x),
        forall|e: EdgeRef| #[trigger]
            cfg.has_edge(e) && cfg.edge(e).to == x && s.blocks.contains(cfg.edge(e).from) ==> cfg.edge(e).kind != EdgeKind::LoopExit,
        s.continue_target is Some ==> !cfg.links(s.continue_target->0, x),
        s.shared is Some ==> (s.shared->0).merge != x,
    ensures
        body_scope(cfg, g, s).contains(x),
{
    assert(early_exit(cfg, g, s, x));
    assert(scope_region(cfg, g, s).contains(x));
    reaches_self(step_in(cfg, scope_region(cfg, g, s), false), x);
    assert(widened_to(cfg, g, s, x));
}

/// A generic `for` that never comes back is one whose header asks the iterator and leaves to
/// one of the loop's exits; it binds what the header binds, goes on at the header, and is
/// entered there only.
pub proof fn single_pass_generic_for(ctx: &LoopContext, header: BlockRef)
    requires
        fits(ctx.proto, ctx.cfg),
        ctx.cfg.has_block(header),
        ctx.degenerate_generic(header) is Some,
    ensures
        ({
            let c = ctx.degenerate_generic(header)->0;
            &&& c.header == header && c.blocks.contains(header)
            &&& c.kind == LoopKindHint::GenericForLike && c.continue_target == Some(header) && c.backedges.len() == 0
            &&& exists|call: GenericForCallInstr, i: GenericForLoopInstr| {
                &&& #[trigger] ends_in_both(
                    ctx.proto,
                    ctx.cfg,
                    header,
                    LowInstr::GenericForCall(call),
                    LowInstr::GenericForLoop(i),
                )
                &&& calls_for(call, i)
                &&& c.bindings == Some(LoopSourceBindings::Generic(i.bindings))
                &&& c.exits.contains(ctx.cfg.instr_to_block@[i.exit_target.0 as int])
                &&& !c.blocks.contains(ctx.cfg.instr_to_block@[i.exit_target.0 as int])
            }
            &&& forall|x: BlockRef| #[trigger] c.exits.contains(x) <==> leaves_at(ctx.cfg, x, c.blocks)
            &&& forall|e: EdgeRef| #[trigger]
                ctx.cfg.has_edge(e) && c.blocks.contains(ctx.cfg.edge(e).to) && ctx.cfg.reachable_blocks@.contains(
                    ctx.cfg.edge(e).from,
                ) && !c.blocks.contains(ctx.cfg.edge(e).from) ==> ctx.cfg.edge(e).to == header
        }),
{
    let c = ctx.degenerate_generic(header)->0;
    let cfg = ctx.cfg;
    match cfg.terminator_of(ctx.proto.instrs@, header) {
        Some(LowInstr::GenericForLoop(i)) => {
            match ctx.proto.instrs@[cfg.range(header).end_at() - 2] {
                LowInstr::GenericForCall(call) => {
                    assert(ends_in_both(
                        ctx.proto,
                        cfg,
                        header,
                        LowInstr::GenericForCall(call),
                        LowInstr::GenericForLoop(i),
                    ));
                },
                _ => {},
            }
        },
        _ => {},
    }
    exits_by_edges(cfg, c.blocks);
    assert forall|e: EdgeRef| #[trigger]
        cfg.has_edge(e) && c.blocks.contains(cfg.edge(e).to) && cfg.reachable_blocks@.contains(cfg.edge(e).from)
            && !c.blocks.contains(cfg.edge(e).from) implies cfg.edge(e).to == header by {
        assert(enters_region(cfg, c.blocks, e));
    }
}

proof fn exits_by_edges(cfg: &Cfg, blocks: Set<BlockRef>)
    ensures
        forall|x: BlockRef| #[trigger] region_exits(cfg, blocks).contains(x) <==> leaves_at(cfg, x, blocks),
{
    assert forall|x: BlockRef| #[trigger] region_exits(cfg, blocks).contains(x) <==> leaves_at(cfg, x, blocks) by {
        if region_exits(cfg, blocks).contains(x) {
            let e = choose|e: EdgeRef| #[trigger] leaves_region(cfg, blocks, e) && cfg.edge(e).to == x;
            assert(cfg.has_edge(e));
        }
        if leaves_at(cfg, x, blocks) {
            let e = choose|e: EdgeRef| #[trigger]
                cfg.has_edge(e) && blocks.contains(cfg.edge(e).from) && cfg.edge(e).to == x;
            assert(leaves_region(cfg, blocks, e));
        }
    }
}

/// A numeric `for` whose end is never reached starts where the block before it opens it, goes
/// on at an unreachable block with an instruction that closes a loop with the same registers,
/// binds the register that the opening instruction binds, and has the opening instruction's
/// exit among its own.
pub proof fn single_pass_numeric_for(ctx: &LoopContext, taken: Set<BlockRef>, preheader: BlockRef)
    requires
        fits(ctx.proto, ctx.cfg),
        ctx.cfg.has_block(preheader),
        ctx.degenerate_numeric(taken, preheader) is Some,
    ensures
        ({
            let c = ctx.degenerate_numeric(taken, preheader)->0;
            &&& c.preheader == Some(preheader) && c.backedges.len() == 0 && c.kind == LoopKindHint::NumericForLike
            &&& c.continue_target is Some && c.blocks.contains(c.continue_target->0)
            &&& !ctx.cfg.reachable_blocks@.contains(c.continue_target->0)
            &&& !taken.contains(c.header)
            &&& exists|init: NumericForInstr, latch: NumericForInstr, i: int| {
                &&& #[trigger] ends_in(ctx.proto, ctx.cfg, preheader, LowInstr::NumericForInit(init))
                &&& ctx.cfg.instr_to_block@[init.body_target.0 as int] == c.header
                &&& c.exits.contains(ctx.cfg.instr_to_block@[init.exit_target.0 as int])
                &&& c.bindings == Some(LoopSourceBindings::Numeric(init.binding))
                &&& 0 <= i < ctx.proto.instrs@.len() && #[trigger] ctx.proto.instrs@[i] == LowInstr::NumericForLoop(latch)
                &&& ctx.cfg.instr_to_block@[i] == c.continue_target->0
                &&& #[trigger] same_registers(init, latch)
            }
        }),
{
    let c = ctx.degenerate_numeric(taken, preheader)->0;
    match ctx.cfg.terminator_of(ctx.proto.instrs@, preheader) {
        Some(LowInstr::NumericForInit(init)) => {
            let p = dead_latch(ctx.proto, ctx.cfg, init);
            first_where_least(ctx.proto.instrs@.len(), p);
            let i = first_where(ctx.proto.instrs@.len(), p)->0;
            assert(p(i));
            assert(ends_in(ctx.proto, ctx.cfg, preheader, LowInstr::NumericForInit(init)));
            match ctx.proto.instrs@[i] {
                LowInstr::NumericForLoop(latch) => {
                    assert(same_registers(init, latch));
                },
                _ => {},
            }
        },
        _ => {},
    }
}

/// A numeric `for` loop is opened by a reachable block that ends in the opening instruction and
/// leads to where the body starts: the header of the loop, or a reachable block that does not
/// only lead there but ends in a jump to it.
pub proof fn numeric_loops_are_opened_before_their_body(
    context: &LoopContext,
    natural: BlockRef,
    latch: NumericForInstr,
    header: BlockRef,
    preheader: BlockRef,
)
    requires
        context.opens(natural, latch, header, preheader),
    ensures
        context.cfg.reachable_blocks@.contains(preheader),
        exists|e: EdgeRef| #[trigger]
            context.cfg.has_edge(e) && context.cfg.edge(e).from == preheader && context.cfg.edge(e).to == header,
        context.cfg.terminator_of(context.proto.instrs@, preheader) is Some,
        context.cfg.terminator_of(context.proto.instrs@, preheader)->0 is NumericForInit,
        header != natural ==> context.cfg.reachable_blocks@.contains(header) && (exists|e: EdgeRef| #[trigger]
            context.cfg.has_edge(e) && context.cfg.edge(e).from == header && context.cfg.edge(e).to == natural) && (
        context.cfg.terminator_of(context.proto.instrs@, header) matches Some(LowInstr::Jump(j))
            && context.cfg.instr_to_block@[j.target.0 as int] == natural),
{
}

} // verus!
