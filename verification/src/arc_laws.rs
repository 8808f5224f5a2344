//! Which way a condition takes: its edges follow the instruction, and its arcs the graph.

use vstd::prelude::*;

use crate::cfg::{Cfg, EdgeKind};
use crate::condition_arcs::{
    arc_end, arc_of, arcs_upto, jump_route, node_arcs, passes_on, semantic_edges, sources_of, ArcModel, ShortModel,
};
use crate::condition_laws::{after, start_of};
use crate::conditions::single_condition;
use crate::evidence::{ShortCircuitExit, ShortCircuitNode, ShortCircuitNodeRef, ShortCircuitTarget};
use crate::helpers::fits;
use crate::ids::{BlockRef, EdgeRef, InstrRef};
use crate::lir::{BranchInstr, LowInstr, LoweredProto};
use crate::loop_laws::{ends_in, is_fork};

verus! {

/// Where a branch goes when its question has the answer `holds`.
pub open spec fn goes_to(b: BranchInstr, holds: bool) -> InstrRef {
    if holds != b.cond.negated {
        b.then_target
    } else {
        b.else_target
    }
}

/// The edges out of a branch lead to where its instruction goes.
pub open spec fn follows_instr(cfg: &Cfg, header: BlockRef, b: BranchInstr) -> bool {
    forall|e: EdgeRef| #[trigger]
        cfg.has_edge(e) && cfg.edge(e).from == header ==> {
            &&& cfg.edge(e).kind == EdgeKind::BranchTrue ==> cfg.edge(e).to == cfg.instr_to_block@[b.then_target.0 as int]
            &&& cfg.edge(e).kind == EdgeKind::BranchFalse ==> cfg.edge(e).to == cfg.instr_to_block@[b.else_target.0 as int]
        }
}

/// A block that ends in a branch and has the two edges of one decides: the edge for the case
/// that the subject holds is the true edge, unless the condition is negated; then it is the
/// false edge. The other edge is for the other case. No other block decides.
pub proof fn decisions_have_polarity(proto: &LoweredProto, cfg: &Cfg, header: BlockRef)
    requires
        fits(proto, cfg),
        cfg.has_block(header),
    ensures
        semantic_edges(proto, cfg, header) is Some <==> cfg.out_edges(header).len() == 2 && (exists|b: BranchInstr| #[trigger]
            ends_in(proto, cfg, header, LowInstr::Branch(b))) && exists|t: EdgeRef, f: EdgeRef| #[trigger]
            is_fork(cfg, header, t, f),
        forall|b: BranchInstr| #[trigger]
            ends_in(proto, cfg, header, LowInstr::Branch(b)) && semantic_edges(proto, cfg, header) is Some ==> {
                let (yes, no) = semantic_edges(proto, cfg, header)->0;
                &&& cfg.has_edge(yes) && cfg.edge(yes).from == header
                &&& cfg.has_edge(no) && cfg.edge(no).from == header
                &&& cfg.edge(yes).kind == (if b.cond.negated {
                    EdgeKind::BranchFalse
                } else {
                    EdgeKind::BranchTrue
                })
                &&& cfg.edge(no).kind == (if b.cond.negated {
                    EdgeKind::BranchTrue
                } else {
                    EdgeKind::BranchFalse
                })
            },
{
    match cfg.branch_edges_of(header) {
        Some((t, f)) => {
            cfg.branch_edges_by_kind(header, t, f);
            assert(is_fork(cfg, header, t, f));
        },
        None => {},
    }
    match cfg.terminator_of(proto.instrs@, header) {
        Some(LowInstr::Branch(b)) => {
            assert(ends_in(proto, cfg, header, LowInstr::Branch(b)));
        },
        _ => {},
    }
    if cfg.out_edges(header).len() == 2 && exists|t: EdgeRef, f: EdgeRef| #[trigger] is_fork(cfg, header, t, f) {
        let (t, f) = choose|t: EdgeRef, f: EdgeRef| #[trigger] is_fork(cfg, header, t, f);
        cfg.branch_edges_by_kind(header, t, f);
    }
}

/// The edge for an answer to the subject's question leads to where the instruction goes on
/// that answer.
pub proof fn decisions_follow_the_instruction(proto: &LoweredProto, cfg: &Cfg, header: BlockRef, b: BranchInstr)
    requires
        fits(proto, cfg),
        cfg.has_block(header),
        ends_in(proto, cfg, header, LowInstr::Branch(b)),
        follows_instr(cfg, header, b),
        semantic_edges(proto, cfg, header) is Some,
    ensures
        cfg.edge((semantic_edges(proto, cfg, header)->0).0).to == cfg.instr_to_block@[goes_to(b, true).0 as int],
        cfg.edge((semantic_edges(proto, cfg, header)->0).1).to == cfg.instr_to_block@[goes_to(b, false).0 as int],
{
    decisions_have_polarity(proto, cfg, header);
}

/// The exit of a condition on one side.
pub open spec fn leaves_for(exit: ShortCircuitExit, side: ShortCircuitTarget) -> Option<BlockRef> {
    match (exit, side) {
        (ShortCircuitExit::BranchExit { truthy, .. }, ShortCircuitTarget::TruthyExit) => Some(truthy),
        (ShortCircuitExit::BranchExit { falsy, .. }, ShortCircuitTarget::FalsyExit) => Some(falsy),
        _ => None,
    }
}

/// The condition of a single branch asks one question, in the branch's block. Whatever the
/// answer, it goes where the instruction goes, by an arc of the one edge that is taken then.
pub proof fn single_conditions_go_where_the_branch_goes(
    proto: &LoweredProto,
    cfg: &Cfg,
    header: BlockRef,
    b: BranchInstr,
    holds: bool,
)
    requires
        fits(proto, cfg),
        cfg.has_block(header),
        ends_in(proto, cfg, header, LowInstr::Branch(b)),
        follows_instr(cfg, header, b),
        single_condition(proto, cfg, header) is Some,
    ensures
        ({
            let c = single_condition(proto, cfg, header)->0;
            let end = after(c.s.nodes, start_of(c.s), |x: BlockRef| holds, 1);
            let goal = cfg.instr_to_block@[goes_to(b, holds).0 as int];
            &&& c.s.header == header && c.s.blocks == Set::<BlockRef>::empty().insert(header)
            &&& c.s.nodes.len() == 1 && c.s.nodes[0].header == header
            &&& leaves_for(c.s.exit, end) == Some(goal)
            &&& exists|k: int| {
                &&& 0 <= k < c.arcs.len()
                &&& (#[trigger] c.arcs[k]).truthy == holds
                &&& c.arcs[k].target == end
                &&& c.arcs[k].source == c.s.nodes[0].id
                &&& c.arcs[k].connectors.len() == 0
                &&& c.arcs[k].edges.len() == 1
                &&& cfg.edge(c.arcs[k].edges[0]).from == header
                &&& cfg.edge(c.arcs[k].edges[0]).to == goal
            }
            &&& c.arcs.len() == 2 && c.arcs[0].truthy != c.arcs[1].truthy
        }),
{
    decisions_have_polarity(proto, cfg, header);
    decisions_follow_the_instruction(proto, cfg, header, b);
    let c = single_condition(proto, cfg, header)->0;
    reveal_with_fuel(after, 2);
    assert(c.arcs[0].truthy);
    assert(!c.arcs[1].truthy);
    let k: int = if holds {
        0
    } else {
        1
    };
    assert(c.arcs[k].truthy == holds);
}

/// The block holds one instruction, a jump, and has one way on.
pub open spec fn only_jumps(proto: &LoweredProto, cfg: &Cfg, b: BlockRef) -> bool {
    &&& cfg.has_block(b) && cfg.range(b).len == 1 && cfg.out_edges(b).len() == 1
    &&& cfg.range(b).start.0 < proto.instrs@.len() && proto.instrs@[cfg.range(b).start.0 as int] is Jump
}

/// The edges lead one after the other from `from` to `to`, and from the second on each leaves
/// a block that only jumps.
pub open spec fn chain(proto: &LoweredProto, cfg: &Cfg, edges: Seq<EdgeRef>, from: BlockRef, to: BlockRef) -> bool {
    &&& edges.len() > 0
    &&& cfg.edge(edges[0]).from == from
    &&& cfg.edge(edges.last()).to == to
    &&& forall|i: int| 0 < i < edges.len() ==> #[trigger] jumps_on(proto, cfg, edges, i)
}

/// Edge `i` leaves the block to which the edge before it leads, and that block only jumps.
pub open spec fn jumps_on(proto: &LoweredProto, cfg: &Cfg, edges: Seq<EdgeRef>, i: int) -> bool {
    cfg.edge(edges[i]).from == cfg.edge(edges[i - 1]).to && only_jumps(proto, cfg, cfg.edge(edges[i]).from)
}

proof fn routes_are_chains(proto: &LoweredProto, cfg: &Cfg, first: EdgeRef, to: BlockRef, fuel: nat)
    requires
        fits(proto, cfg),
        jump_route(proto, cfg, cfg.edge(first).to, to, fuel) is Some,
    ensures
        chain(proto, cfg, seq![first] + jump_route(proto, cfg, cfg.edge(first).to, to, fuel)->0, cfg.edge(first).from, to),
    decreases fuel,
{
    let b = cfg.edge(first).to;
    let rest = jump_route(proto, cfg, b, to, fuel)->0;
    let whole = seq![first] + rest;
    if b == to {
        assert(whole.last() == first);
    } else {
        let e = passes_on(proto, cfg, b)->0;
        assert(cfg.out_edges(b)[0] == e);
        routes_are_chains(proto, cfg, e, to, (fuel - 1) as nat);
        let tail = jump_route(proto, cfg, cfg.edge(e).to, to, (fuel - 1) as nat)->0;
        let inner = seq![e] + tail;
        assert(rest =~= inner);
        assert(whole.last() == inner.last());
        assert forall|i: int| 0 < i < whole.len() implies #[trigger] jumps_on(proto, cfg, whole, i) by {
            assert(whole[i] == inner[i - 1]);
            if i > 1 {
                assert(whole[i - 1] == inner[i - 2]);
                assert(jumps_on(proto, cfg, inner, i - 1));
            }
        }
    }
}

/// Where an arc of a condition ends: at the block of the node it names, or at the condition's
/// exit on its side.
pub open spec fn ends_at(s: ShortModel, target: ShortCircuitTarget, b: BlockRef) -> bool {
    match target {
        ShortCircuitTarget::Node(n) => n.0 < s.nodes.len() && s.nodes[n.0 as int].header == b,
        _ => leaves_for(s.exit, target) == Some(b),
    }
}

/// An arc starts with the edge it was given and follows the graph, through blocks that only
/// jump, to where it ends; these blocks are the ones that it passes.
pub proof fn arcs_follow_the_graph(
    proto: &LoweredProto,
    cfg: &Cfg,
    s: ShortModel,
    source: ShortCircuitNodeRef,
    truthy: bool,
    first: EdgeRef,
    target: ShortCircuitTarget,
)
    requires
        fits(proto, cfg),
        arc_of(proto, cfg, s, source, truthy, first, target) is Some,
    ensures
        ({
            let a = arc_of(proto, cfg, s, source, truthy, first, target)->0;
            &&& a.source == source && a.truthy == truthy && a.target == target
            &&& a.edges.len() > 0 && a.edges[0] == first
            &&& ends_at(s, target, cfg.edge(a.edges.last()).to)
            &&& chain(proto, cfg, a.edges, cfg.edge(first).from, cfg.edge(a.edges.last()).to)
            &&& a.connectors.len() == a.edges.len() - 1
            &&& forall|i: int| 0 <= i < a.connectors.len() ==> #[trigger] a.connectors[i] == cfg.edge(a.edges[i]).to
        }),
{
    let a = arc_of(proto, cfg, s, source, truthy, first, target)->0;
    let end = arc_end(s, target)->0;
    routes_are_chains(proto, cfg, first, end, cfg.blocks@.len());
    let rest = jump_route(proto, cfg, cfg.edge(first).to, end, cfg.blocks@.len())->0;
    assert(a.edges == seq![first] + rest);
    assert(a.connectors == sources_of(cfg, rest));
    assert forall|i: int| 0 <= i < a.connectors.len() implies #[trigger] a.connectors[i] == cfg.edge(a.edges[i]).to by {
        assert(a.edges[i + 1] == rest[i]);
        assert(jumps_on(proto, cfg, a.edges, i + 1));
    }
}

/// The arc of node `n` for the answer `holds` starts where the branch in the node's block goes
/// on that answer, and leads to the node's target for it.
pub open spec fn is_arc_of(proto: &LoweredProto, cfg: &Cfg, s: ShortModel, n: ShortCircuitNode, holds: bool, a: ArcModel) -> bool {
    &&& a.source == n.id && a.truthy == holds
    &&& a.target == (if holds {
        n.truthy
    } else {
        n.falsy
    })
    &&& chain(proto, cfg, a.edges, n.header, cfg.edge(a.edges.last()).to)
    &&& ends_at(s, a.target, cfg.edge(a.edges.last()).to)
    &&& forall|b: BranchInstr| #[trigger]
        ends_in(proto, cfg, n.header, LowInstr::Branch(b)) ==> cfg.edge(a.edges[0]).kind == (if holds != b.cond.negated {
            EdgeKind::BranchTrue
        } else {
            EdgeKind::BranchFalse
        })
}

/// The arcs of a condition are two for each of its nodes, in their order: one for the case
/// that the node's question has the answer yes, one for the other case.
pub proof fn nodes_have_an_arc_for_each_answer(proto: &LoweredProto, cfg: &Cfg, s: ShortModel, n: nat)
    requires
        fits(proto, cfg),
        n <= s.nodes.len(),
        forall|k: int| 0 <= k < s.nodes.len() ==> cfg.has_block((#[trigger] s.nodes[k]).header),
        arcs_upto(proto, cfg, s, n) is Some,
    ensures
        ({
            let arcs = arcs_upto(proto, cfg, s, n)->0;
            &&& arcs.len() == 2 * n
            &&& forall|k: int| #![trigger s.nodes[k]]
                0 <= k < n ==> is_arc_of(proto, cfg, s, s.nodes[k], true, arcs[2 * k]) && is_arc_of(
                    proto,
                    cfg,
                    s,
                    s.nodes[k],
                    false,
                    arcs[2 * k + 1],
                )
        }),
    decreases n,
{
    if n > 0 {
        let m = (n - 1) as nat;
        nodes_have_an_arc_for_each_answer(proto, cfg, s, m);
        let before = arcs_upto(proto, cfg, s, m)->0;
        let arcs = arcs_upto(proto, cfg, s, n)->0;
        let node = s.nodes[m as int];
        let (a, b) = node_arcs(proto, cfg, s, node)->0;
        assert(arcs == before.push(a).push(b));
        let (yes, no) = semantic_edges(proto, cfg, node.header)->0;
        decisions_have_polarity(proto, cfg, node.header);
        let instr = choose|i: BranchInstr| #[trigger] ends_in(proto, cfg, node.header, LowInstr::Branch(i));
        assert(ends_in(proto, cfg, node.header, LowInstr::Branch(instr)));
        arcs_follow_the_graph(proto, cfg, s, node.id, true, yes, node.truthy);
        arcs_follow_the_graph(proto, cfg, s, node.id, false, no, node.falsy);
        assert forall|k: int| #![trigger s.nodes[k]] 0 <= k < n implies is_arc_of(
            proto,
            cfg,
            s,
            s.nodes[k],
            true,
            arcs[2 * k],
        ) && is_arc_of(proto, cfg, s, s.nodes[k], false, arcs[2 * k + 1]) by {
            if k < m {
                assert(arcs[2 * k] == before[2 * k] && arcs[2 * k + 1] == before[2 * k + 1]);
            } else {
                assert(arcs[2 * k] == a && arcs[2 * k + 1] == b);
            }
        }
    }
}

} // verus!
