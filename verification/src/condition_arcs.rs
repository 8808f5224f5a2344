//! The ways that the arcs of a condition take through the graph.

use vstd::prelude::*;

use crate::cfg::{Cfg, EdgeKind};
use crate::dataflow::{PhiId, SsaValue};
use crate::evidence::{
    ShortCircuitCandidate, ShortCircuitExit, ShortCircuitNode, ShortCircuitNodeRef, ShortCircuitTarget,
    ShortCircuitValueIncoming,
};
use crate::helpers::{fits, ranges_fit};
use crate::ids::{BlockRef, EdgeRef, Reg};
use crate::lir::{LowInstr, LoweredProto};
use crate::repeats::short_known;

verus! {

/// A short-circuit expression by its contents.
pub struct ShortModel {
    pub header: BlockRef,
    pub blocks: Set<BlockRef>,
    pub entry: ShortCircuitNodeRef,
    pub nodes: Seq<ShortCircuitNode>,
    pub exit: ShortCircuitExit,
    pub result_reg: Option<Reg>,
    pub result_phi_id: Option<PhiId>,
    pub entry_value: Option<SsaValue>,
    pub value_incomings: Seq<ShortCircuitValueIncoming>,
    pub reducible: bool,
}

impl View for ShortCircuitCandidate {
    type V = ShortModel;

    open spec fn view(&self) -> ShortModel {
        ShortModel {
            header: self.header,
            blocks: self.blocks@,
            entry: self.entry,
            nodes: self.nodes@,
            exit: self.exit,
            result_reg: self.result_reg,
            result_phi_id: self.result_phi_id,
            entry_value: self.entry_value,
            value_incomings: self.value_incomings@,
            reducible: self.reducible,
        }
    }
}

/// One arc of a condition: the edges that it takes, and the blocks that it passes.
#[derive(Debug)]
pub struct ConditionArcEvidence {
    pub source: ShortCircuitNodeRef,
    pub truthy: bool,
    pub edges: Vec<EdgeRef>,
    pub connector_blocks: Vec<BlockRef>,
    pub target: ShortCircuitTarget,
}

pub struct ArcModel {
    pub source: ShortCircuitNodeRef,
    pub truthy: bool,
    pub edges: Seq<EdgeRef>,
    pub connectors: Seq<BlockRef>,
    pub target: ShortCircuitTarget,
}

impl View for ConditionArcEvidence {
    type V = ArcModel;

    open spec fn view(&self) -> ArcModel {
        ArcModel {
            source: self.source,
            truthy: self.truthy,
            edges: self.edges@,
            connectors: self.connector_blocks@,
            target: self.target,
        }
    }
}

pub open spec fn arc_models(list: Seq<ConditionArcEvidence>) -> Seq<ArcModel> {
    Seq::new(list.len(), |i: int| list[i]@)
}

/// The block does nothing but jump on; the edge that it takes.
pub open spec fn passes_on(proto: &LoweredProto, cfg: &Cfg, b: BlockRef) -> Option<EdgeRef> {
    if cfg.has_block(b) && cfg.out_edges(b).len() == 1 && cfg.range(b).len == 1 && cfg.range(b).start.0 < proto.instrs@.len()
        && proto.instrs@[cfg.range(b).start.0 as int] is Jump && cfg.edge(cfg.out_edges(b)[0]).kind == EdgeKind::Jump {
        Some(cfg.out_edges(b)[0])
    } else {
        None
    }
}

/// The edges by which blocks that only jump on lead from `b` to `to`, over at most `fuel`
/// such blocks.
pub open spec fn jump_route(proto: &LoweredProto, cfg: &Cfg, b: BlockRef, to: BlockRef, fuel: nat) -> Option<Seq<EdgeRef>>
    decreases fuel,
{
    if b == to {
        Some(Seq::empty())
    } else if fuel == 0 {
        None
    } else {
        match passes_on(proto, cfg, b) {
            Some(e) => match jump_route(proto, cfg, cfg.edge(e).to, to, (fuel - 1) as nat) {
                Some(rest) => Some(seq![e] + rest),
                None => None,
            },
            None => None,
        }
    }
}

pub open spec fn sources_of(cfg: &Cfg, edges: Seq<EdgeRef>) -> Seq<BlockRef> {
    Seq::new(edges.len(), |i: int| cfg.edge(edges[i]).from)
}

/// The block at which an arc ends; an arc to a value has none.
pub open spec fn arc_end(s: ShortModel, target: ShortCircuitTarget) -> Option<BlockRef> {
    match target {
        ShortCircuitTarget::Node(n) => if n.0 < s.nodes.len() {
            Some(s.nodes[n.0 as int].header)
        } else {
            None
        },
        ShortCircuitTarget::TruthyExit => match s.exit {
            ShortCircuitExit::BranchExit { truthy, .. } => Some(truthy),
            ShortCircuitExit::ValueMerge(_) => None,
        },
        ShortCircuitTarget::FalsyExit => match s.exit {
            ShortCircuitExit::BranchExit { falsy, .. } => Some(falsy),
            ShortCircuitExit::ValueMerge(_) => None,
        },
        ShortCircuitTarget::Value(_) => None,
    }
}

/// The arc that starts with edge `first`.
pub open spec fn arc_of(
    proto: &LoweredProto,
    cfg: &Cfg,
    s: ShortModel,
    source: ShortCircuitNodeRef,
    truthy: bool,
    first: EdgeRef,
    target: ShortCircuitTarget,
) -> Option<ArcModel> {
    match arc_end(s, target) {
        Some(end) => match jump_route(proto, cfg, cfg.edge(first).to, end, cfg.blocks@.len()) {
            Some(rest) => Some(
                ArcModel { source, truthy, edges: seq![first] + rest, connectors: sources_of(cfg, rest), target },
            ),
            None => None,
        },
        None => None,
    }
}

/// The edges that a block takes when its condition holds, and when it does not.
pub open spec fn semantic_edges(proto: &LoweredProto, cfg: &Cfg, header: BlockRef) -> Option<(EdgeRef, EdgeRef)> {
    match (cfg.branch_edges_of(header), cfg.terminator_of(proto.instrs@, header)) {
        (Some((t, f)), Some(LowInstr::Branch(b))) => if b.cond.negated {
            Some((f, t))
        } else {
            Some((t, f))
        },
        _ => None,
    }
}

/// The two arcs of a node.
pub open spec fn node_arcs(
    proto: &LoweredProto,
    cfg: &Cfg,
    s: ShortModel,
    n: ShortCircuitNode,
) -> Option<(ArcModel, ArcModel)> {
    match semantic_edges(proto, cfg, n.header) {
        Some((t, f)) => match (
            arc_of(proto, cfg, s, n.id, true, t, n.truthy),
            arc_of(proto, cfg, s, n.id, false, f, n.falsy),
        ) {
            (Some(a), Some(b)) => Some((a, b)),
            _ => None,
        },
        None => None,
    }
}

/// The arcs of the first `n` nodes, when all of them exist.
pub open spec fn arcs_upto(proto: &LoweredProto, cfg: &Cfg, s: ShortModel, n: nat) -> Option<Seq<ArcModel>>
    decreases n,
{
    if n == 0 {
        Some(Seq::empty())
    } else {
        match (arcs_upto(proto, cfg, s, (n - 1) as nat), node_arcs(proto, cfg, s, s.nodes[n - 1])) {
            (Some(rest), Some((a, b))) => Some(rest.push(a).push(b)),
            _ => None,
        }
    }
}

pub fn semantic_branch_edges(proto: &LoweredProto, cfg: &Cfg, header: BlockRef) -> (r: Option<(EdgeRef, EdgeRef)>)
    requires
        fits(proto, cfg),
        cfg.has_block(header),
    ensures
        r == semantic_edges(proto, cfg, header),
        r is Some ==> cfg.has_edge((r->0).0) && cfg.has_edge((r->0).1) && cfg.edge((r->0).0).from == header && cfg.edge(
            (r->0).1,
        ).from == header,
{
    proof {
        ranges_fit(proto, cfg, header);
    }
    match cfg.branch_edges(header) {
        Some((t, f)) => match cfg.terminator(proto.instrs.as_slice(), header) {
            Some(LowInstr::Branch(b)) => if b.cond.negated {
                Some((f, t))
            } else {
                Some((t, f))
            },
            _ => None,
        },
        None => None,
    }
}

fn find_passes_on(proto: &LoweredProto, cfg: &Cfg, b: BlockRef) -> (r: Option<EdgeRef>)
    requires
        fits(proto, cfg),
        cfg.has_block(b),
    ensures
        r == passes_on(proto, cfg, b),
        r is Some ==> cfg.has_edge(r->0) && cfg.edge(r->0).from == b,
{
    let range = cfg.blocks[b.0].instrs;
    if cfg.succs[b.0].len() != 1 || range.len != 1 || range.start.0 >= proto.instrs.len() {
        return None;
    }
    let e = cfg.succs[b.0][0];
    assert(e == cfg.out_edges(b)[0]);
    match proto.instrs[range.start.0] {
        LowInstr::Jump(_) => if cfg.edges[e.0].kind == EdgeKind::Jump {
            Some(e)
        } else {
            None
        },
        _ => None,
    }
}

/// Follows an arc through the blocks that only jump on.
pub fn synthesize_direct_condition_arc(
    proto: &LoweredProto,
    cfg: &Cfg,
    condition: &ShortCircuitCandidate,
    source: ShortCircuitNodeRef,
    truthy: bool,
    first_edge: EdgeRef,
    target: ShortCircuitTarget,
) -> (r: Option<ConditionArcEvidence>)
    requires
        fits(proto, cfg),
        cfg.has_edge(first_edge),
    ensures
        match arc_of(proto, cfg, condition@, source, truthy, first_edge, target) {
            Some(a) => r is Some && (r->0)@ == a,
            None => r is None,
        },
        r is Some ==> arc_known(cfg, (r->0)@),
{
    let expected = match target {
        ShortCircuitTarget::Node(n) => if n.0 < condition.nodes.len() {
            condition.nodes[n.0].header
        } else {
            return None;
        },
        ShortCircuitTarget::TruthyExit => match condition.exit {
            ShortCircuitExit::BranchExit { truthy, .. } => truthy,
            ShortCircuitExit::ValueMerge(_) => {
                return None;
            },
        },
        ShortCircuitTarget::FalsyExit => match condition.exit {
            ShortCircuitExit::BranchExit { falsy, .. } => falsy,
            ShortCircuitExit::ValueMerge(_) => {
                return None;
            },
        },
        ShortCircuitTarget::Value(_) => {
            return None;
        },
    };
    let mut edges: Vec<EdgeRef> = Vec::new();
    edges.push(first_edge);
    let mut connector_blocks: Vec<BlockRef> = Vec::new();
    let mut block = cfg.edges[first_edge.0].to;
    let mut fuel: usize = cfg.blocks.len();
    let ghost start = block;
    let ghost taken: Seq<EdgeRef> = Seq::empty();
    while block != expected
        invariant
            fits(proto, cfg),
            cfg.has_edge(first_edge),
            cfg.has_block(block),
            arc_end(condition@, target) == Some(expected),
            start == cfg.edge(first_edge).to,
            edges@ =~= seq![first_edge] + taken,
            connector_blocks@ =~= sources_of(cfg, taken),
            forall|i: int| 0 <= i < taken.len() ==> cfg.has_edge(#[trigger] taken[i]),
            jump_route(proto, cfg, start, expected, cfg.blocks@.len()) == match jump_route(proto, cfg, block, expected, fuel as nat) {
                Some(rest) => Some(taken + rest),
                None => None,
            },
        decreases fuel,
    {
        if fuel == 0 {
            return None;
        }
        match find_passes_on(proto, cfg, block) {
            Some(e) => {
                let ghost before = taken;
                edges.push(e);
                connector_blocks.push(block);
                proof {
                    taken = taken.push(e);
                    assert(connector_blocks@ =~= sources_of(cfg, taken));
                    match jump_route(proto, cfg, cfg.edge(e).to, expected, (fuel - 1) as nat) {
                        Some(rest) => {
                            assert(before + (seq![e] + rest) =~= taken + rest);
                        },
                        None => {},
                    }
                }
                block = cfg.edges[e.0].to;
                fuel = fuel - 1;
            },
            None => {
                return None;
            },
        }
    }
    proof {
        assert(taken + Seq::<EdgeRef>::empty() =~= taken);
    }
    Some(ConditionArcEvidence { source, truthy, edges, connector_blocks, target })
}

/// The target is one of the two exits.
pub open spec fn is_exit_side(t: ShortCircuitTarget) -> bool {
    t == ShortCircuitTarget::TruthyExit || t == ShortCircuitTarget::FalsyExit
}

/// The arc takes at least one edge, and where it leaves the condition, its last edge exists.
pub open spec fn arc_known(cfg: &Cfg, a: ArcModel) -> bool {
    a.edges.len() > 0 && (is_exit_side(a.target) ==> cfg.has_edge(a.edges.last()))
}

pub open spec fn arcs_known(cfg: &Cfg, list: Seq<ConditionArcEvidence>) -> bool {
    forall|i: int| 0 <= i < list.len() ==> arc_known(cfg, (#[trigger] list[i])@)
}

/// The arcs of all nodes, node by node; none when one of them cannot be followed.
pub fn synthesize_direct_condition_arcs(proto: &LoweredProto, cfg: &Cfg, condition: &ShortCircuitCandidate) -> (r: Option<
    Vec<ConditionArcEvidence>,
>)
    requires
        fits(proto, cfg),
        short_known(cfg, condition),
    ensures
        match arcs_upto(proto, cfg, condition@, condition.nodes@.len()) {
            Some(a) => r is Some && arc_models((r->0)@) == a,
            None => r is None,
        },
        r is Some ==> arcs_known(cfg, (r->0)@),
{
    let n = condition.nodes.len();
    let mut arcs: Vec<ConditionArcEvidence> = Vec::new();
    assert(arc_models(arcs@) =~= Seq::<ArcModel>::empty());
    let mut i: usize = 0;
    while i < n
        invariant
            fits(proto, cfg),
            short_known(cfg, condition),
            n == condition.nodes@.len(),
            i <= n,
            arcs_upto(proto, cfg, condition@, i as nat) == Some(arc_models(arcs@)),
            arcs_known(cfg, arcs@),
        decreases n - i,
    {
        let node = condition.nodes[i];
        assert(cfg.has_block(condition.nodes@[i as int].header));
        let ghost before = arcs@;
        let pair = node_pair(proto, cfg, condition, node);
        proof {
            if pair is None {
                arcs_stop(proto, cfg, condition@, (i + 1) as nat, n as nat);
            }
        }
        match pair {
            Some((a, b)) => {
                arcs.push(a);
                arcs.push(b);
                assert(arc_models(arcs@) =~= arc_models(before).push(a@).push(b@));
            },
            None => {
                return None;
            },
        }
        i = i + 1;
    }
    Some(arcs)
}

fn node_pair(proto: &LoweredProto, cfg: &Cfg, condition: &ShortCircuitCandidate, node: ShortCircuitNode) -> (r: Option<
    (ConditionArcEvidence, ConditionArcEvidence),
>)
    requires
        fits(proto, cfg),
        cfg.has_block(node.header),
    ensures
        match node_arcs(proto, cfg, condition@, node) {
            Some((a, b)) => r is Some && (r->0).0@ == a && (r->0).1@ == b,
            None => r is None,
        },
        r is Some ==> arc_known(cfg, (r->0).0@) && arc_known(cfg, (r->0).1@),
{
    match semantic_branch_edges(proto, cfg, node.header) {
        Some((t, f)) => match synthesize_direct_condition_arc(proto, cfg, condition, node.id, true, t, node.truthy) {
            Some(a) => match synthesize_direct_condition_arc(proto, cfg, condition, node.id, false, f, node.falsy) {
                Some(b) => Some((a, b)),
                None => None,
            },
            None => None,
        },
        None => None,
    }
}

proof fn arcs_stop(proto: &LoweredProto, cfg: &Cfg, s: ShortModel, m: nat, n: nat)
    requires
        m <= n,
        arcs_upto(proto, cfg, s, m) is None,
    ensures
        arcs_upto(proto, cfg, s, n) is None,
    decreases n,
{
    if m < n {
        arcs_stop(proto, cfg, s, m, (n - 1) as nat);
    }
}

} // verus!
