//! The conditions of branches and loops: which short-circuit expressions they become.

use vstd::prelude::*;

use crate::branches::loops_wf;
use crate::cfg::Cfg;
use crate::condition_arcs::{
    arc_known, arc_models, arcs_known, is_exit_side, semantic_branch_edges, semantic_edges, ArcModel, ConditionArcEvidence,
    ShortModel,
};
use crate::dataflow::{PhiId, SsaValue};
use crate::edge_actions::{ActionModel, PreliminaryEdgeAction};
use crate::evidence::{
    LoopCandidate, LoopKindHint, ShortCircuitCandidate, ShortCircuitExit, ShortCircuitNode, ShortCircuitNodeRef,
    ShortCircuitTarget,
};
use crate::helpers::fits;
use crate::ids::{BlockRef, EdgeRef};
use crate::idset::IdSet;
use crate::lir::LoweredProto;
use crate::loop_values::{loop_models, LoopModel};
use crate::repeats::short_known;
use crate::search::{first_where, first_where_stable};

verus! {

/// A condition with the ways that its arcs take.
#[derive(Debug)]
pub struct ConditionPlanInput {
    pub candidate: ShortCircuitCandidate,
    pub arcs: Vec<ConditionArcEvidence>,
}

pub struct ConditionModel {
    pub s: ShortModel,
    pub arcs: Seq<ArcModel>,
}

impl View for ConditionPlanInput {
    type V = ConditionModel;

    open spec fn view(&self) -> ConditionModel {
        ConditionModel { s: self.candidate@, arcs: arc_models(self.arcs@) }
    }
}

pub open spec fn condition_models(list: Seq<ConditionPlanInput>) -> Seq<ConditionModel> {
    Seq::new(list.len(), |i: int| list[i]@)
}

/// A condition whose graph was found closed, with its arcs.
#[derive(Debug)]
pub struct ClosedControlDagEvidence {
    pub candidate: ShortCircuitCandidate,
    pub arcs: Vec<ConditionArcEvidence>,
}

/// Block `b` is passed by an arc.
pub open spec fn is_connector(arcs: Seq<ArcModel>, b: BlockRef) -> bool {
    exists|i: int, k: int| 0 <= i < arcs.len() && 0 <= k < arcs[i].connectors.len() && #[trigger] arcs[i].connectors[k] == b
}

/// The condition with the blocks that its arcs pass.
pub open spec fn normalized(s: ShortModel, arcs: Seq<ArcModel>) -> ConditionModel {
    ConditionModel {
        s: ShortModel { blocks: s.blocks.union(Set::new(|b: BlockRef| is_connector(arcs, b))), ..s },
        arcs,
    }
}

pub open spec fn exits_exist(cfg: &Cfg, e: ShortCircuitExit) -> bool {
    match e {
        ShortCircuitExit::BranchExit { truthy, falsy } => cfg.has_block(truthy) && cfg.has_block(falsy),
        ShortCircuitExit::ValueMerge(b) => true,
    }
}

pub open spec fn input_known(cfg: &Cfg, c: &ConditionPlanInput) -> bool {
    short_known(cfg, &c.candidate) && arcs_known(cfg, c.arcs@)
}

/// The blocks that the arcs pass.
fn collect_connectors(arcs: &Vec<ConditionArcEvidence>) -> (r: IdSet<BlockRef>)
    ensures
        r@ == Set::new(|b: BlockRef| is_connector(arc_models(arcs@), b)),
{
    let mut r: IdSet<BlockRef> = IdSet::new();
    let ghost models = arc_models(arcs@);
    let n = arcs.len();
    let mut i: usize = 0;
    while i < n
        invariant
            n == arcs@.len(),
            models == arc_models(arcs@),
            i <= n,
            forall|b: BlockRef| #[trigger] r@.contains(b) ==> is_connector(models, b),
            forall|q: int, k: int| 0 <= q < i && 0 <= k < models[q].connectors.len() ==> r@.contains(#[trigger] models[q].connectors[k]),
        decreases n - i,
    {
        let m = arcs[i].connector_blocks.len();
        assert(models[i as int] == arcs@[i as int]@);
        let mut k: usize = 0;
        while k < m
            invariant
                i < n,
                n == arcs@.len(),
                models == arc_models(arcs@),
                models[i as int] == arcs@[i as int]@,
                m == models[i as int].connectors.len(),
                k <= m,
                forall|b: BlockRef| #[trigger] r@.contains(b) ==> is_connector(models, b),
                forall|q: int, k: int| 0 <= q < i && 0 <= k < models[q].connectors.len() ==> r@.contains(#[trigger] models[q].connectors[k]),
                forall|q: int| 0 <= q < k ==> r@.contains(#[trigger] models[i as int].connectors[q]),
            decreases m - k,
        {
            let b = arcs[i].connector_blocks[k];
            assert(models[i as int].connectors[k as int] == b);
            let _ = r.insert(b);
            k = k + 1;
        }
        i = i + 1;
    }
    assert(r@ =~= Set::new(|b: BlockRef| is_connector(models, b)));
    r
}

/// Counts the blocks that the arcs pass as blocks of the condition.
pub fn normalized_condition_input(
    candidate: ShortCircuitCandidate,
    arcs: Vec<ConditionArcEvidence>,
) -> (r: ConditionPlanInput)
    ensures
        r@ == normalized(candidate@, arc_models(arcs@)),
        r.arcs == arcs,
        r.candidate.header == candidate.header,
        r.candidate.nodes == candidate.nodes,
        r.candidate.exit == candidate.exit,
{
    let more = collect_connectors(&arcs);
    let mut candidate = candidate;
    candidate.blocks.extend(&more);
    ConditionPlanInput { candidate, arcs }
}

/// The block whose condition decides over the loop.
pub open spec fn required_header(cfg: &Cfg, c: LoopModel) -> Option<BlockRef> {
    let picked = match c.kind {
        LoopKindHint::NumericForLike => None,
        LoopKindHint::GenericForLike => None,
        LoopKindHint::WhileTrueLike => None,
        LoopKindHint::RepeatLike => if c.condition_header is Some {
            c.condition_header
        } else {
            c.continue_target
        },
        _ => if c.condition_header is Some {
            c.condition_header
        } else {
            Some(c.header)
        },
    };
    match picked {
        Some(b) => if cfg.branch_edges_of(b) is Some {
            Some(b)
        } else {
            None
        },
        None => None,
    }
}

pub fn required_loop_condition_header(cfg: &Cfg, c: &LoopCandidate) -> (r: Option<BlockRef>)
    requires
        cfg.wf(),
        c.wf(cfg),
    ensures
        r == required_header(cfg, c@),
        r is Some ==> cfg.has_block(r->0),
{
    let picked = match c.kind_hint {
        LoopKindHint::NumericForLike => None,
        LoopKindHint::GenericForLike => None,
        LoopKindHint::WhileTrueLike => None,
        LoopKindHint::RepeatLike => if c.condition_header.is_some() {
            c.condition_header
        } else {
            c.continue_target
        },
        _ => if c.condition_header.is_some() {
            c.condition_header
        } else {
            Some(c.header)
        },
    };
    match picked {
        Some(b) => if cfg.branch_edges(b).is_some() {
            Some(b)
        } else {
            None
        },
        None => None,
    }
}

/// The loop holds the whole condition and is decided by it.
pub open spec fn owns_condition(cfg: &Cfg, c: LoopModel, s: ShortModel) -> bool {
    required_header(cfg, c) == Some(s.header) && forall|b: BlockRef| #[trigger]
        s.blocks.contains(b) ==> c.blocks.contains(b) || c.scope.contains(b) || c.control.contains(b)
}

/// Some loop with header `h` owns the condition.
pub open spec fn owned_at(cfg: &Cfg, loops: Seq<LoopModel>, s: ShortModel, h: BlockRef) -> bool {
    exists|i: int| 0 <= i < loops.len() && owns_condition(cfg, #[trigger] loops[i], s) && loops[i].header == h
}

/// Loop `j` is decided by an inner block of the condition, though it does not own it.
pub open spec fn crosses_loop(cfg: &Cfg, loops: Seq<LoopModel>, s: ShortModel, j: int) -> bool {
    match required_header(cfg, loops[j]) {
        Some(b) => s.blocks.contains(b) && b != s.header && !owned_at(cfg, loops, s, loops[j].header),
        None => false,
    }
}

pub open spec fn crosses_some_loop(cfg: &Cfg, loops: Seq<LoopModel>, s: ShortModel) -> bool {
    exists|j: int| 0 <= j < loops.len() && #[trigger] crosses_loop(cfg, loops, s, j)
}

fn check_owns(cfg: &Cfg, c: &LoopCandidate, s: &ShortCircuitCandidate) -> (r: bool)
    requires
        cfg.wf(),
        c.wf(cfg),
    ensures
        r == owns_condition(cfg, c@, s@),
{
    match required_loop_condition_header(cfg, c) {
        Some(b) => if b != s.header {
            return false;
        },
        None => {
            return false;
        },
    }
    let n = s.blocks.len();
    let mut i: usize = 0;
    while i < n
        invariant
            n == s.blocks.seq().len(),
            i <= n,
            forall|k: int|
                0 <= k < i ==> c.blocks@.contains(#[trigger] s.blocks.seq()[k]) || c.body_scope_blocks@.contains(s.blocks.seq()[k])
                    || c.control_blocks@.contains(s.blocks.seq()[k]),
        decreases n - i,
    {
        let b = s.blocks.at(i);
        if !(c.blocks.contains(b) || c.body_scope_blocks.contains(b) || c.control_blocks.contains(b)) {
            assert(s@.blocks.contains(b));
            return false;
        }
        i = i + 1;
    }
    assert forall|b: BlockRef| #[trigger] s@.blocks.contains(b) implies c@.blocks.contains(b) || c@.scope.contains(b)
        || c@.control.contains(b) by {
        assert(s.blocks.seq().contains(b));
        assert(s.blocks.seq()[s.blocks.seq().index_of(b)] == b);
    }
    true
}

fn check_owned_at(cfg: &Cfg, loops: &Vec<LoopCandidate>, s: &ShortCircuitCandidate, h: BlockRef) -> (r: bool)
    requires
        cfg.wf(),
        loops_wf(cfg, loops@),
    ensures
        r == owned_at(cfg, loop_models(loops@), s@, h),
{
    let n = loops.len();
    let ghost models = loop_models(loops@);
    let mut i: usize = 0;
    while i < n
        invariant
            cfg.wf(),
            loops_wf(cfg, loops@),
            n == loops@.len(),
            models == loop_models(loops@),
            i <= n,
            forall|k: int| 0 <= k < i ==> !(owns_condition(cfg, #[trigger] models[k], s@) && models[k].header == h),
        decreases n - i,
    {
        assert(models[i as int] == loops@[i as int]@);
        assert(loops@[i as int].wf(cfg));
        if loops[i].header == h && check_owns(cfg, &loops[i], s) {
            assert(owns_condition(cfg, models[i as int], s@));
            return true;
        }
        i = i + 1;
    }
    false
}

/// Whether the condition runs across a block that decides over another loop.
pub fn condition_crosses_foreign_loop_header(
    cfg: &Cfg,
    candidate: &ShortCircuitCandidate,
    loops: &Vec<LoopCandidate>,
) -> (r: bool)
    requires
        cfg.wf(),
        loops_wf(cfg, loops@),
    ensures
        r == crosses_some_loop(cfg, loop_models(loops@), candidate@),
{
    let n = loops.len();
    let ghost models = loop_models(loops@);
    let mut j: usize = 0;
    while j < n
        invariant
            cfg.wf(),
            loops_wf(cfg, loops@),
            n == loops@.len(),
            models == loop_models(loops@),
            j <= n,
            forall|k: int| 0 <= k < j ==> !#[trigger] crosses_loop(cfg, models, candidate@, k),
        decreases n - j,
    {
        assert(models[j as int] == loops@[j as int]@);
        assert(loops@[j as int].wf(cfg));
        if let Some(b) = required_loop_condition_header(cfg, &loops[j]) {
            if candidate.blocks.contains(b) && b != candidate.header && !check_owned_at(cfg, loops, candidate, loops[j].header) {
                assert(crosses_loop(cfg, models, candidate@, j as int));
                return true;
            }
        }
        j = j + 1;
    }
    false
}

pub open spec fn to_side(arcs: Seq<ArcModel>, side: ShortCircuitTarget) -> spec_fn(int) -> bool {
    |i: int| arcs[i].target == side
}

/// What the last edge of an arc does.
pub open spec fn last_action(actions: Seq<ActionModel>, a: ArcModel) -> ActionModel {
    actions[a.edges.last().0 as int]
}

/// The arcs to one side, of which there is at least one, all end by doing the same; where
/// there are several, they do not jump.
pub open spec fn side_uniform(c: ConditionModel, actions: Seq<ActionModel>, side: ShortCircuitTarget) -> bool {
    match first_where(c.arcs.len(), to_side(c.arcs, side)) {
        Some(first) => forall|j: int|
            first < j < c.arcs.len() && (#[trigger] c.arcs[j]).target == side ==> {
                let a = last_action(actions, c.arcs[j]);
                a == last_action(actions, c.arcs[first]) && a.goto is None && !a.continues
            },
        None => false,
    }
}

/// The arc takes an edge, yields no value, and where it leaves the condition, it is known
/// what its last edge does.
pub open spec fn arc_ends(a: ArcModel, actions: Seq<ActionModel>) -> bool {
    a.edges.len() > 0 && !(a.target is Value) && (is_exit_side(a.target) ==> a.edges.last().0 < actions.len())
}

/// Every arc comes to an end, and the condition ends on either side in one way.
pub open spec fn is_uniform(c: ConditionModel, actions: Seq<ActionModel>) -> bool {
    &&& forall|i: int| 0 <= i < c.arcs.len() ==> arc_ends(#[trigger] c.arcs[i], actions)
    &&& side_uniform(c, actions, ShortCircuitTarget::TruthyExit)
    &&& side_uniform(c, actions, ShortCircuitTarget::FalsyExit)
}

pub open spec fn action_models(list: Seq<PreliminaryEdgeAction>) -> Seq<ActionModel> {
    Seq::new(list.len(), |i: int| list[i]@)
}

pub fn same_inputs(a: &Vec<(PhiId, SsaValue)>, b: &Vec<(PhiId, SsaValue)>) -> (r: bool)
    ensures
        r == (a@ == b@),
{
    let n = a.len();
    if b.len() != n {
        return false;
    }
    let mut i: usize = 0;
    while i < n
        invariant
            n == a@.len(),
            n == b@.len(),
            i <= n,
            forall|k: int| 0 <= k < i ==> a@[k] == b@[k],
        decreases n - i,
    {
        if a[i].0 != b[i].0 || a[i].1 != b[i].1 {
            assert(a@[i as int] != b@[i as int]);
            return false;
        }
        assert(a@[i as int] == b@[i as int]);
        i = i + 1;
    }
    assert(a@ =~= b@);
    true
}

fn same_iteration(a: &PreliminaryEdgeAction, b: &PreliminaryEdgeAction) -> (r: bool)
    ensures
        r == (a.iteration == b.iteration),
{
    match (a.iteration, b.iteration) {
        (Some(x), Some(y)) => x == y,
        (None, None) => true,
        _ => false,
    }
}

fn same_goto(a: &PreliminaryEdgeAction, b: &PreliminaryEdgeAction) -> (r: bool)
    ensures
        r == (a.goto == b.goto),
{
    match (a.goto, b.goto) {
        (Some(x), Some(y)) => x == y,
        (None, None) => true,
        _ => false,
    }
}

fn same_action(a: &PreliminaryEdgeAction, b: &PreliminaryEdgeAction) -> (r: bool)
    ensures
        r == (a@ == b@),
{
    same_goto(a, b) && a.has_continue_evidence == b.has_continue_evidence && same_iteration(a, b) && same_inputs(
        &a.phi_inputs,
        &b.phi_inputs,
    )
}

fn check_side_uniform(
    cfg: &Cfg,
    c: &ConditionPlanInput,
    actions: &Vec<PreliminaryEdgeAction>,
    side: ShortCircuitTarget,
) -> (r: bool)
    requires
        arcs_known(cfg, c.arcs@),
        is_exit_side(side),
        actions@.len() == cfg.edges@.len(),
    ensures
        r == side_uniform(c@, action_models(actions@), side),
{
    let n = c.arcs.len();
    let ghost arcs = c@.arcs;
    let ghost p = to_side(arcs, side);
    let ghost models = action_models(actions@);
    let mut first: Option<usize> = None;
    let mut i: usize = 0;
    while i < n
        invariant
            arcs_known(cfg, c.arcs@),
            is_exit_side(side),
            actions@.len() == cfg.edges@.len(),
            models == action_models(actions@),
            n == c.arcs@.len(),
            arcs == c@.arcs,
            p == to_side(arcs, side),
            i <= n,
            match first {
                None => first_where(i as nat, p) is None,
                Some(f) => first_where(i as nat, p) == Some(f as int) && f < i && arcs[f as int].target == side && forall|j: int|
                    f < j < i && (#[trigger] arcs[j]).target == side ==> {
                        let a = last_action(models, arcs[j]);
                        a == last_action(models, arcs[f as int]) && a.goto is None && !a.continues
                    },
            },
        decreases n - i,
    {
        assert(arcs[i as int] == c.arcs@[i as int]@);
        assert(p(i as int) == (c.arcs@[i as int].target == side));
        if c.arcs[i].target == side {
            assert(arc_known(cfg, c.arcs@[i as int]@));
            let m = c.arcs[i].edges.len();
            let e = c.arcs[i].edges[m - 1];
            assert(e == arcs[i as int].edges.last());
            match first {
                None => {
                    first = Some(i);
                },
                Some(f) => {
                    assert(arcs[f as int] == c.arcs@[f as int]@);
                    assert(arc_known(cfg, c.arcs@[f as int]@));
                    let k = c.arcs[f].edges.len();
                    let g = c.arcs[f].edges[k - 1];
                    assert(g == arcs[f as int].edges.last());
                    let a = &actions[e.0];
                    assert(last_action(models, arcs[i as int]) == a@);
                    assert(last_action(models, arcs[f as int]) == actions@[g.0 as int]@);
                    if !same_action(a, &actions[g.0]) || a.goto.is_some() || a.has_continue_evidence {
                        proof {
                            first_where_stable(i as nat, n as nat, p);
                        }
                        return false;
                    }
                },
            }
        }
        i = i + 1;
    }
    first.is_some()
}

/// Whether the condition ends on either side in one way.
pub fn condition_terminal_actions_are_uniform(
    cfg: &Cfg,
    c: &ConditionPlanInput,
    actions: &Vec<PreliminaryEdgeAction>,
) -> (r: bool)
    requires
        actions@.len() == cfg.edges@.len(),
    ensures
        r == is_uniform(c@, action_models(actions@)),
        r ==> arcs_known(cfg, c.arcs@),
{
    let n = c.arcs.len();
    let mut i: usize = 0;
    while i < n
        invariant
            actions@.len() == cfg.edges@.len(),
            n == c.arcs@.len(),
            i <= n,
            forall|k: int| 0 <= k < i ==> arc_ends(#[trigger] c@.arcs[k], action_models(actions@)),
        decreases n - i,
    {
        assert(c@.arcs[i as int] == c.arcs@[i as int]@);
        let m = c.arcs[i].edges.len();
        let exits = match c.arcs[i].target {
            ShortCircuitTarget::TruthyExit | ShortCircuitTarget::FalsyExit => true,
            _ => false,
        };
        let yields = match c.arcs[i].target {
            ShortCircuitTarget::Value(_) => true,
            _ => false,
        };
        if m == 0 || yields || (exits && c.arcs[i].edges[m - 1].0 >= actions.len()) {
            assert(!arc_ends(c@.arcs[i as int], action_models(actions@)));
            return false;
        }
        assert(arc_ends(c@.arcs[i as int], action_models(actions@)));
        i = i + 1;
    }
    proof {
        assert forall|k: int| 0 <= k < c.arcs@.len() implies arc_known(cfg, (#[trigger] c.arcs@[k])@) by {
            assert(c@.arcs[k] == c.arcs@[k]@);
            assert(arc_ends(c@.arcs[k], action_models(actions@)));
        }
    }
    check_side_uniform(cfg, c, actions, ShortCircuitTarget::TruthyExit) && check_side_uniform(
        cfg,
        c,
        actions,
        ShortCircuitTarget::FalsyExit,
    )
}

/// The condition that a single branch asks.
pub open spec fn single_condition(proto: &LoweredProto, cfg: &Cfg, h: BlockRef) -> Option<ConditionModel> {
    match semantic_edges(proto, cfg, h) {
        Some((t, f)) => Some(
            ConditionModel {
                s: ShortModel {
                    header: h,
                    blocks: Set::empty().insert(h),
                    entry: ShortCircuitNodeRef(0),
                    nodes: seq![
                        ShortCircuitNode {
                            id: ShortCircuitNodeRef(0),
                            header: h,
                            truthy: ShortCircuitTarget::TruthyExit,
                            falsy: ShortCircuitTarget::FalsyExit,
                        },
                    ],
                    exit: ShortCircuitExit::BranchExit { truthy: cfg.edge(t).to, falsy: cfg.edge(f).to },
                    result_reg: None,
                    result_phi_id: None,
                    entry_value: None,
                    value_incomings: Seq::empty(),
                    reducible: true,
                },
                arcs: seq![
                    ArcModel {
                        source: ShortCircuitNodeRef(0),
                        truthy: true,
                        edges: seq![t],
                        connectors: Seq::empty(),
                        target: ShortCircuitTarget::TruthyExit,
                    },
                    ArcModel {
                        source: ShortCircuitNodeRef(0),
                        truthy: false,
                        edges: seq![f],
                        connectors: Seq::empty(),
                        target: ShortCircuitTarget::FalsyExit,
                    },
                ],
            },
        ),
        None => None,
    }
}

fn single_arc(truthy: bool, edge: EdgeRef, target: ShortCircuitTarget) -> (r: ConditionArcEvidence)
    ensures
        r@ == (ArcModel {
            source: ShortCircuitNodeRef(0),
            truthy,
            edges: seq![edge],
            connectors: Seq::empty(),
            target,
        }),
{
    let mut edges: Vec<EdgeRef> = Vec::new();
    edges.push(edge);
    let r = ConditionArcEvidence { source: ShortCircuitNodeRef(0), truthy, edges, connector_blocks: Vec::new(), target };
    assert(r.edges@ =~= seq![edge]);
    assert(r.connector_blocks@ =~= Seq::empty());
    r
}

pub fn simple_condition_input(proto: &LoweredProto, cfg: &Cfg, header: BlockRef) -> (r: Option<ConditionPlanInput>)
    requires
        fits(proto, cfg),
        cfg.has_block(header),
    ensures
        match single_condition(proto, cfg, header) {
            Some(m) => r is Some && (r->0)@ == m,
            None => r is None,
        },
        r is Some ==> input_known(cfg, &(r->0)),
{
    match semantic_branch_edges(proto, cfg, header) {
        Some((t, f)) => {
            let mut nodes: Vec<ShortCircuitNode> = Vec::new();
            nodes.push(
                ShortCircuitNode {
                    id: ShortCircuitNodeRef(0),
                    header,
                    truthy: ShortCircuitTarget::TruthyExit,
                    falsy: ShortCircuitTarget::FalsyExit,
                },
            );
            let candidate = ShortCircuitCandidate {
                header,
                blocks: IdSet::singleton(header),
                entry: ShortCircuitNodeRef(0),
                nodes,
                exit: ShortCircuitExit::BranchExit { truthy: cfg.edges[t.0].to, falsy: cfg.edges[f.0].to },
                result_reg: None,
                result_phi_id: None,
                entry_value: None,
                value_incomings: Vec::new(),
                reducible: true,
            };
            let mut arcs: Vec<ConditionArcEvidence> = Vec::new();
            arcs.push(single_arc(true, t, ShortCircuitTarget::TruthyExit));
            arcs.push(single_arc(false, f, ShortCircuitTarget::FalsyExit));
            proof {
                let m = single_condition(proto, cfg, header)->0;
                assert(candidate.nodes@ =~= m.s.nodes);
                assert(candidate.value_incomings@ =~= Seq::empty());
                assert(arc_models(arcs@) =~= m.arcs);
                assert(arcs@[0]@ == m.arcs[0]);
                assert(arcs@[1]@ == m.arcs[1]);
            }
            Some(ConditionPlanInput { candidate, arcs })
        },
        None => None,
    }
}

} // verus!
