//! What every edge does before anything has been decided: the values that it hands over, and
//! whether it repeats or continues a loop.

use vstd::prelude::*;

use crate::cfg::Cfg;
use crate::dataflow::{PhiCandidate, PhiId, SsaValue};
use crate::evidence::{GotoReason, GotoRequirement, LoopCandidate};
use crate::ids::{BlockRef, EdgeRef};
use crate::loop_values::{loop_models, LoopModel};

verus! {

#[derive(Debug, Clone, Copy, PartialEq, Eq, Structural)]
pub enum PreliminaryIteration {
    LoopBack(BlockRef),
    Continue(BlockRef),
    Conflicting,
}

#[derive(Debug)]
pub struct PreliminaryEdgeAction {
    pub goto: Option<GotoReason>,
    pub has_continue_evidence: bool,
    pub iteration: Option<PreliminaryIteration>,
    pub phi_inputs: Vec<(PhiId, SsaValue)>,
}

pub struct ActionModel {
    pub goto: Option<GotoReason>,
    pub continues: bool,
    pub iteration: Option<PreliminaryIteration>,
    pub phi_inputs: Seq<(PhiId, SsaValue)>,
}

impl View for PreliminaryEdgeAction {
    type V = ActionModel;

    open spec fn view(&self) -> ActionModel {
        ActionModel {
            goto: self.goto,
            continues: self.has_continue_evidence,
            iteration: self.iteration,
            phi_inputs: self.phi_inputs@,
        }
    }
}

/// The reason that the last of the first `n` transfers gives for an edge.
pub open spec fn last_reason(list: Seq<GotoRequirement>, e: EdgeRef, n: nat) -> Option<GotoReason>
    decreases n,
{
    if n == 0 {
        None
    } else if list[n - 1].edge == e {
        Some(list[n - 1].reason)
    } else {
        last_reason(list, e, (n - 1) as nat)
    }
}

/// Two different roles conflict.
pub open spec fn noted(old: Option<PreliminaryIteration>, new: PreliminaryIteration) -> Option<PreliminaryIteration> {
    if old is None || old == Some(new) {
        Some(new)
    } else {
        Some(PreliminaryIteration::Conflicting)
    }
}

/// The edges by which the first `n` loops repeat.
pub open spec fn repeats_of(loops: Seq<LoopModel>, e: EdgeRef, n: nat) -> Option<PreliminaryIteration>
    decreases n,
{
    if n == 0 {
        None
    } else {
        let rest = repeats_of(loops, e, (n - 1) as nat);
        if loops[n - 1].backedges.contains(e) {
            noted(rest, PreliminaryIteration::LoopBack(loops[n - 1].header))
        } else {
            rest
        }
    }
}

pub open spec fn in_body(c: LoopModel, b: BlockRef) -> bool {
    c.blocks.contains(b) || c.scope.contains(b)
}

/// Another way out of the same block stays in the loop.
pub open spec fn stays_otherwise(cfg: &Cfg, c: LoopModel, e: EdgeRef) -> bool {
    cfg.out_edges(cfg.edge(e).from).len() > 1 && exists|k: int|
        0 <= k < cfg.out_edges(cfg.edge(e).from).len() && (#[trigger] cfg.out_edges(cfg.edge(e).from)[k]) != e && in_body(
            c,
            cfg.edge(cfg.out_edges(cfg.edge(e).from)[k]).to,
        )
}

/// The edge jumps from the body to where the loop continues, on a condition.
pub open spec fn skips_ahead(cfg: &Cfg, c: LoopModel, e: EdgeRef) -> bool {
    c.continue_target == Some(cfg.edge(e).to) && in_body(c, cfg.edge(e).from) && stays_otherwise(cfg, c, e)
        && !c.backedges.contains(e)
}

/// The edge continues the loop.
pub open spec fn continues_loop(cfg: &Cfg, c: LoopModel, e: EdgeRef) -> bool {
    c.continue_edges.contains(e) || skips_ahead(cfg, c, e)
}

/// The role of an edge after the first `n` loops have been asked whether it continues them.
pub open spec fn role_of(cfg: &Cfg, loops: Seq<LoopModel>, e: EdgeRef, n: nat) -> Option<PreliminaryIteration>
    decreases n,
{
    if n == 0 {
        repeats_of(loops, e, loops.len())
    } else {
        let rest = role_of(cfg, loops, e, (n - 1) as nat);
        if continues_loop(cfg, loops[n - 1], e) {
            noted(rest, PreliminaryIteration::Continue(loops[n - 1].header))
        } else {
            rest
        }
    }
}

/// `acc`, then the value that the edge hands to the phi, for each of the first `n` incomings.
pub open spec fn handed_in(phi: &PhiCandidate, e: EdgeRef, n: nat, acc: Seq<(PhiId, SsaValue)>) -> Seq<(PhiId, SsaValue)>
    decreases n,
{
    if n == 0 {
        acc
    } else {
        let rest = handed_in(phi, e, (n - 1) as nat, acc);
        if phi.incoming@[n - 1].edge == Some(e) {
            rest.push((phi.id, phi.incoming@[n - 1].value))
        } else {
            rest
        }
    }
}

/// What the edge hands to the first `n` phis.
pub open spec fn handed(phis: Seq<PhiCandidate>, e: EdgeRef, n: nat) -> Seq<(PhiId, SsaValue)>
    decreases n,
{
    if n == 0 {
        Seq::empty()
    } else {
        let phi = &phis[n - 1];
        handed_in(phi, e, phi.incoming@.len(), handed(phis, e, (n - 1) as nat))
    }
}

/// What an edge does. Only where the language can continue loops do its edges count as
/// continuing.
pub open spec fn action_of(
    cfg: &Cfg,
    phis: Seq<PhiCandidate>,
    loops: Seq<LoopModel>,
    residual: Seq<GotoRequirement>,
    can_continue: bool,
    e: EdgeRef,
) -> ActionModel {
    ActionModel {
        goto: last_reason(residual, e, residual.len()),
        continues: can_continue && exists|i: int| 0 <= i < loops.len() && continues_loop(cfg, #[trigger] loops[i], e),
        iteration: if can_continue {
            role_of(cfg, loops, e, loops.len())
        } else {
            repeats_of(loops, e, loops.len())
        },
        phi_inputs: handed(phis, e, phis.len()),
    }
}

pub fn record_preliminary_iteration(action: &mut PreliminaryEdgeAction, iteration: PreliminaryIteration)
    ensures
        final(action)@ == (ActionModel { iteration: noted(old(action)@.iteration, iteration), ..old(action)@ }),
{
    action.iteration = match action.iteration {
        None => Some(iteration),
        Some(current) => if current == iteration {
            Some(current)
        } else {
            Some(PreliminaryIteration::Conflicting)
        },
    };
}

fn has_backedge(c: &LoopCandidate, e: EdgeRef) -> (r: bool)
    ensures
        r == c@.backedges.contains(e),
{
    let n = c.backedges.len();
    let mut i: usize = 0;
    while i < n
        invariant
            n == c.backedges@.len(),
            i <= n,
            forall|k: int| 0 <= k < i ==> c.backedges@[k] != e,
        decreases n - i,
    {
        if c.backedges[i] == e {
            assert(c.backedges@[i as int] == e);
            return true;
        }
        i = i + 1;
    }
    false
}

fn check_continues(cfg: &Cfg, c: &LoopCandidate, e: EdgeRef) -> (r: bool)
    requires
        cfg.wf(),
        cfg.has_edge(e),
    ensures
        r == continues_loop(cfg, c@, e),
{
    if c.continue_edges.contains(e) {
        return true;
    }
    let edge = cfg.edges[e.0];
    let at_target = match c.continue_target {
        Some(t) => t == edge.to,
        None => false,
    };
    if !at_target || has_backedge(c, e) || !(c.blocks.contains(edge.from) || c.body_scope_blocks.contains(edge.from)) {
        return false;
    }
    let ghost from = edge.from;
    assert(cfg.has_block(from));
    let n = cfg.succs[edge.from.0].len();
    if n <= 1 {
        return false;
    }
    let mut k: usize = 0;
    while k < n
        invariant
            cfg.wf(),
            from == edge.from,
            edge == cfg.edge(e),
            cfg.has_block(from),
            n == cfg.out_edges(from).len(),
            n > 1,
            c.continue_target == Some(edge.to),
            in_body(c@, from),
            !c@.backedges.contains(e),
            k <= n,
            forall|q: int| 0 <= q < k ==> (#[trigger] cfg.out_edges(from)[q]) == e || !in_body(c@, cfg.edge(cfg.out_edges(from)[q]).to),
        decreases n - k,
    {
        let sibling = cfg.succs[edge.from.0][k];
        assert(sibling == cfg.out_edges(from)[k as int]);
        if sibling != e {
            let to = cfg.edges[sibling.0].to;
            if c.blocks.contains(to) || c.body_scope_blocks.contains(to) {
                assert(stays_otherwise(cfg, c@, e));
                return true;
            }
        }
        k = k + 1;
    }
    false
}

fn find_reason(list: &Vec<GotoRequirement>, e: EdgeRef) -> (r: Option<GotoReason>)
    ensures
        r == last_reason(list@, e, list@.len()),
{
    let mut i: usize = list.len();
    while i > 0
        invariant
            i <= list@.len(),
            last_reason(list@, e, list@.len()) == last_reason(list@, e, i as nat),
        decreases i,
    {
        if list[i - 1].edge == e {
            return Some(list[i - 1].reason);
        }
        i = i - 1;
    }
    None
}

fn collect_handed(phis: &Vec<PhiCandidate>, e: EdgeRef) -> (r: Vec<(PhiId, SsaValue)>)
    ensures
        r@ == handed(phis@, e, phis@.len()),
{
    let mut r: Vec<(PhiId, SsaValue)> = Vec::new();
    let n = phis.len();
    let mut p: usize = 0;
    while p < n
        invariant
            n == phis@.len(),
            p <= n,
            r@ == handed(phis@, e, p as nat),
        decreases n - p,
    {
        let ghost acc = r@;
        let m = phis[p].incoming.len();
        let mut k: usize = 0;
        while k < m
            invariant
                p < n,
                n == phis@.len(),
                m == phis@[p as int].incoming@.len(),
                k <= m,
                r@ == handed_in(&phis@[p as int], e, k as nat, acc),
            decreases m - k,
        {
            let item = phis[p].incoming[k];
            let here = match item.edge {
                Some(x) => x == e,
                None => false,
            };
            if here {
                r.push((phis[p].id, item.value));
            }
            k = k + 1;
        }
        p = p + 1;
    }
    r
}

/// What one edge does.
fn find_action(
    cfg: &Cfg,
    phis: &Vec<PhiCandidate>,
    loops: &Vec<LoopCandidate>,
    residual: &Vec<GotoRequirement>,
    can_continue: bool,
    e: EdgeRef,
) -> (r: PreliminaryEdgeAction)
    requires
        cfg.wf(),
        cfg.has_edge(e),
    ensures
        r@ == action_of(cfg, phis@, loop_models(loops@), residual@, can_continue, e),
{
    let ghost models = loop_models(loops@);
    let mut action = PreliminaryEdgeAction {
        goto: find_reason(residual, e),
        has_continue_evidence: false,
        iteration: None,
        phi_inputs: collect_handed(phis, e),
    };
    let ghost start = action@;
    let n = loops.len();
    let mut i: usize = 0;
    while i < n
        invariant
            models == loop_models(loops@),
            n == loops@.len(),
            i <= n,
            action@ == (ActionModel { iteration: repeats_of(models, e, i as nat), ..start }),
        decreases n - i,
    {
        assert(models[i as int] == loops@[i as int]@);
        if has_backedge(&loops[i], e) {
            record_preliminary_iteration(&mut action, PreliminaryIteration::LoopBack(loops[i].header));
        }
        i = i + 1;
    }
    if can_continue {
        let mut k: usize = 0;
        while k < n
            invariant
                cfg.wf(),
                cfg.has_edge(e),
                models == loop_models(loops@),
                n == loops@.len(),
                k <= n,
                !start.continues,
                action@ == (ActionModel {
                    iteration: role_of(cfg, models, e, k as nat),
                    continues: exists|q: int| 0 <= q < k && continues_loop(cfg, #[trigger] models[q], e),
                    ..start
                }),
            decreases n - k,
        {
            assert(models[k as int] == loops@[k as int]@);
            let ghost was = action@.continues;
            if check_continues(cfg, &loops[k], e) {
                assert(continues_loop(cfg, models[k as int], e));
                action.has_continue_evidence = true;
                record_preliminary_iteration(&mut action, PreliminaryIteration::Continue(loops[k].header));
            }
            proof {
                if was {
                    let q = choose|q: int| 0 <= q < k && continues_loop(cfg, #[trigger] models[q], e);
                    assert(0 <= q < k + 1 && continues_loop(cfg, models[q], e));
                }
            }
            k = k + 1;
        }
    }
    action
}

/// What every edge does, by edge.
pub fn preliminary_edge_actions(
    cfg: &Cfg,
    phis: &Vec<PhiCandidate>,
    loops: &Vec<LoopCandidate>,
    residual_transfers: &Vec<GotoRequirement>,
    can_continue: bool,
) -> (r: Vec<PreliminaryEdgeAction>)
    requires
        cfg.wf(),
    ensures
        r@.len() == cfg.edges@.len(),
        forall|e: int|
            0 <= e < r@.len() ==> (#[trigger] r@[e])@ == action_of(
                cfg,
                phis@,
                loop_models(loops@),
                residual_transfers@,
                can_continue,
                EdgeRef(e as usize),
            ),
{
    let n = cfg.edges.len();
    let mut r: Vec<PreliminaryEdgeAction> = Vec::new();
    let mut e: usize = 0;
    while e < n
        invariant
            cfg.wf(),
            n == cfg.edges@.len(),
            e <= n,
            r@.len() == e,
            forall|k: int|
                0 <= k < e ==> (#[trigger] r@[k])@ == action_of(
                    cfg,
                    phis@,
                    loop_models(loops@),
                    residual_transfers@,
                    can_continue,
                    EdgeRef(k as usize),
                ),
        decreases n - e,
    {
        assert(cfg.has_edge(EdgeRef(e)));
        r.push(find_action(cfg, phis, loops, residual_transfers, can_continue, EdgeRef(e)));
        e = e + 1;
    }
    r
}

} // verus!
