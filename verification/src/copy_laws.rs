//! Which values an edge copies, where the copies go, and what is listed of phis.

use vstd::prelude::*;

use crate::cfg::Cfg;
use crate::copy_targets::{
    all_targets, copy_target, exit_targets, exits_targets, head_phi, targets_upto, CanonicalBreakTarget, Targets,
};
use crate::dataflow::{PhiCandidate, PhiId, PhiIncoming};
use crate::dispositions::{clear_incoming, in_island, is_island, last_word};
use crate::edge_copies::{needs_copy, Dispositions};
use crate::evidence::{LoopExitValueMergeCandidate, LoopKindHint, LoopValueMerge, PhiEdgeCopy};
use crate::forwarding::{value_in, with_copies, with_copy, writes_phi, ForwardedActionComposer};
use crate::ids::{BlockRef, EdgeRef, Reg};
use crate::install::{is_unresolved, owned_by, phis_at_block, phis_of_region, required_upto, RequirementState};
use crate::plan::{EdgeTransfer, ForwardRouteId, PhiIncomingDisposition, PlanRequirement, RegionId, RegionPlan};
use crate::search::{first_where, first_where_least};
use crate::structure_plan::StructurePlan;

verus! {

/// An incoming is copied on its edge unless it is dead, unresolved, or yielded by a region
/// that has an expression for the phi.
pub proof fn live_values_are_copied(plan: &StructurePlan, phi: PhiId, d: PhiIncomingDisposition)
    ensures
        needs_copy(plan, phi, d) <==> match d {
            PhiIncomingDisposition::Dead | PhiIncomingDisposition::DiagnosticUnresolved => false,
            PhiIncomingDisposition::EdgeCopy
            | PhiIncomingDisposition::RegionInput(_)
            | PhiIncomingDisposition::LoopCarried(_) => true,
            PhiIncomingDisposition::RegionResult(_) => !(phi.0 < plan.condition_value_by_phi@.len()
                && plan.condition_value_by_phi@[phi.0 as int] is Some) && !(phi.0 < plan.value_decision_by_phi@.len()
                && plan.value_decision_by_phi@[phi.0 as int] is Some),
        },
{
}

/// A copy writes another phi than its own only on an edge that breaks out of the region that
/// yields the value, and then the phi for which its own stands there.
pub proof fn copies_write_their_phi_or_the_head(
    plan: &StructurePlan,
    t: Targets,
    phi: PhiId,
    x: PhiIncoming,
    d: PhiIncomingDisposition,
)
    requires
        copy_target(plan, t, phi, x, d) != phi,
    ensures
        x.edge is Some,
        (x.edge->0).0 < plan.edge_plans@.len(),
        plan.edge_plans@[(x.edge->0).0 as int].transfer matches EdgeTransfer::Break(r) && d
            == PhiIncomingDisposition::RegionResult(r) && phi.0 < t.len() && t[phi.0 as int] == Some(
            CanonicalBreakTarget { owner: r, target: copy_target(plan, t, phi, x, d) },
        ),
{
}

/// Region `r` is a `for` loop with value `h` at its head and value `v` at an exit, both in
/// the same register.
pub open spec fn matches_head(plan: &StructurePlan, r: RegionId, h: PhiId, v: PhiId) -> bool {
    r.0 < plan.regions@.len() && match plan.regions@[r.0 as int] {
        RegionPlan::Loop { plan: id, .. } => id.0 < plan.loops@.len() && {
            let l = &plan.loops@[id.0 as int];
            &&& l.kind == LoopKindHint::NumericForLike || l.kind == LoopKindHint::GenericForLike
            &&& meet_in_register(l.header_values@, l.exit_values@, h, v)
        },
        _ => false,
    }
}

/// A value with phi `h` at the head lies in the register of a value with phi `v` at an exit.
pub open spec fn meet_in_register(
    heads: Seq<LoopValueMerge>,
    exits: Seq<LoopExitValueMergeCandidate>,
    h: PhiId,
    v: PhiId,
) -> bool {
    exists|i: int, x: int, k: int|
        0 <= i < heads.len() && 0 <= x < exits.len() && 0 <= k < exits[x].values@.len() && (#[trigger] heads[i]).phi_id == h
            && (#[trigger] exits[x].values@[k]).phi_id == v && heads[i].reg == exits[x].values@[k].reg
}

proof fn head_phi_stands(list: Seq<LoopValueMerge>, reg: Reg, n: nat) -> (i: int)
    requires
        n <= list.len(),
        head_phi(list, reg, n) is Some,
    ensures
        0 <= i < n,
        list[i].reg == reg,
        list[i].phi_id == head_phi(list, reg, n)->0,
    decreases n,
{
    if list[n - 1].reg == reg {
        n - 1
    } else {
        head_phi_stands(list, reg, (n - 1) as nat)
    }
}

/// What an entry of the table says that was not there before.
spec fn is_new(heads: Seq<LoopValueMerge>, exits: Seq<LoopExitValueMergeCandidate>, region: RegionId, p: int, c: CanonicalBreakTarget) -> bool {
    c.owner == region && meet_in_register(heads, exits, c.target, PhiId(p as usize))
}

proof fn exit_entries(
    heads: Seq<LoopValueMerge>,
    exits: Seq<LoopExitValueMergeCandidate>,
    x: int,
    region: RegionId,
    t: Targets,
    n: nat,
)
    requires
        0 <= x < exits.len(),
        n <= exits[x].values@.len(),
        exit_targets(heads, exits[x].values@, region, t, n) is Ok,
    ensures
        ({
            let now = exit_targets(heads, exits[x].values@, region, t, n)->Ok_0;
            &&& now.len() == t.len()
            &&& forall|p: int| 0 <= p < now.len() && (#[trigger] now[p]) is Some ==> now[p] == t[p] || is_new(
                heads,
                exits,
                region,
                p,
                now[p]->0,
            )
        }),
    decreases n,
{
    if n > 0 {
        exit_entries(heads, exits, x, region, t, (n - 1) as nat);
        let v = &exits[x].values@[n - 1];
        if let Some(target) = head_phi(heads, v.reg, heads.len()) {
            let i = head_phi_stands(heads, v.reg, heads.len());
            assert(heads[i].phi_id == target && exits[x].values@[n - 1].phi_id == v.phi_id);
            assert(meet_in_register(heads, exits, target, v.phi_id));
            assert(PhiId(v.phi_id.0 as int as usize) == v.phi_id);
        }
    }
}

proof fn all_exit_entries(
    heads: Seq<LoopValueMerge>,
    exits: Seq<LoopExitValueMergeCandidate>,
    region: RegionId,
    t: Targets,
    n: nat,
)
    requires
        n <= exits.len(),
        exits_targets(heads, exits, region, t, n) is Ok,
    ensures
        ({
            let now = exits_targets(heads, exits, region, t, n)->Ok_0;
            &&& now.len() == t.len()
            &&& forall|p: int| 0 <= p < now.len() && (#[trigger] now[p]) is Some ==> now[p] == t[p] || is_new(
                heads,
                exits,
                region,
                p,
                now[p]->0,
            )
        }),
    decreases n,
{
    if n > 0 {
        all_exit_entries(heads, exits, region, t, (n - 1) as nat);
        let last = exits_targets(heads, exits, region, t, (n - 1) as nat)->Ok_0;
        exit_entries(heads, exits, n - 1, region, last, exits[n - 1].values@.len());
    }
}

proof fn targets_match(plan: &StructurePlan, count: nat, n: nat, p: int)
    requires
        n <= plan.regions@.len() <= usize::MAX,
        targets_upto(plan, count, n) is Ok,
        0 <= p < count,
    ensures
        targets_upto(plan, count, n)->Ok_0.len() == count,
        targets_upto(plan, count, n)->Ok_0[p] matches Some(c) ==> matches_head(plan, c.owner, c.target, PhiId(p as usize)),
    decreases n,
{
    if n > 0 {
        targets_match(plan, count, (n - 1) as nat, p);
        let t = targets_upto(plan, count, (n - 1) as nat)->Ok_0;
        if let RegionPlan::Loop { plan: id, .. } = plan.regions@[n - 1] {
            let l = &plan.loops@[id.0 as int];
            let region = RegionId((n - 1) as usize);
            if l.kind == LoopKindHint::NumericForLike || l.kind == LoopKindHint::GenericForLike {
                all_exit_entries(l.header_values@, l.exit_values@, region, t, l.exit_values@.len());
            }
        }
    }
}

/// A phi behind a loop stands for a phi at the loop's head only where the loop is a `for` loop
/// that has both, in the same register.
pub proof fn break_targets_are_heads_of_their_loop(plan: &StructurePlan, count: nat, p: int)
    requires
        plan.regions@.len() <= usize::MAX,
        all_targets(plan, count) is Ok,
        0 <= p < count,
        all_targets(plan, count)->Ok_0[p] is Some,
    ensures
        ({
            let c = all_targets(plan, count)->Ok_0[p]->0;
            matches_head(plan, c.owner, c.target, PhiId(p as usize))
        }),
{
    targets_match(plan, count, plan.regions@.len(), p);
}

/// Each region of the way but the last is a block or a sequence within the next one.
pub open spec fn climbs(plan: &StructurePlan, way: Seq<RegionId>) -> bool {
    &&& way.len() > 0
    &&& forall|i: int| 0 <= i < way.len() ==> (#[trigger] way[i]).0 < plan.regions@.len()
    &&& forall|i: int| #![trigger way[i]]
        0 <= i < way.len() - 1 ==> match plan.regions@[way[i].0 as int] {
            RegionPlan::Block { parent, .. } => parent == way[i + 1],
            RegionPlan::Sequence { parent, .. } => parent == Some(way[i + 1]),
            _ => false,
        }
}

/// The way leads from `r` to a part that could not be structured.
pub open spec fn leads_to_unstructured(plan: &StructurePlan, way: Seq<RegionId>, r: RegionId) -> bool {
    climbs(plan, way) && way.first() == r && plan.regions@[way.last().0 as int] is Unstructured
}

proof fn island_way(plan: &StructurePlan, r: RegionId, fuel: nat) -> (way: Seq<RegionId>)
    requires
        in_island(plan, r, fuel),
    ensures
        leads_to_unstructured(plan, way, r),
    decreases fuel,
{
    if plan.regions@[r.0 as int] is Unstructured {
        seq![r]
    } else {
        let up = match plan.regions@[r.0 as int] {
            RegionPlan::Block { parent, .. } => parent,
            RegionPlan::Sequence { parent, .. } => parent->0,
            _ => r,
        };
        let rest = island_way(plan, up, (fuel - 1) as nat);
        let way = seq![r] + rest;
        assert forall|i: int| #![trigger way[i]] 0 <= i < way.len() - 1 implies match plan.regions@[way[i].0 as int] {
            RegionPlan::Block { parent, .. } => parent == way[i + 1],
            RegionPlan::Sequence { parent, .. } => parent == Some(way[i + 1]),
            _ => false,
        } by {
            if i > 0 {
                assert(way[i] == rest[i - 1] && way[i + 1] == rest[i - 1 + 1]);
            } else {
                assert(way[1] == rest[0]);
            }
        }
        assert forall|i: int| 0 <= i < way.len() implies (#[trigger] way[i]).0 < plan.regions@.len() by {
            if i > 0 {
                assert(way[i] == rest[i - 1]);
            }
        }
        way
    }
}

proof fn way_is_island(plan: &StructurePlan, way: Seq<RegionId>, r: RegionId, fuel: nat)
    requires
        leads_to_unstructured(plan, way, r),
        way.len() <= fuel + 1,
    ensures
        in_island(plan, r, fuel),
    decreases fuel,
{
    assert(way[0] == r);
    if way.len() > 1 {
        let rest = way.drop_first();
        assert forall|i: int| #![trigger rest[i]] 0 <= i < rest.len() - 1 implies match plan.regions@[rest[i].0 as int] {
            RegionPlan::Block { parent, .. } => parent == rest[i + 1],
            RegionPlan::Sequence { parent, .. } => parent == Some(rest[i + 1]),
            _ => false,
        } by {
            assert(rest[i] == way[i + 1] && rest[i + 1] == way[i + 2]);
        }
        assert(rest.last() == way.last());
        assert(rest[0] == way[1]);
        way_is_island(plan, rest, way[1], (fuel - 1) as nat);
    }
}

/// A region lies in a part that could not be structured just when blocks and sequences alone
/// lead up from it to such a part.
pub proof fn islands_are_below_unstructured_parts(plan: &StructurePlan, r: RegionId, way: Seq<RegionId>)
    ensures
        is_island(plan, r) ==> exists|w: Seq<RegionId>| #[trigger] leads_to_unstructured(plan, w, r),
        leads_to_unstructured(plan, way, r) && way.len() <= plan.regions@.len() ==> is_island(plan, r),
{
    if is_island(plan, r) {
        let w = island_way(plan, r, plan.regions@.len());
        assert(leads_to_unstructured(plan, w, r));
    }
    if leads_to_unstructured(plan, way, r) && way.len() <= plan.regions@.len() {
        way_is_island(plan, way, r, plan.regions@.len());
    }
}

/// What comes over an edge that is never taken is dead, and nothing else is so from the start.
/// What comes over a jump is copied; besides that only what a part that could not be
/// structured sends or receives is copied from the start, and what it receives only where no
/// expression yields the phi.
pub proof fn edges_decide_first(cfg: &Cfg, plan: &StructurePlan, phi: PhiId, x: PhiIncoming, j: int, e: EdgeRef)
    requires
        x.edge == Some(e),
        e.0 < plan.edge_plans@.len() && e.0 < cfg.edges@.len(),
    ensures
        ({
            let r = clear_incoming(cfg, plan, phi, x, j);
            let ep = &plan.edge_plans@[e.0 as int];
            let to = cfg.edges@[e.0 as int].to.0;
            &&& r is Ok
            &&& r->Ok_0 is Some ==> r->Ok_0->0 is Dead || r->Ok_0->0 is EdgeCopy
            &&& ep.transfer is Unreachable <==> r->Ok_0 == Some(PhiIncomingDisposition::Dead)
            &&& ep.transfer is Goto ==> r->Ok_0 == Some(PhiIncomingDisposition::EdgeCopy)
            &&& r->Ok_0 == Some(PhiIncomingDisposition::EdgeCopy) ==> ep.transfer is Goto || is_island(plan, ep.owner) || (
            to < plan.region_by_block@.len() && plan.region_by_block@[to as int] is Some && is_island(
                plan,
                plan.region_by_block@[to as int]->0,
            ))
            &&& !(ep.transfer is Unreachable) && is_island(plan, ep.owner) ==> r->Ok_0 == Some(PhiIncomingDisposition::EdgeCopy)
            &&& !(ep.transfer is Unreachable) && !(ep.transfer is Goto) && !is_island(plan, ep.owner) && to
                < plan.region_by_block@.len() && plan.region_by_block@[to as int] is Some && is_island(
                plan,
                plan.region_by_block@[to as int]->0,
            ) ==> (r->Ok_0 is Some <==> !(phi.0 < plan.condition_value_by_phi@.len()
                && plan.condition_value_by_phi@[phi.0 as int] is Some) && !(phi.0 < plan.value_decision_by_phi@.len()
                && plan.value_decision_by_phi@[phi.0 as int] is Some))
        }),
{
}

/// In the end only what has no edge is unresolved, what nobody claimed is copied, and every
/// other claim stands.
pub proof fn unclaimed_values_are_copied(owner: Option<PhiIncomingDisposition>, x: PhiIncoming)
    ensures
        last_word(owner, x) is DiagnosticUnresolved ==> x.edge is None,
        owner is None && x.edge is Some ==> last_word(owner, x) is EdgeCopy,
        owner is None && x.edge is None ==> last_word(owner, x) is DiagnosticUnresolved,
        owner is Some && !(owner->0 is DiagnosticUnresolved) ==> last_word(owner, x) == owner->0,
{
}

/// A further copy gives its phi the new value, and every other phi keeps its value.
pub proof fn later_copies_replace_earlier_ones(env: Seq<PhiEdgeCopy>, c: PhiEdgeCopy, p: PhiId)
    ensures
        value_in(with_copy(env, c), c.phi_id) == Some(c.value),
        p != c.phi_id ==> value_in(with_copy(env, c), p) == value_in(env, p),
{
    let now = with_copy(env, c);
    let was = writes_phi(env, p);
    let does = writes_phi(now, p);
    let mine = writes_phi(now, c.phi_id);
    first_where_least(env.len(), writes_phi(env, c.phi_id));
    first_where_least(env.len(), was);
    first_where_least(now.len(), does);
    first_where_least(now.len(), mine);
    let at = match first_where(env.len(), writes_phi(env, c.phi_id)) {
        Some(i) => i,
        None => env.len() as int,
    };
    assert(now[at] == c);
    assert(mine(at));
    assert forall|i: int| 0 <= i < env.len() && i != at implies #[trigger] now[i] == env[i] by {}
    let found = first_where(now.len(), mine);
    if found->0 != at {
        assert(mine(found->0));
        assert(writes_phi(env, c.phi_id)(found->0));
    }
    if p != c.phi_id {
        assert forall|i: int| 0 <= i < env.len() implies #[trigger] was(i) == does(i) by {
            if i == at {
                assert(writes_phi(env, c.phi_id)(i));
            }
        }
        assert(!does(at));
        let a = first_where(env.len(), was);
        let b = first_where(now.len(), does);
        if let Some(i) = a {
            assert(was(i) && does(i));
            assert(b is Some);
            assert(does(b->0));
            assert(b->0 != at);
            assert(was(b->0));
        }
        if let Some(i) = b {
            assert(does(i));
            assert(i != at);
            assert(was(i));
        }
    }
}

/// After further copies a phi has the value of the last of them that writes it, and its value
/// from before if none does.
pub proof fn the_last_copy_counts(env: Seq<PhiEdgeCopy>, more: Seq<PhiEdgeCopy>, n: nat, p: PhiId)
    requires
        n <= more.len(),
    ensures
        (forall|i: int| 0 <= i < n ==> (#[trigger] more[i]).phi_id != p) ==> value_in(with_copies(env, more, n), p) == value_in(
            env,
            p,
        ),
        forall|i: int|
            0 <= i < n && (#[trigger] more[i]).phi_id == p && (forall|k: int| i < k < n ==> (#[trigger] more[k]).phi_id != p)
                ==> value_in(with_copies(env, more, n), p) == Some(more[i].value),
    decreases n,
{
    if n > 0 {
        the_last_copy_counts(env, more, (n - 1) as nat, p);
        later_copies_replace_earlier_ones(with_copies(env, more, (n - 1) as nat), more[n - 1], p);
    }
}

/// Some copy of the list writes the phi.
pub open spec fn is_written(list: Seq<PhiEdgeCopy>, p: PhiId) -> bool {
    exists|i: int| 0 <= i < list.len() && (#[trigger] list[i]).phi_id == p
}

proof fn written_has_value(list: Seq<PhiEdgeCopy>, p: PhiId)
    ensures
        value_in(list, p) is Some <==> is_written(list, p),
{
    let f = writes_phi(list, p);
    first_where_least(list.len(), f);
    if is_written(list, p) {
        let i = choose|i: int| 0 <= i < list.len() && (#[trigger] list[i]).phi_id == p;
        assert(f(i));
    }
    if let Some(i) = first_where(list.len(), f) {
        assert(f(i));
        assert(list[i].phi_id == p);
    }
}

proof fn copies_are_all_written(env: Seq<PhiEdgeCopy>, more: Seq<PhiEdgeCopy>, n: nat, p: PhiId)
    requires
        n <= more.len(),
    ensures
        is_written(with_copies(env, more, n), p) <==> is_written(env, p) || exists|i: int|
            0 <= i < n && (#[trigger] more[i]).phi_id == p,
    decreases n,
{
    if n > 0 {
        let m = (n - 1) as nat;
        copies_are_all_written(env, more, m, p);
        let last = with_copies(env, more, m);
        later_copies_replace_earlier_ones(last, more[m as int], p);
        written_has_value(last, p);
        written_has_value(with_copies(env, more, n), p);
        if more[m as int].phi_id == p {
            assert(value_in(with_copies(env, more, n), p) is Some);
        }
    }
}

proof fn batches_write_their_targets(
    composer: &ForwardedActionComposer,
    route: Option<ForwardRouteId>,
    env: Seq<PhiEdgeCopy>,
    resolve: bool,
    copies: Seq<PhiEdgeCopy>,
    n: nat,
)
    requires
        n <= copies.len(),
        composer.batch(route, env, resolve, copies, n) is Ok,
    ensures
        ({
            let list = composer.batch(route, env, resolve, copies, n)->Ok_0;
            &&& list.len() == n
            &&& forall|i: int| 0 <= i < n ==> (#[trigger] list[i]).phi_id == copies[i].phi_id
            &&& !resolve ==> forall|i: int| 0 <= i < n ==> (#[trigger] list[i]).value == copies[i].value
        }),
    decreases n,
{
    if n > 0 {
        batches_write_their_targets(composer, route, env, resolve, copies, (n - 1) as nat);
    }
}

proof fn batch_adds(
    composer: &ForwardedActionComposer,
    route: Option<ForwardRouteId>,
    env: Seq<PhiEdgeCopy>,
    resolve: bool,
    copies: Seq<PhiEdgeCopy>,
    p: PhiId,
)
    requires
        composer.after_batch(route, env, resolve, copies) is Ok,
    ensures
        is_written(composer.after_batch(route, env, resolve, copies)->Ok_0, p) <==> is_written(env, p) || is_written(
            copies,
            p,
        ),
{
    batches_write_their_targets(composer, route, env, resolve, copies, copies.len());
    let list = composer.batch(route, env, resolve, copies, copies.len())->Ok_0;
    copies_are_all_written(env, list, list.len(), p);
    if is_written(copies, p) {
        let i = choose|i: int| 0 <= i < copies.len() && (#[trigger] copies[i]).phi_id == p;
        assert(list[i].phi_id == p);
    }
    if exists|i: int| 0 <= i < list.len() && (#[trigger] list[i]).phi_id == p {
        let i = choose|i: int| 0 <= i < list.len() && (#[trigger] list[i]).phi_id == p;
        assert(copies[i].phi_id == p);
    }
}

/// Edge `e` copies something into the phi by itself.
pub open spec fn copies_itself(plan: &StructurePlan, e: EdgeRef, p: PhiId) -> bool {
    is_written(plan.edge_plans@[e.0 as int].phi_copies@, p)
}

proof fn routes_add_up(
    composer: &ForwardedActionComposer,
    route: ForwardRouteId,
    edges: Seq<EdgeRef>,
    n: nat,
    p: PhiId,
)
    requires
        n <= edges.len(),
        composer.route_copies(route, edges, n) is Ok,
    ensures
        is_written(composer.route_copies(route, edges, n)->Ok_0, p) <==> exists|k: int|
            0 <= k < n && copies_itself(composer.plan, #[trigger] edges[k], p),
    decreases n,
{
    if n > 0 {
        routes_add_up(composer, route, edges, (n - 1) as nat, p);
        let env = composer.route_copies(route, edges, (n - 1) as nat)->Ok_0;
        batch_adds(
            composer,
            Some(route),
            env,
            true,
            composer.plan.edge_plans@[edges[n - 1].0 as int].phi_copies@,
            p,
        );
        if copies_itself(composer.plan, edges[n - 1], p) {
            assert(is_written(composer.route_copies(route, edges, n)->Ok_0, p));
        }
    }
}

/// What an edge copies altogether writes the phis that it copies into itself and those into
/// which the edges of its route copy, and no others. Without a route these are its own copies.
pub proof fn edges_copy_for_their_route(composer: &ForwardedActionComposer, e: EdgeRef, p: PhiId)
    requires
        composer.effective(e) is Ok,
    ensures
        e.0 < composer.plan.edge_plans@.len(),
        match composer.plan.edge_plans@[e.0 as int].forward_route {
            None => composer.effective(e)->Ok_0 == composer.plan.edge_plans@[e.0 as int].phi_copies@,
            Some(route) => is_written(composer.effective(e)->Ok_0, p) <==> copies_itself(composer.plan, e, p) || exists|
                k: int,
            |
                0 <= k < composer.plan.actions_of(route).len() && copies_itself(
                    composer.plan,
                    #[trigger] composer.plan.actions_of(route)[k],
                    p,
                ),
        },
{
    if let Some(route) = composer.plan.edge_plans@[e.0 as int].forward_route {
        let edges = composer.plan.actions_of(route);
        let own = composer.plan.edge_plans@[e.0 as int].phi_copies@;
        routes_add_up(composer, route, edges, edges.len(), p);
        batch_adds(composer, None, Seq::empty(), false, own, p);
        let env = composer.after_batch(None, Seq::empty(), false, own)->Ok_0;
        let summary = composer.route_copies(route, edges, edges.len())->Ok_0;
        batch_adds(composer, None, env, true, summary, p);
    }
}

/// The phis that are listed for a block are those that stand there.
pub proof fn blocks_list_their_phis(phis: Seq<PhiCandidate>, b: BlockRef, n: nat, id: PhiId)
    requires
        n <= phis.len(),
    ensures
        phis_at_block(phis, b, n).contains(id) <==> exists|p: int|
            0 <= p < n && (#[trigger] phis[p]).block == b && phis[p].id == id,
    decreases n,
{
    if n > 0 {
        let m = (n - 1) as nat;
        blocks_list_their_phis(phis, b, m, id);
        let rest = phis_at_block(phis, b, m);
        let now = phis_at_block(phis, b, n);
        if rest.contains(id) {
            let k = rest.index_of(id);
            assert(now[k] == id);
        }
        if phis[m as int].block == b && phis[m as int].id == id {
            assert(now.last() == id);
        }
        if now.contains(id) && !rest.contains(id) {
            let k = now.index_of(id);
            assert(k == rest.len() || now[k] == rest[k]);
            assert(phis[m as int].block == b && phis[m as int].id == id);
        }
    }
}

/// The phis that are listed for a region are those for which it takes care of an incoming.
pub proof fn regions_list_their_phis(phis: Seq<PhiCandidate>, t: Dispositions, r: RegionId, n: nat, id: PhiId)
    requires
        n <= phis.len(),
        id.0 != usize::MAX,
    ensures
        phis_of_region(phis, t, r, n).contains(id) <==> exists|p: int|
            0 <= p < n && (#[trigger] phis[p]).id == id && takes_care_of_one(t[p], r),
    decreases n,
{
    if n > 0 {
        let m = (n - 1) as nat;
        regions_list_their_phis(phis, t, r, m, id);
        let rest = phis_of_region(phis, t, r, m);
        let now = phis_of_region(phis, t, r, n);
        if rest.contains(id) {
            let k = rest.index_of(id);
            assert(now[k] == id);
        }
        assert(owned_by(t[m as int], r) <==> takes_care_of_one(t[m as int], r)) by {
            if takes_care_of_one(t[m as int], r) {
                let j = choose|j: int| 0 <= j < t[m as int].len() && names_region(#[trigger] t[m as int][j], r);
                assert(t[m as int][j].region_of() == Some(r));
            }
        }
        if phis[m as int].id == id && takes_care_of_one(t[m as int], r) {
            if rest.len() > 0 && rest.last() == id {
                assert(rest.contains(id));
            } else {
                assert(now.last() == id);
            }
        }
        if now.contains(id) && !rest.contains(id) {
            let k = now.index_of(id);
            assert(k == rest.len() || now[k] == rest[k]);
            assert(phis[m as int].id == id);
        }
    }
}

/// The owner is the region, in whatever part.
pub open spec fn names_region(d: PhiIncomingDisposition, r: RegionId) -> bool {
    d == PhiIncomingDisposition::RegionInput(r) || d == PhiIncomingDisposition::RegionResult(r) || d
        == PhiIncomingDisposition::LoopCarried(r)
}

pub open spec fn takes_care_of_one(row: Seq<PhiIncomingDisposition>, r: RegionId) -> bool {
    exists|j: int| 0 <= j < row.len() && names_region(#[trigger] row[j], r)
}

/// Something of the row is unresolved.
pub open spec fn leaves_open(row: Seq<PhiIncomingDisposition>) -> bool {
    exists|j: int| 0 <= j < row.len() && #[trigger] row[j] == PhiIncomingDisposition::DiagnosticUnresolved
}

/// Every phi with something unresolved is stated with its block and register, its block is
/// marked, and nothing that was stated before is lost.
pub proof fn unresolved_phis_are_stated(phis: Seq<PhiCandidate>, t: Dispositions, s: RequirementState, n: nat)
    requires
        n <= phis.len(),
        required_upto(phis, t, s, n) is Ok,
    ensures
        ({
            let now = required_upto(phis, t, s, n)->Ok_0;
            &&& now.flags.len() == s.flags.len()
            &&& s.entries.len() <= now.entries.len() && now.entries.take(s.entries.len() as int) == s.entries
            &&& forall|b: int| 0 <= b < s.flags.len() && #[trigger] s.flags[b] ==> now.flags[b]
            &&& forall|p: int|
                0 <= p < n && leaves_open(#[trigger] t[p]) ==> phis[p].block.0 < s.flags.len()
                    && now.flags[phis[p].block.0 as int] && now.entries.contains(
                    PlanRequirement::UnresolvedValue { phi_id: phis[p].id, block: phis[p].block, reg: phis[p].reg },
                )
            &&& (forall|p: int| 0 <= p < n ==> !leaves_open(#[trigger] t[p])) ==> now == s
        }),
    decreases n,
{
    if n > 0 {
        let m = (n - 1) as nat;
        unresolved_phis_are_stated(phis, t, s, m);
        let last = required_upto(phis, t, s, m)->Ok_0;
        let now = required_upto(phis, t, s, n)->Ok_0;
        assert(is_unresolved(t[m as int]) <==> leaves_open(t[m as int])) by {
            if leaves_open(t[m as int]) {
                let j = choose|j: int|
                    0 <= j < t[m as int].len() && #[trigger] t[m as int][j] == PhiIncomingDisposition::DiagnosticUnresolved;
                assert(t[m as int][j] is DiagnosticUnresolved);
            }
        }
        assert(now.entries.take(s.entries.len() as int) =~= s.entries) by {
            assert(last.entries.take(s.entries.len() as int) == s.entries);
            assert forall|i: int| 0 <= i < s.entries.len() implies now.entries[i] == s.entries[i] by {
                assert(last.entries.take(s.entries.len() as int)[i] == last.entries[i]);
            }
        }
        assert forall|p: int| 0 <= p < n && leaves_open(#[trigger] t[p]) implies phis[p].block.0 < s.flags.len()
            && now.flags[phis[p].block.0 as int] && now.entries.contains(
            PlanRequirement::UnresolvedValue { phi_id: phis[p].id, block: phis[p].block, reg: phis[p].reg },
        ) by {
            let x = PlanRequirement::UnresolvedValue { phi_id: phis[p].id, block: phis[p].block, reg: phis[p].reg };
            if p < m {
                let k = last.entries.index_of(x);
                assert(now.entries[k] == x);
            } else {
                assert(now.entries.last() == x);
            }
        }
    } else {
        assert(s.entries.take(s.entries.len() as int) =~= s.entries);
    }
}

} // verus!
