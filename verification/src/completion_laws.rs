//! A completed plan passes its own check.

use vstd::prelude::*;

use crate::cfg::Cfg;
use crate::claims::{
    arms_owner, claimed_row, everywhere, header_owner, phis_dense, result_owner, yields_condition,
    yields_condition_id, yields_phi, Owners,
};
use crate::copy_targets::{all_targets, Targets};
use crate::dataflow::{is_needed, DataflowFacts, PhiCandidate, PhiId};
use crate::dispositions::{clear_owners, clear_row, last_words, misplaced};
use crate::edge_copies::{copies_in, copies_upto, dispositions_fit, needs_copy, no_copies, CopyState, Dispositions};
use crate::error::Fault;
use crate::evidence::{BranchValueMergeValue, LoopExitValueMergeCandidate, LoopValueMerge};
use crate::finalize::{decided, finalization, finalized, same_edge_plan, FinalModel};
use crate::graph::GraphFacts;
use crate::inherit::{joint_owner, one_round, rounds, settled_owners, uses_in, uses_upto};
use crate::install::{
    install_problem, is_plan_of, is_unresolved, owner_missing, required_upto, requirement_state, RequirementState,
};
use crate::ownership::{
    disposition_problem, incoming_problem, is_cut_off, is_loop_region, names_unresolved, ownership_fault, phi_problem,
    requirement_problem, says_unresolved,
};
use crate::ownership_laws::completed_tables_agree;
use crate::plan::{ConditionPlan, PhiIncomingDisposition, PlanRequirement, RegionId, RegionPlan};
use crate::region_claims::{
    all_regions_claim, branch_values_upto, input_claim, inputs_claim, loop_condition_claims, loop_exits_upto,
    loop_values_upto, phis_upto, region_claims, regions_claim,
};
use crate::search::{first_some, first_some_empty, first_where_least};
use crate::structure_plan::{entry_at, StructurePlan};

verus! {

/// A loop is said to carry a value only if it is one.
spec fn is_plain(plan: &StructurePlan, d: PhiIncomingDisposition) -> bool {
    match d {
        PhiIncomingDisposition::Dead => false,
        PhiIncomingDisposition::EdgeCopy => false,
        PhiIncomingDisposition::LoopCarried(r) => is_loop_region(plan, r),
        _ => true,
    }
}

/// The owner suits incoming `j` of phi `p`.
spec fn suits(plan: &StructurePlan, dataflow: &DataflowFacts, p: int, j: int, d: PhiIncomingDisposition) -> bool {
    let e = dataflow.phi_candidates@[p].incoming@[j].edge;
    match d {
        PhiIncomingDisposition::Dead => !is_needed(dataflow.use_values@, dataflow.phi_candidates@, p as usize) || is_cut_off(plan, e),
        PhiIncomingDisposition::EdgeCopy => e is Some,
        _ => is_plain(plan, d),
    }
}

/// Every owner so far suits its place.
spec fn all_suit(plan: &StructurePlan, dataflow: &DataflowFacts, t: Owners) -> bool {
    let phis = dataflow.phi_candidates@;
    &&& t.len() == phis.len()
    &&& forall|p: int| 0 <= p < t.len() ==> (#[trigger] t[p]).len() == phis[p].incoming@.len()
    &&& forall|p: int, j: int|
        0 <= p < t.len() && 0 <= j < t[p].len() ==> match #[trigger] t[p][j] {
            Some(d) => suits(plan, dataflow, p, j, d),
            None => true,
        }
}

/// Whoever comes forward suits the incomings of phi `p`.
spec fn comers_suit(plan: &StructurePlan, mine: spec_fn(int) -> Option<PhiIncomingDisposition>) -> bool {
    forall|j: int| match #[trigger] mine(j) {
        Some(d) => is_plain(plan, d),
        None => true,
    }
}

proof fn claim_suits(
    plan: &StructurePlan,
    dataflow: &DataflowFacts,
    t: Owners,
    p: int,
    mine: spec_fn(int) -> Option<PhiIncomingDisposition>,
)
    requires
        all_suit(plan, dataflow, t),
        0 <= p < t.len(),
        comers_suit(plan, mine),
    ensures
        all_suit(plan, dataflow, t.update(p, claimed_row(plan, t[p], mine))),
{
    let row = claimed_row(plan, t[p], mine);
    let now = t.update(p, row);
    assert forall|q: int| 0 <= q < now.len() implies (#[trigger] now[q]).len() == dataflow.phi_candidates@[q].incoming@.len() by {
        assert(t[q].len() == dataflow.phi_candidates@[q].incoming@.len());
    }
    assert forall|q: int, j: int| 0 <= q < now.len() && 0 <= j < now[q].len() implies match #[trigger] now[q][j] {
        Some(d) => suits(plan, dataflow, q, j, d),
        None => true,
    } by {
        let was = t[q][j];
        assert(match was {
            Some(d) => suits(plan, dataflow, q, j, d),
            None => true,
        });
        if q == p {
            assert(match mine(j) {
                Some(d) => is_plain(plan, d),
                None => true,
            });
        }
    }
}

proof fn phi_suits(plan: &StructurePlan, dataflow: &DataflowFacts, t: Owners, region: RegionId, phi: PhiId)
    requires
        all_suit(plan, dataflow, t),
        yields_phi(plan, dataflow.phi_candidates@, t, region, phi) is Ok,
    ensures
        all_suit(plan, dataflow, yields_phi(plan, dataflow.phi_candidates@, t, region, phi)->Ok_0),
{
    claim_suits(plan, dataflow, t, phi.0 as int, everywhere(PhiIncomingDisposition::RegionResult(region)));
}

proof fn condition_suits(
    plan: &StructurePlan,
    dataflow: &DataflowFacts,
    t: Owners,
    region: RegionId,
    c: &ConditionPlan,
    n: nat,
)
    requires
        all_suit(plan, dataflow, t),
        yields_condition(plan, dataflow.phi_candidates@, t, region, c, n) is Ok,
    ensures
        all_suit(plan, dataflow, yields_condition(plan, dataflow.phi_candidates@, t, region, c, n)->Ok_0),
    decreases n,
{
    if n > 0 {
        condition_suits(plan, dataflow, t, region, c, (n - 1) as nat);
        let now = yields_condition(plan, dataflow.phi_candidates@, t, region, c, (n - 1) as nat)->Ok_0;
        if let Some(v) = c.nodes@[n - 1].materialized_value {
            phi_suits(plan, dataflow, now, region, v.phi);
        }
    }
}

proof fn branch_values_suit(
    plan: &StructurePlan,
    dataflow: &DataflowFacts,
    t: Owners,
    region: RegionId,
    list: Seq<BranchValueMergeValue>,
    n: nat,
)
    requires
        all_suit(plan, dataflow, t),
        branch_values_upto(plan, dataflow.phi_candidates@, t, region, list, n) is Ok,
    ensures
        all_suit(plan, dataflow, branch_values_upto(plan, dataflow.phi_candidates@, t, region, list, n)->Ok_0),
    decreases n,
{
    if n > 0 {
        branch_values_suit(plan, dataflow, t, region, list, (n - 1) as nat);
        let now = branch_values_upto(plan, dataflow.phi_candidates@, t, region, list, (n - 1) as nat)->Ok_0;
        let p = list[n - 1].phi_id.0 as int;
        claim_suits(plan, dataflow, now, p, arms_owner(&dataflow.phi_candidates@[p], &list[n - 1], region));
    }
}

proof fn loop_values_suit(
    plan: &StructurePlan,
    dataflow: &DataflowFacts,
    t: Owners,
    region: RegionId,
    list: Seq<LoopValueMerge>,
    at_head: bool,
    n: nat,
)
    requires
        all_suit(plan, dataflow, t),
        is_loop_region(plan, region),
        loop_values_upto(plan, dataflow.phi_candidates@, t, region, list, at_head, n) is Ok,
    ensures
        all_suit(plan, dataflow, loop_values_upto(plan, dataflow.phi_candidates@, t, region, list, at_head, n)->Ok_0),
    decreases n,
{
    if n > 0 {
        loop_values_suit(plan, dataflow, t, region, list, at_head, (n - 1) as nat);
        let now = loop_values_upto(plan, dataflow.phi_candidates@, t, region, list, at_head, (n - 1) as nat)->Ok_0;
        let p = list[n - 1].phi_id.0 as int;
        let phi = &dataflow.phi_candidates@[p];
        if at_head {
            claim_suits(plan, dataflow, now, p, header_owner(phi, &list[n - 1], region));
        } else {
            claim_suits(plan, dataflow, now, p, result_owner(phi, &list[n - 1], region));
        }
    }
}

proof fn loop_exits_suit(
    plan: &StructurePlan,
    dataflow: &DataflowFacts,
    t: Owners,
    region: RegionId,
    list: Seq<LoopExitValueMergeCandidate>,
    n: nat,
)
    requires
        all_suit(plan, dataflow, t),
        is_loop_region(plan, region),
        loop_exits_upto(plan, dataflow.phi_candidates@, t, region, list, n) is Ok,
    ensures
        all_suit(plan, dataflow, loop_exits_upto(plan, dataflow.phi_candidates@, t, region, list, n)->Ok_0),
    decreases n,
{
    if n > 0 {
        loop_exits_suit(plan, dataflow, t, region, list, (n - 1) as nat);
        let now = loop_exits_upto(plan, dataflow.phi_candidates@, t, region, list, (n - 1) as nat)->Ok_0;
        loop_values_suit(plan, dataflow, now, region, list[n - 1].values@, false, list[n - 1].values@.len());
    }
}

proof fn phi_list_suits(
    plan: &StructurePlan,
    dataflow: &DataflowFacts,
    t: Owners,
    region: RegionId,
    list: Seq<PhiId>,
    n: nat,
)
    requires
        all_suit(plan, dataflow, t),
        phis_upto(plan, dataflow.phi_candidates@, t, region, list, n) is Ok,
    ensures
        all_suit(plan, dataflow, phis_upto(plan, dataflow.phi_candidates@, t, region, list, n)->Ok_0),
    decreases n,
{
    if n > 0 {
        phi_list_suits(plan, dataflow, t, region, list, (n - 1) as nat);
        let now = phis_upto(plan, dataflow.phi_candidates@, t, region, list, (n - 1) as nat)->Ok_0;
        phi_suits(plan, dataflow, now, region, list[n - 1]);
    }
}

proof fn region_suits(plan: &StructurePlan, dataflow: &DataflowFacts, t: Owners, i: int)
    requires
        all_suit(plan, dataflow, t),
        0 <= i < plan.regions@.len() <= usize::MAX,
        region_claims(plan, dataflow.phi_candidates@, t, i) is Ok,
    ensures
        all_suit(plan, dataflow, region_claims(plan, dataflow.phi_candidates@, t, i)->Ok_0),
{
    let phis = dataflow.phi_candidates@;
    let region = RegionId(i as usize);
    match plan.regions@[i] {
        RegionPlan::Branch { parent, plan: id, entry, condition, then_arm, else_arm, continuation } => {
            let b = &plan.branches@[id.0 as int];
            let c = &plan.conditions@[b.condition.0 as int];
            condition_suits(plan, dataflow, t, region, c, c.nodes@.len());
            let now = yields_condition_id(plan, phis, t, region, b.condition)->Ok_0;
            if let Some(v) = b.value_plan {
                branch_values_suit(plan, dataflow, now, region, v.values@, v.values@.len());
            }
        },
        RegionPlan::Loop { parent, plan: id, entry, preheader, control, body, normal_tail } => {
            let l = &plan.loops@[id.0 as int];
            if let Some(id) = l.condition {
                let c = &plan.conditions@[id.0 as int];
                condition_suits(plan, dataflow, t, region, c, c.nodes@.len());
            }
            let now = loop_condition_claims(plan, phis, t, region, l.condition)->Ok_0;
            loop_values_suit(plan, dataflow, now, region, l.carried_values@, true, l.carried_values@.len());
            let next = loop_values_upto(plan, phis, now, region, l.carried_values@, true, l.carried_values@.len())->Ok_0;
            loop_exits_suit(plan, dataflow, next, region, l.exit_values@, l.exit_values@.len());
        },
        RegionPlan::ValueDecision { parent, plan: id, entry, continuation } => {
            let d = &plan.value_decisions@[id.0 as int];
            phi_suits(plan, dataflow, t, region, d.result_phi);
            let now = yields_phi(plan, phis, t, region, d.result_phi)->Ok_0;
            phi_list_suits(plan, dataflow, now, region, d.absorbed_phis@, d.absorbed_phis@.len());
        },
        _ => {},
    }
}

proof fn regions_suit(plan: &StructurePlan, dataflow: &DataflowFacts, t: Owners, n: nat)
    requires
        all_suit(plan, dataflow, t),
        n <= plan.regions@.len() <= usize::MAX,
        regions_claim(plan, dataflow.phi_candidates@, t, n) is Ok,
    ensures
        all_suit(plan, dataflow, regions_claim(plan, dataflow.phi_candidates@, t, n)->Ok_0),
    decreases n,
{
    if n > 0 {
        regions_suit(plan, dataflow, t, (n - 1) as nat);
        let now = regions_claim(plan, dataflow.phi_candidates@, t, (n - 1) as nat)->Ok_0;
        region_suits(plan, dataflow, now, n - 1);
    }
}

proof fn inputs_suit(g: &GraphFacts, plan: &StructurePlan, dataflow: &DataflowFacts, t: Owners, n: nat)
    requires
        all_suit(plan, dataflow, t),
        n <= dataflow.phi_candidates@.len(),
        inputs_claim(g, plan, dataflow, t, n) is Ok,
    ensures
        all_suit(plan, dataflow, inputs_claim(g, plan, dataflow, t, n)->Ok_0),
    decreases n,
{
    if n > 0 {
        inputs_suit(g, plan, dataflow, t, (n - 1) as nat);
        let now = inputs_claim(g, plan, dataflow, t, (n - 1) as nat)->Ok_0;
        if input_claim(g, plan, dataflow, now, n - 1) != Ok::<Owners, Fault>(now) {
            let r = entry_at(plan.region_by_block@, dataflow.phi_candidates@[n - 1].block.0)->0;
            claim_suits(plan, dataflow, now, n - 1, everywhere(PhiIncomingDisposition::RegionInput(r)));
        }
    }
}

/// The places that a phi feeds exist.
proof fn uses_in_exist(phis: Seq<PhiCandidate>, q: usize, u: usize, n: nat, acc: Seq<(usize, usize)>)
    requires
        q < phis.len(),
        n <= phis[q as int].incoming@.len() <= usize::MAX,
        forall|k: int| 0 <= k < acc.len() ==> (#[trigger] acc[k]).0 < phis.len() && acc[k].1 < phis[acc[k].0 as int].incoming@.len(),
    ensures
        forall|k: int|
            0 <= k < uses_in(&phis[q as int], q, u, n, acc).len() ==> (#[trigger] uses_in(&phis[q as int], q, u, n, acc)[k]).0 < phis.len()
                && uses_in(&phis[q as int], q, u, n, acc)[k].1 < phis[uses_in(&phis[q as int], q, u, n, acc)[k].0 as int].incoming@.len(),
    decreases n,
{
    if n > 0 {
        uses_in_exist(phis, q, u, (n - 1) as nat, acc);
        let rest = uses_in(&phis[q as int], q, u, (n - 1) as nat, acc);
        let all = uses_in(&phis[q as int], q, u, n, acc);
        assert forall|k: int| 0 <= k < all.len() implies (#[trigger] all[k]).0 < phis.len() && all[k].1 < phis[all[k].0 as int].incoming@.len() by {
            if k < rest.len() {
                assert(all[k] == rest[k]);
            }
        }
    }
}

proof fn uses_exist(phis: Seq<PhiCandidate>, u: usize, n: nat)
    requires
        n <= phis.len() <= usize::MAX,
        forall|p: int| 0 <= p < phis.len() ==> (#[trigger] phis[p]).incoming@.len() <= usize::MAX,
    ensures
        forall|k: int|
            0 <= k < uses_upto(phis, u, n).len() ==> (#[trigger] uses_upto(phis, u, n)[k]).0 < phis.len() && uses_upto(phis, u, n)[k].1
                < phis[uses_upto(phis, u, n)[k].0 as int].incoming@.len(),
    decreases n,
{
    if n > 0 {
        uses_exist(phis, u, (n - 1) as nat);
        uses_in_exist(phis, (n - 1) as usize, u, phis[n - 1].incoming@.len(), uses_upto(phis, u, (n - 1) as nat));
    }
}

/// A joint owner is a region.
proof fn joint_owner_plain(plan: &StructurePlan, dataflow: &DataflowFacts, t: Owners, places: Seq<(usize, usize)>, n: nat)
    requires
        all_suit(plan, dataflow, t),
        n <= places.len(),
        forall|k: int| 0 <= k < places.len() ==> (#[trigger] places[k]).0 < t.len() && places[k].1 < t[places[k].0 as int].len(),
    ensures
        match joint_owner(plan, t, places, n) {
            Some(Some(o)) => is_plain(plan, o),
            _ => true,
        },
    decreases n,
{
    if n > 0 {
        joint_owner_plain(plan, dataflow, t, places, (n - 1) as nat);
        let (q, j) = places[n - 1];
        assert(q < t.len() && j < t[q as int].len());
        assert(match t[q as int][j as int] {
            Some(d) => suits(plan, dataflow, q as int, j as int, d),
            None => true,
        });
    }
}

proof fn round_suits(plan: &StructurePlan, dataflow: &DataflowFacts, t: Owners)
    requires
        all_suit(plan, dataflow, t),
        t.len() <= usize::MAX,
        forall|p: int| 0 <= p < dataflow.phi_candidates@.len() ==> (#[trigger] dataflow.phi_candidates@[p]).incoming@.len() <= usize::MAX,
    ensures
        all_suit(plan, dataflow, one_round(plan, dataflow, t)),
{
    let phis = dataflow.phi_candidates@;
    let now = one_round(plan, dataflow, t);
    assert forall|p: int| 0 <= p < now.len() implies (#[trigger] now[p]).len() == phis[p].incoming@.len() by {
        assert(t[p].len() == phis[p].incoming@.len());
    }
    assert forall|p: int, j: int| 0 <= p < now.len() && 0 <= j < now[p].len() implies match #[trigger] now[p][j] {
        Some(d) => suits(plan, dataflow, p, j, d),
        None => true,
    } by {
        assert(t[p].len() == phis[p].incoming@.len());
        let places = uses_upto(phis, p as usize, phis.len());
        uses_exist(phis, p as usize, phis.len());
        assert forall|k: int| 0 <= k < places.len() implies (#[trigger] places[k]).0 < t.len() && places[k].1
            < t[places[k].0 as int].len() by {
            assert(t[places[k].0 as int].len() == phis[places[k].0 as int].incoming@.len());
        }
        joint_owner_plain(plan, dataflow, t, places, places.len());
        assert(match t[p][j] {
            Some(d) => suits(plan, dataflow, p, j, d),
            None => true,
        });
    }
}

proof fn rounds_suit(plan: &StructurePlan, dataflow: &DataflowFacts, t: Owners, n: nat)
    requires
        all_suit(plan, dataflow, t),
        t.len() <= usize::MAX,
        forall|p: int| 0 <= p < dataflow.phi_candidates@.len() ==> (#[trigger] dataflow.phi_candidates@[p]).incoming@.len() <= usize::MAX,
    ensures
        all_suit(plan, dataflow, rounds(plan, dataflow, t, n)),
    decreases n,
{
    if n > 0 {
        rounds_suit(plan, dataflow, t, (n - 1) as nat);
        round_suits(plan, dataflow, rounds(plan, dataflow, t, (n - 1) as nat));
    }
}

proof fn clear_row_suits(cfg: &Cfg, plan: &StructurePlan, dataflow: &DataflowFacts, p: int, n: nat)
    requires
        0 <= p < dataflow.phi_candidates@.len(),
        n <= dataflow.phi_candidates@[p].incoming@.len(),
        clear_row(cfg, plan, &dataflow.phi_candidates@[p], n) is Ok,
    ensures
        clear_row(cfg, plan, &dataflow.phi_candidates@[p], n)->Ok_0.len() == n,
        forall|j: int| 0 <= j < n ==> match #[trigger] clear_row(cfg, plan, &dataflow.phi_candidates@[p], n)->Ok_0[j] {
            Some(d) => suits(plan, dataflow, p, j, d),
            None => true,
        },
    decreases n,
{
    if n > 0 {
        clear_row_suits(cfg, plan, dataflow, p, (n - 1) as nat);
    }
}

proof fn clear_suits(cfg: &Cfg, plan: &StructurePlan, dataflow: &DataflowFacts, n: nat)
    requires
        n <= dataflow.phi_candidates@.len(),
        clear_owners(cfg, plan, dataflow, n) is Ok,
    ensures
        ({
            let t = clear_owners(cfg, plan, dataflow, n)->Ok_0;
            &&& t.len() == n
            &&& forall|p: int| 0 <= p < n ==> (#[trigger] t[p]).len() == dataflow.phi_candidates@[p].incoming@.len()
            &&& forall|p: int, j: int|
                0 <= p < n && 0 <= j < t[p].len() ==> match #[trigger] t[p][j] {
                    Some(d) => suits(plan, dataflow, p, j, d),
                    None => true,
                }
        }),
    decreases n,
{
    if n > 0 {
        clear_suits(cfg, plan, dataflow, (n - 1) as nat);
        let rest = clear_owners(cfg, plan, dataflow, (n - 1) as nat)->Ok_0;
        let t = clear_owners(cfg, plan, dataflow, n)->Ok_0;
        let last = n - 1;
        let phi = &dataflow.phi_candidates@[last];
        if is_needed(dataflow.use_values@, dataflow.phi_candidates@, last as usize) {
            clear_row_suits(cfg, plan, dataflow, last, phi.incoming@.len());
        }
        assert forall|p: int| 0 <= p < n implies (#[trigger] t[p]).len() == dataflow.phi_candidates@[p].incoming@.len() by {
            if p < last {
                assert(t[p] == rest[p]);
            }
        }
        assert forall|p: int, j: int| 0 <= p < n && 0 <= j < t[p].len() implies match #[trigger] t[p][j] {
            Some(d) => suits(plan, dataflow, p, j, d),
            None => true,
        } by {
            if p < last {
                assert(t[p] == rest[p]);
                assert(match rest[p][j] {
                    Some(d) => suits(plan, dataflow, p, j, d),
                    None => true,
                });
            }
        }
    }
}

/// The owners that are decided in the end suit their places.
proof fn decided_suit(cfg: &Cfg, g: &GraphFacts, dataflow: &DataflowFacts, plan: &StructurePlan)
    requires
        decided(cfg, g, dataflow, plan) is Ok,
    ensures
        ({
            let t = decided(cfg, g, dataflow, plan)->Ok_0;
            &&& t.len() == dataflow.phi_candidates@.len()
            &&& forall|p: int| 0 <= p < t.len() ==> (#[trigger] t[p]).len() == dataflow.phi_candidates@[p].incoming@.len()
            &&& forall|p: int, j: int| 0 <= p < t.len() && 0 <= j < t[p].len() ==> suits(plan, dataflow, p, j, #[trigger] t[p][j])
        }),
{
    let phis = dataflow.phi_candidates@;
    assert(dataflow.phi_candidates.len() <= usize::MAX);
    assert(plan.regions.len() <= usize::MAX);
    assert forall|p: int| 0 <= p < phis.len() implies (#[trigger] phis[p]).incoming@.len() <= usize::MAX by {
        assert(phis[p].incoming.len() <= usize::MAX);
    }
    clear_suits(cfg, plan, dataflow, phis.len());
    let clear = clear_owners(cfg, plan, dataflow, phis.len())->Ok_0;
    assert(all_suit(plan, dataflow, clear));
    regions_suit(plan, dataflow, clear, plan.regions@.len());
    let taken = all_regions_claim(plan, phis, clear)->Ok_0;
    inputs_suit(g, plan, dataflow, taken, phis.len());
    let passed = inputs_claim(g, plan, dataflow, taken, phis.len())->Ok_0;
    rounds_suit(plan, dataflow, passed, phis.len());
    let owners = settled_owners(plan, dataflow, passed)->Ok_0;
    let t = last_words(phis, owners);
    assert forall|p: int| 0 <= p < t.len() implies (#[trigger] t[p]).len() == phis[p].incoming@.len() by {
        assert(owners[p].len() == phis[p].incoming@.len());
    }
    assert forall|p: int, j: int| 0 <= p < t.len() && 0 <= j < t[p].len() implies suits(plan, dataflow, p, j, #[trigger] t[p][j]) by {
        assert(owners[p].len() == phis[p].incoming@.len());
        assert(match owners[p][j] {
            Some(d) => suits(plan, dataflow, p, j, d),
            None => true,
        });
    }
}

/// Copies are noted on existing edges only.
proof fn noted_edges_exist(
    plan: &StructurePlan,
    targets: Targets,
    phi: &PhiCandidate,
    row: Seq<PhiIncomingDisposition>,
    s: CopyState,
    n: nat,
    j: int,
)
    requires
        copies_in(plan, targets, phi, row, s, n) is Ok,
        0 <= j < n,
    ensures
        copies_in(plan, targets, phi, row, s, n)->Ok_0.actions.len() == s.actions.len(),
        phi.incoming@[j].edge is Some && needs_copy(plan, phi.id, row[j]) ==> (phi.incoming@[j].edge->0).0 < s.actions.len(),
    decreases n,
{
    if j < n - 1 {
        noted_edges_exist(plan, targets, phi, row, s, (n - 1) as nat, j);
    } else {
        noted_len(plan, targets, phi, row, s, (n - 1) as nat);
    }
}

proof fn noted_len(
    plan: &StructurePlan,
    targets: Targets,
    phi: &PhiCandidate,
    row: Seq<PhiIncomingDisposition>,
    s: CopyState,
    n: nat,
)
    requires
        copies_in(plan, targets, phi, row, s, n) is Ok,
    ensures
        copies_in(plan, targets, phi, row, s, n)->Ok_0.actions.len() == s.actions.len(),
    decreases n,
{
    if n > 0 {
        noted_len(plan, targets, phi, row, s, (n - 1) as nat);
    }
}

proof fn copied_edges_exist(
    plan: &StructurePlan,
    targets: Targets,
    phis: Seq<PhiCandidate>,
    t: Dispositions,
    s: CopyState,
    n: nat,
    p: int,
    j: int,
)
    requires
        dispositions_fit(phis, t),
        phis_dense(phis),
        copies_upto(plan, targets, phis, t, s, n) is Ok,
        0 <= p < n <= phis.len(),
        0 <= j < phis[p].incoming@.len(),
    ensures
        copies_upto(plan, targets, phis, t, s, n)->Ok_0.actions.len() == s.actions.len(),
        phis[p].incoming@[j].edge is Some && needs_copy(plan, phis[p].id, t[p][j]) ==> (phis[p].incoming@[j].edge->0).0 < s.actions.len(),
    decreases n,
{
    assert(t[n - 1].len() == phis[n - 1].incoming@.len() && phis[n - 1].id.0 == n - 1);
    copied_len(plan, targets, phis, t, s, (n - 1) as nat);
    let was = copies_upto(plan, targets, phis, t, s, (n - 1) as nat)->Ok_0;
    noted_len(plan, targets, &phis[n - 1], t[n - 1], was, phis[n - 1].incoming@.len());
    if p < n - 1 {
        copied_edges_exist(plan, targets, phis, t, s, (n - 1) as nat, p, j);
    } else {
        noted_edges_exist(plan, targets, &phis[p], t[p], was, phis[p].incoming@.len(), j);
    }
}

proof fn copied_len(plan: &StructurePlan, targets: Targets, phis: Seq<PhiCandidate>, t: Dispositions, s: CopyState, n: nat)
    requires
        dispositions_fit(phis, t),
        phis_dense(phis),
        copies_upto(plan, targets, phis, t, s, n) is Ok,
        n <= phis.len(),
    ensures
        copies_upto(plan, targets, phis, t, s, n)->Ok_0.actions.len() == s.actions.len(),
    decreases n,
{
    if n > 0 {
        assert(t[n - 1].len() == phis[n - 1].incoming@.len() && phis[n - 1].id.0 == n - 1);
        copied_len(plan, targets, phis, t, s, (n - 1) as nat);
        let was = copies_upto(plan, targets, phis, t, s, (n - 1) as nat)->Ok_0;
        noted_len(plan, targets, &phis[n - 1], t[n - 1], was, phis[n - 1].incoming@.len());
    }
}

/// What is unresolved is stated, and nothing is stated of phis that do not exist.
proof fn requirements_state(phis: Seq<PhiCandidate>, t: Dispositions, s: RequirementState, n: nat)
    requires
        n <= phis.len(),
        phis_dense(phis),
        required_upto(phis, t, s, n) is Ok,
        forall|i: int| 0 <= i < s.entries.len() ==> known_entry(#[trigger] s.entries[i], phis.len()),
    ensures
        ({
            let now = required_upto(phis, t, s, n)->Ok_0.entries;
            &&& forall|i: int| 0 <= i < now.len() ==> known_entry(#[trigger] now[i], phis.len())
            &&& forall|p: int| 0 <= p < n && is_unresolved(#[trigger] t[p]) ==> states_phi(now, phis[p].id)
        }),
    decreases n,
{
    if n > 0 {
        requirements_state(phis, t, s, (n - 1) as nat);
        let was = required_upto(phis, t, s, (n - 1) as nat)->Ok_0.entries;
        let now = required_upto(phis, t, s, n)->Ok_0.entries;
        assert(phis[n - 1].id.0 == n - 1);
        assert forall|p: int| 0 <= p < n && is_unresolved(#[trigger] t[p]) implies states_phi(now, phis[p].id) by {
            if p < n - 1 {
                assert(states_phi(was, phis[p].id));
                let i = choose|i: int| 0 <= i < was.len() && names_unresolved(#[trigger] was[i], phis[p].id);
                assert(now[i] == was[i]);
            } else {
                assert(names_unresolved(now[was.len() as int], phis[p].id));
            }
        }
        assert forall|i: int| 0 <= i < now.len() implies known_entry(#[trigger] now[i], phis.len()) by {
            if i < was.len() {
                assert(now[i] == was[i]);
            }
        }
    }
}

/// The requirement names no phi that does not exist.
pub open spec fn known_entry(r: PlanRequirement, count: nat) -> bool {
    match r {
        PlanRequirement::UnresolvedValue { phi_id, .. } => phi_id.0 < count,
        _ => true,
    }
}

spec fn states_phi(entries: Seq<PlanRequirement>, p: PhiId) -> bool {
    exists|i: int| 0 <= i < entries.len() && names_unresolved(#[trigger] entries[i], p)
}

/// A plan that has been completed passes its check: completing can fail only where its own
/// steps fail, never at the check in the end.
pub proof fn completed_plan_passes(
    cfg: &Cfg,
    g: &GraphFacts,
    dataflow: &DataflowFacts,
    a: &StructurePlan,
    b: &StructurePlan,
    m: FinalModel,
)
    requires
        finalization(cfg, g, dataflow, a) == Ok::<FinalModel, Fault>(m),
        finalized(cfg, dataflow.phi_candidates@, a, b, m),
        a.edge_plans@.len() == cfg.edges@.len(),
        forall|i: int|
            0 <= i < a.requirements.entries@.len() ==> known_entry(#[trigger] a.requirements.entries@[i], dataflow.phi_candidates@.len()),
    ensures
        ownership_fault(cfg, b, dataflow) is None,
{
    let phis = dataflow.phi_candidates@;
    let t = m.dispositions;
    completed_tables_agree(cfg, g, dataflow, a, b, m);
    decided_suit(cfg, g, dataflow, a);
    first_where_least(phis.len(), misplaced(phis));
    assert(phis_dense(phis)) by {
        assert forall|p: int| 0 <= p < phis.len() implies (#[trigger] phis[p]).id.0 == p by {
            assert(!misplaced(phis)(p));
        }
    }
    requirements_state(phis, t, requirement_state(&a.requirements), phis.len());
    let entries = required_upto(phis, t, requirement_state(&a.requirements), phis.len())->Ok_0.entries;
    assert(requirement_state(&b.requirements).entries == entries);
    let stated = requirement_problem(b, phis.len());
    assert forall|i: int| 0 <= i < b.requirements.entries@.len() implies (#[trigger] stated(i)) is None by {
        assert(known_entry(entries[i], phis.len()));
    }
    nothing_first(b.requirements.entries@.len(), stated);
    let problem = phi_problem(cfg, b, dataflow);
    assert forall|p: int| 0 <= p < phis.len() implies (#[trigger] problem(p)) is None by {
        phi_has_no_problem(cfg, g, dataflow, a, b, m, p);
    }
    nothing_first(phis.len(), problem);
}

proof fn nothing_first<T>(n: nat, f: spec_fn(int) -> Option<T>)
    requires
        forall|i: int| 0 <= i < n ==> (#[trigger] f(i)) is None,
    ensures
        first_some(n, f) is None,
    decreases n,
{
    if n > 0 {
        nothing_first((n - 1) as nat, f);
        assert(f(n - 1) is None);
    }
}

proof fn phi_has_no_problem(
    cfg: &Cfg,
    g: &GraphFacts,
    dataflow: &DataflowFacts,
    a: &StructurePlan,
    b: &StructurePlan,
    m: FinalModel,
    p: int,
)
    requires
        finalization(cfg, g, dataflow, a) == Ok::<FinalModel, Fault>(m),
        finalized(cfg, dataflow.phi_candidates@, a, b, m),
        phis_dense(dataflow.phi_candidates@),
        0 <= p < dataflow.phi_candidates@.len(),
        forall|i: int|
            0 <= i < a.requirements.entries@.len() ==> known_entry(#[trigger] a.requirements.entries@[i], dataflow.phi_candidates@.len()),
    ensures
        phi_problem(cfg, b, dataflow)(p) is None,
{
    let phis = dataflow.phi_candidates@;
    let phi = &phis[p];
    let q = &b.phis@[p];
    let t = m.dispositions;
    decided_suit(cfg, g, dataflow, a);
    assert(is_plan_of(phi, t[p], q));
    assert(phi.id.0 == p);
    let installed = install_problem(phis, t, cfg.blocks@.len(), a.regions@.len());
    first_some_empty(phis.len(), installed);
    assert(installed(p) is None);
    let missing = owner_missing(phi.id, t[p], a.regions@.len());
    first_some_empty(t[p].len(), missing);
    requirements_state(phis, t, requirement_state(&a.requirements), phis.len());
    let targets = all_targets(a, phis.len())->Ok_0;
    let problem = incoming_problem(cfg, b, dataflow, phi, q);
    assert(t[p].len() == phi.incoming@.len());
    assert forall|j: int| 0 <= j < phi.incoming@.len() implies (#[trigger] problem(j)) is None by {
        let d = t[p][j];
        let e = phi.incoming@[j].edge;
        assert(q.incomings@[j].disposition == d);
        assert(suits(a, dataflow, p, j, d));
        assert(missing(j) is None);
        if let Some(x) = e {
            if x.0 < a.edge_plans@.len() {
                assert(same_edge_plan(a.edge_plans@[x.0 as int], b.edge_plans@[x.0 as int]));
            }
        }
        if d is DiagnosticUnresolved {
            assert(is_unresolved(t[p]));
            assert(states_phi(b.requirements.entries@, phi.id));
            let i = choose|i: int|
                0 <= i < b.requirements.entries@.len() && names_unresolved(#[trigger] b.requirements.entries@[i], phi.id);
            assert(says_unresolved(b, phi.id));
        }
        assert(disposition_problem(b, dataflow, phi, j, d) is None);
        copied_edges_exist(a, targets, phis, t, no_copies(cfg.edges@.len(), phis.len()), phis.len(), p, j);
    }
    nothing_first(phi.incoming@.len(), problem);
}

} // verus!
