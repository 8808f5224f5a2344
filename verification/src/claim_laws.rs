//! Which regions take care of the values that flow into phis.

use vstd::prelude::*;

use crate::claims::{arms_fault, claims_loop_value, in_both, yields_branch, yields_phi, Owners};
use crate::dataflow::{DataflowFacts, PhiCandidate, PhiId, SsaValue};
use crate::evidence::{BranchValueMergeValue, LoopValueIncoming, LoopValueMerge};
use crate::graph::GraphFacts;
use crate::inherit::{inherited, joint_owner, uses_in, uses_upto};
use crate::owners::{is_detached, lies_around, merged_owner, owners_agree_in_either_order, parent_fault, tree_fault};
use crate::plan::{PhiIncomingDisposition, RegionId, ValueDecisionPlan};
use crate::region_claims::{decision_claims, input_claim, phis_upto};
use crate::search::{first_some_empty, first_where_least};
use crate::structure_plan::StructurePlan;

verus! {

/// Some branch holds the region, or is it, or the region is an expression.
pub open spec fn yields_for_others(plan: &StructurePlan, r: RegionId) -> bool {
    r.0 < plan.regions@.len() && (plan.regions@[r.0 as int] is ValueDecision || exists|a: RegionId| #[trigger]
        lies_around(plan, a, r) && plan.regions@[a.0 as int] is Branch)
}

/// Of two regions that both yield a value, or both take it in, the inner one takes care of it,
/// and none does where neither lies in the other.
pub proof fn inner_regions_take_care(plan: &StructurePlan, a: RegionId, b: RegionId)
    requires
        tree_fault(plan) is None,
        a != b,
    ensures
        lies_around(plan, a, b) ==> merged_owner(
            plan,
            PhiIncomingDisposition::RegionResult(a),
            PhiIncomingDisposition::RegionResult(b),
        ) == PhiIncomingDisposition::RegionResult(b) && merged_owner(
            plan,
            PhiIncomingDisposition::RegionInput(a),
            PhiIncomingDisposition::RegionInput(b),
        ) == PhiIncomingDisposition::RegionInput(b),
        lies_around(plan, a, b) ==> merged_owner(
            plan,
            PhiIncomingDisposition::RegionResult(b),
            PhiIncomingDisposition::RegionResult(a),
        ) == PhiIncomingDisposition::RegionResult(b),
        !lies_around(plan, a, b) && !lies_around(plan, b, a) ==> merged_owner(
            plan,
            PhiIncomingDisposition::RegionResult(a),
            PhiIncomingDisposition::RegionResult(b),
        ) is DiagnosticUnresolved && merged_owner(
            plan,
            PhiIncomingDisposition::RegionInput(a),
            PhiIncomingDisposition::RegionInput(b),
        ) is DiagnosticUnresolved,
{
    owners_agree_in_either_order(
        plan,
        PhiIncomingDisposition::RegionResult(b),
        PhiIncomingDisposition::RegionResult(a),
    );
}

/// A copy or a dead value stays one whoever comes forward, a loop that carries a value keeps
/// it against other regions, and what one region takes in another yields only where it does so
/// within a branch or as an expression.
pub proof fn loops_come_before_regions(plan: &StructurePlan, a: RegionId, b: RegionId, d: PhiIncomingDisposition)
    ensures
        merged_owner(plan, PhiIncomingDisposition::Dead, d) is Dead,
        merged_owner(plan, PhiIncomingDisposition::EdgeCopy, d) is EdgeCopy,
        !(d is Dead) ==> merged_owner(plan, d, PhiIncomingDisposition::EdgeCopy) is EdgeCopy,
        merged_owner(plan, d, d) == d,
        merged_owner(plan, PhiIncomingDisposition::LoopCarried(a), PhiIncomingDisposition::RegionInput(b))
            == PhiIncomingDisposition::LoopCarried(a),
        merged_owner(plan, PhiIncomingDisposition::RegionResult(b), PhiIncomingDisposition::LoopCarried(a))
            == PhiIncomingDisposition::LoopCarried(a),
        merged_owner(plan, PhiIncomingDisposition::RegionInput(a), PhiIncomingDisposition::RegionResult(b)) == (
        if yields_for_others(plan, b) {
            PhiIncomingDisposition::RegionResult(b)
        } else {
            PhiIncomingDisposition::RegionInput(a)
        }),
        merged_owner(plan, PhiIncomingDisposition::RegionResult(b), PhiIncomingDisposition::RegionInput(a)) == (
        if yields_for_others(plan, b) {
            PhiIncomingDisposition::RegionResult(b)
        } else {
            PhiIncomingDisposition::RegionInput(a)
        }),
{
}

/// Incoming `j` of the phi comes from a block of the arm.
pub open spec fn comes_from(phi: &PhiCandidate, arm: Seq<LoopValueIncoming>, j: int) -> bool {
    exists|k: int| 0 <= k < arm.len() && (#[trigger] arm[k]).pred == phi.incoming@[j].pred
}

/// A phi at the head of a loop: what comes from within is carried by the loop, what comes from
/// outside is taken in by it, and no incoming is both. Nothing else changes hands.
pub proof fn loops_carry_what_comes_from_within(
    plan: &StructurePlan,
    phis: Seq<PhiCandidate>,
    t: Owners,
    region: RegionId,
    value: &LoopValueMerge,
    j: int,
)
    requires
        claims_loop_value(plan, phis, t, region, value, true) is Ok,
        t.len() == phis.len(),
        0 <= j < t[value.phi_id.0 as int].len() == phis[value.phi_id.0 as int].incoming@.len(),
        t[value.phi_id.0 as int][j] is None,
    ensures
        ({
            let p = value.phi_id.0 as int;
            let phi = &phis[p];
            let now = claims_loop_value(plan, phis, t, region, value, true)->Ok_0;
            &&& comes_from(phi, value.inside_arm.incomings@, j) ==> now[p][j] == Some(
                PhiIncomingDisposition::LoopCarried(region),
            )
            &&& comes_from(phi, value.outside_arm.incomings@, j) ==> now[p][j] == Some(
                PhiIncomingDisposition::RegionInput(region),
            )
            &&& !comes_from(phi, value.inside_arm.incomings@, j) && !comes_from(phi, value.outside_arm.incomings@, j)
                ==> now[p][j] is None
            &&& forall|q: int| 0 <= q < t.len() && q != p ==> #[trigger] now[q] == t[q]
        }),
{
    let phi = &phis[value.phi_id.0 as int];
    let both = in_both(phi, value.inside_arm.incomings@, value.outside_arm.incomings@);
    first_where_least(phi.incoming@.len(), both);
    assert(!both(j));
}

/// A phi behind a loop: what comes from within is what the loop yields. Nothing else changes
/// hands.
pub proof fn loops_yield_what_comes_from_within(
    plan: &StructurePlan,
    phis: Seq<PhiCandidate>,
    t: Owners,
    region: RegionId,
    value: &LoopValueMerge,
    j: int,
)
    requires
        claims_loop_value(plan, phis, t, region, value, false) is Ok,
        t.len() == phis.len(),
        0 <= j < t[value.phi_id.0 as int].len() == phis[value.phi_id.0 as int].incoming@.len(),
        t[value.phi_id.0 as int][j] is None,
    ensures
        ({
            let p = value.phi_id.0 as int;
            let now = claims_loop_value(plan, phis, t, region, value, false)->Ok_0;
            &&& now[p][j] == (if comes_from(&phis[p], value.inside_arm.incomings@, j) {
                Some(PhiIncomingDisposition::RegionResult(region))
            } else {
                None
            })
            &&& forall|q: int| 0 <= q < t.len() && q != p ==> #[trigger] now[q] == t[q]
        }),
{
}

/// A phi behind a branch: what comes from a block of one of its arms is what the branch yields.
/// Nothing else changes hands.
pub proof fn branches_yield_what_their_arms_bring(
    plan: &StructurePlan,
    phis: Seq<PhiCandidate>,
    t: Owners,
    region: RegionId,
    value: &BranchValueMergeValue,
    j: int,
)
    requires
        yields_branch(plan, phis, t, region, value) is Ok,
        t.len() == phis.len(),
        0 <= j < t[value.phi_id.0 as int].len(),
        t[value.phi_id.0 as int][j] is None,
    ensures
        ({
            let p = value.phi_id.0 as int;
            let now = yields_branch(plan, phis, t, region, value)->Ok_0;
            let pred = phis[p].incoming@[j].pred;
            &&& now[p][j] == (if pred is Some && (value.then_arm.preds@.contains(pred->0) || value.else_arm.preds@.contains(
                pred->0,
            )) {
                Some(PhiIncomingDisposition::RegionResult(region))
            } else {
                None
            })
            &&& forall|q: int| 0 <= q < t.len() && q != p ==> #[trigger] now[q] == t[q]
        }),
{
}

/// Every incoming of the phi has an owner.
pub open spec fn is_taken_care_of(t: Owners, p: PhiId) -> bool {
    forall|j: int| 0 <= j < t[p.0 as int].len() ==> (#[trigger] t[p.0 as int][j]) is Some
}

proof fn listed_phis_are_yielded(
    plan: &StructurePlan,
    phis: Seq<PhiCandidate>,
    t: Owners,
    region: RegionId,
    list: Seq<PhiId>,
    n: nat,
)
    requires
        n <= list.len(),
        t.len() == phis.len(),
        phis_upto(plan, phis, t, region, list, n) is Ok,
    ensures
        phis_upto(plan, phis, t, region, list, n)->Ok_0.len() == t.len(),
        forall|p: PhiId| p.0 < t.len() && is_taken_care_of(t, p) ==> #[trigger] is_taken_care_of(
            phis_upto(plan, phis, t, region, list, n)->Ok_0,
            p,
        ),
        forall|k: int|
            0 <= k < n ==> (#[trigger] list[k]).0 < t.len() && is_taken_care_of(
                phis_upto(plan, phis, t, region, list, n)->Ok_0,
                list[k],
            ),
    decreases n,
{
    if n > 0 {
        listed_phis_are_yielded(plan, phis, t, region, list, (n - 1) as nat);
        let last = phis_upto(plan, phis, t, region, list, (n - 1) as nat)->Ok_0;
        let now = phis_upto(plan, phis, t, region, list, n)->Ok_0;
        assert(is_taken_care_of(now, list[n - 1]));
        assert forall|p: PhiId| p.0 < t.len() && is_taken_care_of(last, p) implies #[trigger] is_taken_care_of(now, p) by {
            assert forall|j: int| 0 <= j < now[p.0 as int].len() implies (#[trigger] now[p.0 as int][j]) is Some by {
                assert(last[p.0 as int][j] is Some);
            }
        }
        assert forall|k: int| 0 <= k < n implies (#[trigger] list[k]).0 < t.len() && is_taken_care_of(now, list[k]) by {
            if k < n - 1 {
                assert(is_taken_care_of(last, list[k]));
            }
        }
    }
}

/// An expression takes care of everything that flows into its result, and into the phis that
/// it takes in.
pub proof fn expressions_take_care_of_their_phis(
    plan: &StructurePlan,
    phis: Seq<PhiCandidate>,
    t: Owners,
    region: RegionId,
    d: &ValueDecisionPlan,
    k: int,
)
    requires
        t.len() == phis.len(),
        decision_claims(plan, phis, t, region, d) is Ok,
        0 <= k < d.absorbed_phis@.len(),
    ensures
        is_taken_care_of(decision_claims(plan, phis, t, region, d)->Ok_0, d.result_phi),
        is_taken_care_of(decision_claims(plan, phis, t, region, d)->Ok_0, d.absorbed_phis@[k]),
{
    let now = yields_phi(plan, phis, t, region, d.result_phi)->Ok_0;
    assert(is_taken_care_of(now, d.result_phi));
    listed_phis_are_yielded(plan, phis, now, region, d.absorbed_phis@, d.absorbed_phis@.len());
    assert(d.absorbed_phis@[k].0 < now.len());
}

/// What a region yields altogether it takes over where nobody else did.
pub proof fn yielded_phis_belong_to_the_region(
    plan: &StructurePlan,
    phis: Seq<PhiCandidate>,
    t: Owners,
    region: RegionId,
    phi: PhiId,
    j: int,
)
    requires
        yields_phi(plan, phis, t, region, phi) is Ok,
        t.len() == phis.len(),
        0 <= j < t[phi.0 as int].len(),
    ensures
        ({
            let now = yields_phi(plan, phis, t, region, phi)->Ok_0;
            &&& t[phi.0 as int][j] is None ==> now[phi.0 as int][j] == Some(PhiIncomingDisposition::RegionResult(region))
            &&& t[phi.0 as int][j] matches Some(PhiIncomingDisposition::LoopCarried(a)) ==> now[phi.0 as int][j] == Some(
                PhiIncomingDisposition::LoopCarried(a),
            )
            &&& forall|q: int| 0 <= q < t.len() && q != phi.0 ==> #[trigger] now[q] == t[q]
        }),
{
}

/// A phi becomes an input of the region of its block only where every incoming brings what the
/// immediate dominator of the block leaves in the register.
pub proof fn inputs_pass_through(
    g: &GraphFacts,
    plan: &StructurePlan,
    dataflow: &DataflowFacts,
    t: Owners,
    p: int,
    j: int,
)
    requires
        0 <= p < t.len(),
        0 <= j < dataflow.phi_candidates@[p].incoming@.len() == t[p].len(),
        input_claim(g, plan, dataflow, t, p) is Ok,
        t[p][j] is None,
    ensures
        ({
            let now = input_claim(g, plan, dataflow, t, p)->Ok_0;
            let phi = &dataflow.phi_candidates@[p];
            now[p][j] is Some <==> g.dominator_tree.idom(phi.block) is Some && forall|k: int|
                0 <= k < phi.incoming@.len() ==> (#[trigger] phi.incoming@[k]).value == dataflow.exit_value(
                    g.dominator_tree.idom(phi.block)->0,
                    phi.reg,
                )
        }),
        ({
            let now = input_claim(g, plan, dataflow, t, p)->Ok_0;
            let at = dataflow.phi_candidates@[p].block.0;
            now[p][j] is Some ==> at < plan.region_by_block@.len() && plan.region_by_block@[at as int] is Some && now[p][j]
                == Some(PhiIncomingDisposition::RegionInput(plan.region_by_block@[at as int]->0))
        }),
{
}

/// Phi `u` flows into phi `q` at incoming `j`.
pub open spec fn feeds(phis: Seq<PhiCandidate>, u: usize, q: int, j: int) -> bool {
    0 <= q < phis.len() && 0 <= j < phis[q].incoming@.len() && phis[q].incoming@[j].value == SsaValue::Phi(PhiId(u))
}

proof fn places_in(phi: &PhiCandidate, q: usize, u: usize, n: nat, acc: Seq<(usize, usize)>, j: int)
    requires
        n <= phi.incoming@.len() <= usize::MAX,
        0 <= j < n,
        phi.incoming@[j].value == SsaValue::Phi(PhiId(u)),
    ensures
        uses_in(phi, q, u, n, acc).contains((q, j as usize)),
    decreases n,
{
    let now = uses_in(phi, q, u, n, acc);
    if j == n - 1 {
        assert(now.last() == (q, j as usize));
    } else {
        places_in(phi, q, u, (n - 1) as nat, acc, j);
        let rest = uses_in(phi, q, u, (n - 1) as nat, acc);
        let k = rest.index_of((q, j as usize));
        assert(now[k] == rest[k]);
    }
}

proof fn places_kept(phi: &PhiCandidate, q: usize, u: usize, n: nat, acc: Seq<(usize, usize)>, x: (usize, usize))
    requires
        acc.contains(x),
    ensures
        uses_in(phi, q, u, n, acc).contains(x),
    decreases n,
{
    if n > 0 {
        places_kept(phi, q, u, (n - 1) as nat, acc, x);
        let rest = uses_in(phi, q, u, (n - 1) as nat, acc);
        let k = rest.index_of(x);
        assert(uses_in(phi, q, u, n, acc)[k] == x);
    }
}

proof fn places_upto(phis: Seq<PhiCandidate>, u: usize, n: nat, q: int, j: int)
    requires
        n <= phis.len() <= usize::MAX,
        q < n,
        feeds(phis, u, q, j),
        forall|i: int| 0 <= i < phis.len() ==> (#[trigger] phis[i]).incoming@.len() <= usize::MAX,
    ensures
        uses_upto(phis, u, n).contains((q as usize, j as usize)),
    decreases n,
{
    let m = (n - 1) as nat;
    let phi = &phis[m as int];
    if q == m {
        assert(phis[q].incoming@.len() <= usize::MAX);
        places_in(phi, q as usize, u, phi.incoming@.len(), uses_upto(phis, u, m), j);
    } else {
        places_upto(phis, u, m, q, j);
        places_kept(phi, m as usize, u, phi.incoming@.len(), uses_upto(phis, u, m), (q as usize, j as usize));
    }
}

proof fn all_places_belong(plan: &StructurePlan, t: Owners, places: Seq<(usize, usize)>, n: nat, k: int)
    requires
        n <= places.len(),
        joint_owner(plan, t, places, n) is Some,
        0 <= k < n,
    ensures
        t[places[k].0 as int][places[k].1 as int] is Some,
        (t[places[k].0 as int][places[k].1 as int]->0).region_of() is Some,
    decreases n,
{
    if k < n - 1 {
        all_places_belong(plan, t, places, (n - 1) as nat, k);
    }
}

/// A phi inherits an owner only where nobody has claimed it and no instruction reads it, and
/// where regions take care of it at every phi that it flows into.
pub proof fn phis_inherit_from_where_they_flow(
    plan: &StructurePlan,
    dataflow: &DataflowFacts,
    t: Owners,
    u: usize,
    q: int,
    j: int,
)
    requires
        inherited(plan, dataflow, t, u as int) is Some,
        feeds(dataflow.phi_candidates@, u, q, j),
        dataflow.phi_candidates@.len() <= usize::MAX,
        forall|i: int|
            0 <= i < dataflow.phi_candidates@.len() ==> (#[trigger] dataflow.phi_candidates@[i]).incoming@.len() <= usize::MAX,
    ensures
        dataflow.use_count_of(PhiId(u)) == 0,
        forall|i: int| 0 <= i < t[u as int].len() ==> (#[trigger] t[u as int][i]) is None,
        match t[q][j] {
            Some(
                PhiIncomingDisposition::RegionInput(_)
                | PhiIncomingDisposition::RegionResult(_)
                | PhiIncomingDisposition::LoopCarried(_),
            ) => true,
            _ => false,
        },
{
    let phis = dataflow.phi_candidates@;
    let places = uses_upto(phis, u, phis.len());
    places_upto(phis, u, phis.len(), q, j);
    let k = places.index_of((q as usize, j as usize));
    assert(phis[q].incoming@.len() <= usize::MAX);
    all_places_belong(plan, t, places, places.len(), k);
}

/// Regions form a tree: the outermost one exists and lies in no other, every other lies in a
/// region that exists, and going from any region to the one around it leads to the outermost.
pub proof fn regions_form_a_tree(plan: &StructurePlan, r: RegionId)
    requires
        tree_fault(plan) is None,
        r.0 < plan.regions@.len(),
    ensures
        plan.root.0 < plan.regions@.len(),
        plan.regions@[r.0 as int].parent_of() is None <==> r == plan.root,
        plan.regions@[r.0 as int].parent_of() is Some ==> (plan.regions@[r.0 as int].parent_of()->0).0
            < plan.regions@.len(),
        lies_around(plan, plan.root, r),
{
    let n = plan.regions@.len();
    first_some_empty(n, parent_fault(plan));
    assert((parent_fault(plan))(r.0 as int) is None);
    first_where_least(n, is_detached(plan));
    assert(!(is_detached(plan))(r.0 as int));
}

/// A loop can claim a phi there is when its arms are parts of the phi and no incoming comes
/// from both.
pub proof fn parted_arms_are_claimed(
    plan: &StructurePlan,
    phis: Seq<PhiCandidate>,
    t: Owners,
    region: RegionId,
    value: &LoopValueMerge,
    at_head: bool,
)
    requires
        value.phi_id.0 < phis.len(),
        arms_fault(
            phis,
            &phis[value.phi_id.0 as int],
            value.inside_arm.incomings@,
            value.outside_arm.incomings@,
        ) is None,
    ensures
        claims_loop_value(plan, phis, t, region, value, at_head) is Ok <==> forall|j: int|
            0 <= j < phis[value.phi_id.0 as int].incoming@.len() ==> !(#[trigger] comes_from(
                &phis[value.phi_id.0 as int],
                value.inside_arm.incomings@,
                j,
            ) && comes_from(&phis[value.phi_id.0 as int], value.outside_arm.incomings@, j)),
{
    let phi = &phis[value.phi_id.0 as int];
    let inside = value.inside_arm.incomings@;
    let outside = value.outside_arm.incomings@;
    let both = in_both(phi, inside, outside);
    first_where_least(phi.incoming@.len(), both);
    assert forall|j: int| #[trigger] both(j) <==> comes_from(phi, inside, j) && comes_from(phi, outside, j) by {}
    if claims_loop_value(plan, phis, t, region, value, at_head) is Ok {
        assert forall|j: int| 0 <= j < phi.incoming@.len() implies !(#[trigger] comes_from(phi, inside, j) && comes_from(
            phi,
            outside,
            j,
        )) by {
            assert(!both(j));
        }
    }
}

} // verus!
