//! The claims of all regions, and of the blocks that values simply pass.

use vstd::prelude::*;

use crate::claims::{
    claim_branch_result, claim_condition_values, claim_loop_header_value, claim_loop_result, claim_row, claim_yield,
    claimed_row, claims_loop_value, everywhere, fits_after, owners_of, predecessor_overflows, slots_fit, went,
    yields_branch, yields_condition_id, yields_phi, LoopIncomingClassifier, Owners,
};
use crate::dataflow::{DataflowFacts, PhiCandidate, PhiId};
use crate::error::{Fault, StructureError};
use crate::evidence::{BranchValueMergeValue, LoopExitValueMergeCandidate, LoopValueMerge};
use crate::graph::GraphFacts;
use crate::owners::RegionOwnerIndex;
use crate::plan::{BranchPlanData, ConditionPlanId, LoopPlanData, PhiIncomingDisposition, RegionId, RegionPlan, ValueDecisionPlan};
use crate::structure_plan::{entry_at, StructurePlan};

verus! {

/// The first `n` values that a branch hands on.
pub open spec fn branch_values_upto(
    plan: &StructurePlan,
    phis: Seq<PhiCandidate>,
    t: Owners,
    region: RegionId,
    list: Seq<BranchValueMergeValue>,
    n: nat,
) -> Result<Owners, Fault>
    decreases n,
{
    if n == 0 {
        Ok(t)
    } else {
        match branch_values_upto(plan, phis, t, region, list, (n - 1) as nat) {
            Ok(now) => yields_branch(plan, phis, now, region, &list[n - 1]),
            Err(f) => Err(f),
        }
    }
}

proof fn branch_values_upto_stops(
    plan: &StructurePlan,
    phis: Seq<PhiCandidate>,
    t: Owners,
    region: RegionId,
    list: Seq<BranchValueMergeValue>,
    m: nat,
    n: nat,
)
    requires
        m <= n,
        branch_values_upto(plan, phis, t, region, list, m) is Err,
    ensures
        branch_values_upto(plan, phis, t, region, list, n) == branch_values_upto(plan, phis, t, region, list, m),
    decreases n,
{
    if m < n {
        branch_values_upto_stops(plan, phis, t, region, list, m, (n - 1) as nat);
    }
}

fn claim_branch_values(
    index: &RegionOwnerIndex,
    dataflow: &DataflowFacts,
    table: &mut Vec<Vec<Option<PhiIncomingDisposition>>>,
    region: RegionId,
    list: &Vec<BranchValueMergeValue>,
) -> (r: Result<(), StructureError>)
    requires
        index.wf(),
        slots_fit(dataflow.phi_candidates@, owners_of(old(table)@)),
    ensures
        went(
            r,
            owners_of(final(table)@),
            branch_values_upto(index.plan, dataflow.phi_candidates@, owners_of(old(table)@), region, list@, list@.len()),
        ),
        r is Ok ==> slots_fit(dataflow.phi_candidates@, owners_of(final(table)@)),
{
    let ghost before = owners_of(table@);
    let ghost phis = dataflow.phi_candidates@;
    let n = list.len();
    let mut i: usize = 0;
    while i < n
        invariant
            index.wf(),
            phis == dataflow.phi_candidates@,
            before == owners_of(old(table)@),
            slots_fit(phis, owners_of(table@)),
            n == list@.len(),
            i <= n,
            branch_values_upto(index.plan, phis, before, region, list@, i as nat) == Ok::<Owners, Fault>(owners_of(table@)),
        decreases n - i,
    {
        if let Err(e) = claim_branch_result(index, dataflow, table, region, &list[i]) {
            proof {
                branch_values_upto_stops(index.plan, phis, before, region, list@, (i + 1) as nat, n as nat);
            }
            return Err(e);
        }
        i = i + 1;
    }
    Ok(())
}

/// The first `n` values of a loop.
pub open spec fn loop_values_upto(
    plan: &StructurePlan,
    phis: Seq<PhiCandidate>,
    t: Owners,
    region: RegionId,
    list: Seq<LoopValueMerge>,
    at_head: bool,
    n: nat,
) -> Result<Owners, Fault>
    decreases n,
{
    if n == 0 {
        Ok(t)
    } else {
        match loop_values_upto(plan, phis, t, region, list, at_head, (n - 1) as nat) {
            Ok(now) => claims_loop_value(plan, phis, now, region, &list[n - 1], at_head),
            Err(f) => Err(f),
        }
    }
}

proof fn loop_values_upto_stops(
    plan: &StructurePlan,
    phis: Seq<PhiCandidate>,
    t: Owners,
    region: RegionId,
    list: Seq<LoopValueMerge>,
    at_head: bool,
    m: nat,
    n: nat,
)
    requires
        m <= n,
        loop_values_upto(plan, phis, t, region, list, at_head, m) is Err,
    ensures
        loop_values_upto(plan, phis, t, region, list, at_head, n) == loop_values_upto(plan, phis, t, region, list, at_head, m),
    decreases n,
{
    if m < n {
        loop_values_upto_stops(plan, phis, t, region, list, at_head, m, (n - 1) as nat);
    }
}

fn claim_loop_values(
    index: &RegionOwnerIndex,
    classifier: &LoopIncomingClassifier,
    dataflow: &DataflowFacts,
    table: &mut Vec<Vec<Option<PhiIncomingDisposition>>>,
    region: RegionId,
    list: &Vec<LoopValueMerge>,
    at_head: bool,
) -> (r: Result<(), StructureError>)
    requires
        index.wf(),
        classifier.describes(dataflow.phi_candidates@),
        slots_fit(dataflow.phi_candidates@, owners_of(old(table)@)),
    ensures
        went(
            r,
            owners_of(final(table)@),
            loop_values_upto(index.plan, dataflow.phi_candidates@, owners_of(old(table)@), region, list@, at_head, list@.len()),
        ),
        r is Ok ==> slots_fit(dataflow.phi_candidates@, owners_of(final(table)@)),
{
    let ghost before = owners_of(table@);
    let ghost phis = dataflow.phi_candidates@;
    let n = list.len();
    let mut i: usize = 0;
    while i < n
        invariant
            index.wf(),
            classifier.describes(dataflow.phi_candidates@),
            phis == dataflow.phi_candidates@,
            before == owners_of(old(table)@),
            slots_fit(phis, owners_of(table@)),
            n == list@.len(),
            i <= n,
            loop_values_upto(index.plan, phis, before, region, list@, at_head, i as nat) == Ok::<Owners, Fault>(owners_of(table@)),
        decreases n - i,
    {
        if let Err(e) = claim_one_loop_value(index, classifier, dataflow, table, region, &list[i], at_head) {
            proof {
                loop_values_upto_stops(index.plan, phis, before, region, list@, at_head, (i + 1) as nat, n as nat);
            }
            return Err(e);
        }
        i = i + 1;
    }
    Ok(())
}

/// The values at the first `n` exits of a loop.
pub open spec fn loop_exits_upto(
    plan: &StructurePlan,
    phis: Seq<PhiCandidate>,
    t: Owners,
    region: RegionId,
    list: Seq<LoopExitValueMergeCandidate>,
    n: nat,
) -> Result<Owners, Fault>
    decreases n,
{
    if n == 0 {
        Ok(t)
    } else {
        match loop_exits_upto(plan, phis, t, region, list, (n - 1) as nat) {
            Ok(now) => loop_values_upto(plan, phis, now, region, list[n - 1].values@, false, list[n - 1].values@.len()),
            Err(f) => Err(f),
        }
    }
}

proof fn loop_exits_upto_stops(
    plan: &StructurePlan,
    phis: Seq<PhiCandidate>,
    t: Owners,
    region: RegionId,
    list: Seq<LoopExitValueMergeCandidate>,
    m: nat,
    n: nat,
)
    requires
        m <= n,
        loop_exits_upto(plan, phis, t, region, list, m) is Err,
    ensures
        loop_exits_upto(plan, phis, t, region, list, n) == loop_exits_upto(plan, phis, t, region, list, m),
    decreases n,
{
    if m < n {
        loop_exits_upto_stops(plan, phis, t, region, list, m, (n - 1) as nat);
    }
}

fn claim_loop_exits(
    index: &RegionOwnerIndex,
    classifier: &LoopIncomingClassifier,
    dataflow: &DataflowFacts,
    table: &mut Vec<Vec<Option<PhiIncomingDisposition>>>,
    region: RegionId,
    list: &Vec<LoopExitValueMergeCandidate>,
) -> (r: Result<(), StructureError>)
    requires
        index.wf(),
        classifier.describes(dataflow.phi_candidates@),
        slots_fit(dataflow.phi_candidates@, owners_of(old(table)@)),
    ensures
        went(
            r,
            owners_of(final(table)@),
            loop_exits_upto(index.plan, dataflow.phi_candidates@, owners_of(old(table)@), region, list@, list@.len()),
        ),
        r is Ok ==> slots_fit(dataflow.phi_candidates@, owners_of(final(table)@)),
{
    let ghost before = owners_of(table@);
    let ghost phis = dataflow.phi_candidates@;
    let n = list.len();
    let mut i: usize = 0;
    while i < n
        invariant
            index.wf(),
            classifier.describes(dataflow.phi_candidates@),
            phis == dataflow.phi_candidates@,
            before == owners_of(old(table)@),
            slots_fit(phis, owners_of(table@)),
            n == list@.len(),
            i <= n,
            loop_exits_upto(index.plan, phis, before, region, list@, i as nat) == Ok::<Owners, Fault>(owners_of(table@)),
        decreases n - i,
    {
        if let Err(e) = claim_loop_values(index, classifier, dataflow, table, region, &list[i].values, false) {
            proof {
                loop_exits_upto_stops(index.plan, phis, before, region, list@, (i + 1) as nat, n as nat);
            }
            return Err(e);
        }
        i = i + 1;
    }
    Ok(())
}

/// The first `n` phis of a list.
pub open spec fn phis_upto(
    plan: &StructurePlan,
    phis: Seq<PhiCandidate>,
    t: Owners,
    region: RegionId,
    list: Seq<PhiId>,
    n: nat,
) -> Result<Owners, Fault>
    decreases n,
{
    if n == 0 {
        Ok(t)
    } else {
        match phis_upto(plan, phis, t, region, list, (n - 1) as nat) {
            Ok(now) => yields_phi(plan, phis, now, region, list[n - 1]),
            Err(f) => Err(f),
        }
    }
}

proof fn phis_upto_stops(
    plan: &StructurePlan,
    phis: Seq<PhiCandidate>,
    t: Owners,
    region: RegionId,
    list: Seq<PhiId>,
    m: nat,
    n: nat,
)
    requires
        m <= n,
        phis_upto(plan, phis, t, region, list, m) is Err,
    ensures
        phis_upto(plan, phis, t, region, list, n) == phis_upto(plan, phis, t, region, list, m),
    decreases n,
{
    if m < n {
        phis_upto_stops(plan, phis, t, region, list, m, (n - 1) as nat);
    }
}

fn claim_phis(
    index: &RegionOwnerIndex,
    dataflow: &DataflowFacts,
    table: &mut Vec<Vec<Option<PhiIncomingDisposition>>>,
    region: RegionId,
    list: &Vec<PhiId>,
) -> (r: Result<(), StructureError>)
    requires
        index.wf(),
        slots_fit(dataflow.phi_candidates@, owners_of(old(table)@)),
    ensures
        went(
            r,
            owners_of(final(table)@),
            phis_upto(index.plan, dataflow.phi_candidates@, owners_of(old(table)@), region, list@, list@.len()),
        ),
        r is Ok ==> slots_fit(dataflow.phi_candidates@, owners_of(final(table)@)),
{
    let ghost before = owners_of(table@);
    let ghost phis = dataflow.phi_candidates@;
    let n = list.len();
    let mut i: usize = 0;
    while i < n
        invariant
            index.wf(),
            phis == dataflow.phi_candidates@,
            before == owners_of(old(table)@),
            slots_fit(phis, owners_of(table@)),
            n == list@.len(),
            i <= n,
            phis_upto(index.plan, phis, before, region, list@, i as nat) == Ok::<Owners, Fault>(owners_of(table@)),
        decreases n - i,
    {
        if let Err(e) = claim_yield(index, dataflow, table, region, list[i]) {
            proof {
                phis_upto_stops(index.plan, phis, before, region, list@, (i + 1) as nat, n as nat);
            }
            return Err(e);
        }
        i = i + 1;
    }
    Ok(())
}

fn claim_one_loop_value(
    index: &RegionOwnerIndex,
    classifier: &LoopIncomingClassifier,
    dataflow: &DataflowFacts,
    table: &mut Vec<Vec<Option<PhiIncomingDisposition>>>,
    region: RegionId,
    value: &LoopValueMerge,
    at_head: bool,
) -> (r: Result<(), StructureError>)
    requires
        index.wf(),
        classifier.describes(dataflow.phi_candidates@),
        slots_fit(dataflow.phi_candidates@, owners_of(old(table)@)),
    ensures
        went(
            r,
            owners_of(final(table)@),
            claims_loop_value(index.plan, dataflow.phi_candidates@, owners_of(old(table)@), region, value, at_head),
        ),
        r is Ok ==> slots_fit(dataflow.phi_candidates@, owners_of(final(table)@)),
{
    if at_head {
        claim_loop_header_value(index, classifier, dataflow, table, region, value)
    } else {
        claim_loop_result(index, classifier, dataflow, table, region, value)
    }
}

pub open spec fn branch_claims(
    plan: &StructurePlan,
    phis: Seq<PhiCandidate>,
    t: Owners,
    region: RegionId,
    b: &BranchPlanData,
) -> Result<Owners, Fault> {
    match yields_condition_id(plan, phis, t, region, b.condition) {
        Ok(now) => match b.value_plan {
            Some(v) => branch_values_upto(plan, phis, now, region, v.values@, v.values@.len()),
            None => Ok(now),
        },
        Err(f) => Err(f),
    }
}

pub open spec fn loop_condition_claims(
    plan: &StructurePlan,
    phis: Seq<PhiCandidate>,
    t: Owners,
    region: RegionId,
    id: Option<ConditionPlanId>,
) -> Result<
    Owners,
    Fault,
> {
    match id {
        Some(id) => yields_condition_id(plan, phis, t, region, id),
        None => Ok(t),
    }
}

pub open spec fn loop_claims(
    plan: &StructurePlan,
    phis: Seq<PhiCandidate>,
    t: Owners,
    region: RegionId,
    l: &LoopPlanData,
) -> Result<Owners, Fault> {
    match loop_condition_claims(plan, phis, t, region, l.condition) {
        Ok(now) => match loop_values_upto(plan, phis, now, region, l.carried_values@, true, l.carried_values@.len()) {
            Ok(next) => loop_exits_upto(plan, phis, next, region, l.exit_values@, l.exit_values@.len()),
            Err(f) => Err(f),
        },
        Err(f) => Err(f),
    }
}

pub open spec fn decision_claims(
    plan: &StructurePlan,
    phis: Seq<PhiCandidate>,
    t: Owners,
    region: RegionId,
    d: &ValueDecisionPlan,
) -> Result<
    Owners,
    Fault,
> {
    match yields_phi(plan, phis, t, region, d.result_phi) {
        Ok(now) => phis_upto(plan, phis, now, region, d.absorbed_phis@, d.absorbed_phis@.len()),
        Err(f) => Err(f),
    }
}

/// What region `i` claims.
pub open spec fn region_claims(plan: &StructurePlan, phis: Seq<PhiCandidate>, t: Owners, i: int) -> Result<Owners, Fault> {
    let region = RegionId(i as usize);
    match plan.regions@[i] {
        RegionPlan::Branch { plan: id, .. } => if id.0 >= plan.branches@.len() {
            Err(Fault::BranchPlanMissing(region, id))
        } else {
            branch_claims(plan, phis, t, region, &plan.branches@[id.0 as int])
        },
        RegionPlan::Loop { plan: id, .. } => if id.0 >= plan.loops@.len() {
            Err(Fault::LoopPlanMissing(region, id))
        } else {
            loop_claims(plan, phis, t, region, &plan.loops@[id.0 as int])
        },
        RegionPlan::ValueDecision { plan: id, .. } => if id.0 >= plan.value_decisions@.len() {
            Err(Fault::ValueDecisionMissing(region))
        } else {
            decision_claims(plan, phis, t, region, &plan.value_decisions@[id.0 as int])
        },
        _ => Ok(t),
    }
}

/// What the first `n` regions claim, one after the other.
pub open spec fn regions_claim(plan: &StructurePlan, phis: Seq<PhiCandidate>, t: Owners, n: nat) -> Result<Owners, Fault>
    decreases n,
{
    if n == 0 {
        Ok(t)
    } else {
        match regions_claim(plan, phis, t, (n - 1) as nat) {
            Ok(now) => region_claims(plan, phis, now, n - 1),
            Err(f) => Err(f),
        }
    }
}

pub open spec fn all_regions_claim(plan: &StructurePlan, phis: Seq<PhiCandidate>, t: Owners) -> Result<Owners, Fault> {
    if predecessor_overflows(phis) {
        Err(Fault::PredecessorOverflow)
    } else {
        regions_claim(plan, phis, t, plan.regions@.len())
    }
}

proof fn regions_claim_stops(plan: &StructurePlan, phis: Seq<PhiCandidate>, t: Owners, m: nat, n: nat)
    requires
        m <= n,
        regions_claim(plan, phis, t, m) is Err,
    ensures
        regions_claim(plan, phis, t, n) == regions_claim(plan, phis, t, m),
    decreases n,
{
    if m < n {
        regions_claim_stops(plan, phis, t, m, (n - 1) as nat);
    }
}

fn claim_region(
    index: &RegionOwnerIndex,
    classifier: &LoopIncomingClassifier,
    dataflow: &DataflowFacts,
    table: &mut Vec<Vec<Option<PhiIncomingDisposition>>>,
    i: usize,
) -> (r: Result<(), StructureError>)
    requires
        index.wf(),
        classifier.describes(dataflow.phi_candidates@),
        slots_fit(dataflow.phi_candidates@, owners_of(old(table)@)),
        i < index.plan.regions@.len(),
    ensures
        went(
            r,
            owners_of(final(table)@),
            region_claims(index.plan, dataflow.phi_candidates@, owners_of(old(table)@), i as int),
        ),
        r is Ok ==> slots_fit(dataflow.phi_candidates@, owners_of(final(table)@)),
{
    let plan = index.plan;
    let region = RegionId(i);
    match &plan.regions[i] {
        RegionPlan::Branch { plan: id, .. } => {
            if id.0 >= plan.branches.len() {
                return Err(StructureError::invalid(Fault::BranchPlanMissing(region, *id)));
            }
            let b = &plan.branches[id.0];
            if let Err(e) = claim_condition_values(index, dataflow, table, region, b.condition) {
                return Err(e);
            }
            match &b.value_plan {
                Some(v) => claim_branch_values(index, dataflow, table, region, &v.values),
                None => Ok(()),
            }
        },
        RegionPlan::Loop { plan: id, .. } => {
            if id.0 >= plan.loops.len() {
                return Err(StructureError::invalid(Fault::LoopPlanMissing(region, *id)));
            }
            let l = &plan.loops[id.0];
            if let Some(c) = l.condition {
                if let Err(e) = claim_condition_values(index, dataflow, table, region, c) {
                    return Err(e);
                }
            }
            if let Err(e) = claim_loop_values(index, classifier, dataflow, table, region, &l.carried_values, true) {
                return Err(e);
            }
            claim_loop_exits(index, classifier, dataflow, table, region, &l.exit_values)
        },
        RegionPlan::ValueDecision { plan: id, .. } => {
            if id.0 >= plan.value_decisions.len() {
                return Err(StructureError::invalid(Fault::ValueDecisionMissing(region)));
            }
            let d = &plan.value_decisions[id.0];
            if let Err(e) = claim_yield(index, dataflow, table, region, d.result_phi) {
                return Err(e);
            }
            claim_phis(index, dataflow, table, region, &d.absorbed_phis)
        },
        _ => Ok(()),
    }
}

/// Lets all regions claim what they compute, one after the other.
pub fn claim_selected_region_values(
    index: &RegionOwnerIndex,
    dataflow: &DataflowFacts,
    table: &mut Vec<Vec<Option<PhiIncomingDisposition>>>,
) -> (r: Result<(), StructureError>)
    requires
        index.wf(),
        slots_fit(dataflow.phi_candidates@, owners_of(old(table)@)),
    ensures
        went(r, owners_of(final(table)@), all_regions_claim(index.plan, dataflow.phi_candidates@, owners_of(old(table)@))),
        r is Ok ==> slots_fit(dataflow.phi_candidates@, owners_of(final(table)@)),
{
    let classifier = match LoopIncomingClassifier::new(dataflow) {
        Ok(c) => c,
        Err(e) => {
            return Err(e);
        },
    };
    let ghost before = owners_of(table@);
    let ghost phis = dataflow.phi_candidates@;
    let n = index.plan.regions.len();
    let mut i: usize = 0;
    while i < n
        invariant
            index.wf(),
            phis == dataflow.phi_candidates@,
            !predecessor_overflows(phis),
            classifier.describes(phis),
            before == owners_of(old(table)@),
            slots_fit(phis, owners_of(table@)),
            n == index.plan.regions@.len(),
            i <= n,
            regions_claim(index.plan, phis, before, i as nat) == Ok::<Owners, Fault>(owners_of(table@)),
        decreases n - i,
    {
        if let Err(e) = claim_region(index, &classifier, dataflow, table, i) {
            proof {
                regions_claim_stops(index.plan, phis, before, (i + 1) as nat, n as nat);
            }
            return Err(e);
        }
        i = i + 1;
    }
    Ok(())
}

/// Someone has claimed every incoming.
pub open spec fn all_claimed(row: Seq<Option<PhiIncomingDisposition>>) -> bool {
    forall|j: int| 0 <= j < row.len() ==> (#[trigger] row[j]) is Some
}

/// The phi takes, from everywhere, what its block's immediate dominator leaves.
pub open spec fn passes_through(g: &GraphFacts, dataflow: &DataflowFacts, phi: &PhiCandidate) -> bool {
    match g.dominator_tree.idom(phi.block) {
        Some(d) => forall|j: int|
            0 <= j < phi.incoming@.len() ==> (#[trigger] phi.incoming@[j]).value == dataflow.exit_value(d, phi.reg),
        None => false,
    }
}

/// Phi `p` as an input of its block's region, when a value simply passes through it.
pub open spec fn input_claim(
    g: &GraphFacts,
    plan: &StructurePlan,
    dataflow: &DataflowFacts,
    t: Owners,
    p: int,
) -> Result<Owners, Fault> {
    let phi = &dataflow.phi_candidates@[p];
    if all_claimed(t[p]) || !passes_through(g, dataflow, phi) {
        Ok(t)
    } else {
        match entry_at(plan.region_by_block@, phi.block.0) {
            Some(r) => Ok(t.update(p, claimed_row(plan, t[p], everywhere(PhiIncomingDisposition::RegionInput(r))))),
            None => Err(Fault::PhiBlockWithoutRegion(phi.id)),
        }
    }
}

pub open spec fn inputs_claim(
    g: &GraphFacts,
    plan: &StructurePlan,
    dataflow: &DataflowFacts,
    t: Owners,
    n: nat,
) -> Result<Owners, Fault>
    decreases n,
{
    if n == 0 {
        Ok(t)
    } else {
        match inputs_claim(g, plan, dataflow, t, (n - 1) as nat) {
            Ok(now) => input_claim(g, plan, dataflow, now, n - 1),
            Err(f) => Err(f),
        }
    }
}

proof fn inputs_claim_stops(g: &GraphFacts, plan: &StructurePlan, dataflow: &DataflowFacts, t: Owners, m: nat, n: nat)
    requires
        m <= n,
        inputs_claim(g, plan, dataflow, t, m) is Err,
    ensures
        inputs_claim(g, plan, dataflow, t, n) == inputs_claim(g, plan, dataflow, t, m),
    decreases n,
{
    if m < n {
        inputs_claim_stops(g, plan, dataflow, t, m, (n - 1) as nat);
    }
}

fn check_all_claimed(row: &Vec<Option<PhiIncomingDisposition>>) -> (r: bool)
    ensures
        r == all_claimed(row@),
{
    let n = row.len();
    let mut j: usize = 0;
    while j < n
        invariant
            n == row@.len(),
            j <= n,
            forall|k: int| 0 <= k < j ==> (#[trigger] row@[k]) is Some,
        decreases n - j,
    {
        if row[j].is_none() {
            assert(row@[j as int] is None);
            return false;
        }
        j = j + 1;
    }
    true
}

fn check_passes_through(g: &GraphFacts, dataflow: &DataflowFacts, phi: &PhiCandidate) -> (r: bool)
    ensures
        r == passes_through(g, dataflow, phi),
{
    match g.dominator_tree.parent(phi.block) {
        Some(d) => {
            let value = dataflow.block_exit_value(d, phi.reg);
            let n = phi.incoming.len();
            let mut j: usize = 0;
            while j < n
                invariant
                    n == phi.incoming@.len(),
                    g.dominator_tree.idom(phi.block) == Some(d),
                    value == dataflow.exit_value(d, phi.reg),
                    j <= n,
                    forall|k: int| 0 <= k < j ==> (#[trigger] phi.incoming@[k]).value == value,
                decreases n - j,
            {
                if phi.incoming[j].value != value {
                    assert(phi.incoming@[j as int].value != value);
                    return false;
                }
                j = j + 1;
            }
            true
        },
        None => false,
    }
}

/// Lets the regions of blocks take in the values that simply pass.
pub fn claim_idom_inputs(
    graph_facts: &GraphFacts,
    index: &RegionOwnerIndex,
    dataflow: &DataflowFacts,
    table: &mut Vec<Vec<Option<PhiIncomingDisposition>>>,
) -> (r: Result<(), StructureError>)
    requires
        index.wf(),
        slots_fit(dataflow.phi_candidates@, owners_of(old(table)@)),
    ensures
        went(
            r,
            owners_of(final(table)@),
            inputs_claim(graph_facts, index.plan, dataflow, owners_of(old(table)@), dataflow.phi_candidates@.len()),
        ),
        r is Ok ==> slots_fit(dataflow.phi_candidates@, owners_of(final(table)@)),
{
    let ghost before = owners_of(table@);
    let ghost phis = dataflow.phi_candidates@;
    let n = dataflow.phi_candidates.len();
    let mut p: usize = 0;
    while p < n
        invariant
            index.wf(),
            phis == dataflow.phi_candidates@,
            before == owners_of(old(table)@),
            slots_fit(phis, owners_of(table@)),
            n == phis.len(),
            p <= n,
            inputs_claim(graph_facts, index.plan, dataflow, before, p as nat) == Ok::<Owners, Fault>(owners_of(table@)),
        decreases n - p,
    {
        let ghost now = owners_of(table@);
        assert(now[p as int] == table@[p as int]@);
        let phi = &dataflow.phi_candidates[p];
        if !check_all_claimed(&table[p]) && check_passes_through(graph_facts, dataflow, phi) {
            match index.plan.region_for_block(phi.block) {
                Some(r) => {
                    claim_row(index, table, p, PhiIncomingDisposition::RegionInput(r));
                    proof {
                        fits_after(
                            phis,
                            now,
                            p as int,
                            claimed_row(index.plan, now[p as int], everywhere(PhiIncomingDisposition::RegionInput(r))),
                        );
                    }
                },
                None => {
                    proof {
                        inputs_claim_stops(graph_facts, index.plan, dataflow, before, (p + 1) as nat, n as nat);
                    }
                    return Err(StructureError::invalid(Fault::PhiBlockWithoutRegion(phi.id)));
                },
            }
        }
        p = p + 1;
    }
    Ok(())
}

} // verus!
