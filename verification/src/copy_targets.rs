//! Where the copies of an edge go when they leave a `for` loop.

use vstd::prelude::*;

use crate::dataflow::{PhiId, PhiIncoming};
use crate::error::{Fault, StructureError};
use crate::evidence::{LoopExitValueMergeCandidate, LoopKindHint, LoopValueMerge};
use crate::ids::Reg;
use crate::plan::{EdgeTransfer, LoopPlanData, PhiIncomingDisposition, RegionId, RegionPlan};
use crate::search::{first_some, first_some_stable, first_some_stands};
use crate::structure_plan::StructurePlan;

verus! {

/// A phi behind a loop stands for a phi at the loop's head.
#[derive(Debug, Clone, Copy, PartialEq, Eq, Structural)]
pub struct CanonicalBreakTarget {
    pub owner: RegionId,
    pub target: PhiId,
}

pub type Targets = Seq<Option<CanonicalBreakTarget>>;

/// The phi of a register among the first `n` values at the head; the last one noted.
pub open spec fn head_phi(list: Seq<LoopValueMerge>, reg: Reg, n: nat) -> Option<PhiId>
    decreases n,
{
    if n == 0 {
        None
    } else if list[n - 1].reg == reg {
        Some(list[n - 1].phi_id)
    } else {
        head_phi(list, reg, (n - 1) as nat)
    }
}

/// Value `i` at the head names a phi that is not there, or a second one for its register.
pub open spec fn head_fault(list: Seq<LoopValueMerge>, region: RegionId, count: nat) -> spec_fn(int) -> Option<Fault> {
    |i: int|
        if list[i].phi_id.0 >= count {
            Some(Fault::LoopHeaderMissingPhi(region, list[i].phi_id))
        } else {
            match head_phi(list, list[i].reg, i as nat) {
                Some(p) => if p != list[i].phi_id {
                    Some(Fault::LoopHeaderTwice(region, list[i].reg))
                } else {
                    None
                },
                None => None,
            }
        }
}

/// The first `n` values at one exit, noted.
pub open spec fn exit_targets(
    heads: Seq<LoopValueMerge>,
    values: Seq<LoopValueMerge>,
    region: RegionId,
    t: Targets,
    n: nat,
) -> Result<Targets, Fault>
    decreases n,
{
    if n == 0 {
        Ok(t)
    } else {
        match exit_targets(heads, values, region, t, (n - 1) as nat) {
            Ok(now) => {
                let v = &values[n - 1];
                match head_phi(heads, v.reg, heads.len()) {
                    Some(target) => {
                        let new = CanonicalBreakTarget { owner: region, target };
                        if v.phi_id.0 >= now.len() {
                            Err(Fault::LoopExitMissingPhi(region, v.phi_id))
                        } else if now[v.phi_id.0 as int] is Some && now[v.phi_id.0 as int]->0 != new {
                            Err(Fault::CanonicalTargetConflict(v.phi_id))
                        } else {
                            Ok(now.update(v.phi_id.0 as int, Some(new)))
                        }
                    },
                    None => Ok(now),
                }
            },
            Err(f) => Err(f),
        }
    }
}

/// The values at the first `n` exits, noted.
pub open spec fn exits_targets(
    heads: Seq<LoopValueMerge>,
    exits: Seq<LoopExitValueMergeCandidate>,
    region: RegionId,
    t: Targets,
    n: nat,
) -> Result<Targets, Fault>
    decreases n,
{
    if n == 0 {
        Ok(t)
    } else {
        match exits_targets(heads, exits, region, t, (n - 1) as nat) {
            Ok(now) => exit_targets(heads, exits[n - 1].values@, region, now, exits[n - 1].values@.len()),
            Err(f) => Err(f),
        }
    }
}

pub open spec fn has_last_reg(list: Seq<LoopValueMerge>) -> bool {
    exists|i: int| 0 <= i < list.len() && (#[trigger] list[i]).reg.0 == usize::MAX
}

/// Some value of the loop lies in the last possible register.
pub open spec fn register_overflows(l: &LoopPlanData) -> bool {
    has_last_reg(l.header_values@) || exists|i: int|
        0 <= i < l.exit_values@.len() && has_last_reg((#[trigger] l.exit_values@[i]).values@)
}

pub open spec fn loop_targets(l: &LoopPlanData, region: RegionId, t: Targets) -> Result<Targets, Fault> {
    if l.kind != LoopKindHint::NumericForLike && l.kind != LoopKindHint::GenericForLike {
        Ok(t)
    } else if register_overflows(l) {
        Err(Fault::LoopRegisterOverflow)
    } else {
        match first_some(l.header_values@.len(), head_fault(l.header_values@, region, t.len())) {
            Some(f) => Err(f),
            None => exits_targets(l.header_values@, l.exit_values@, region, t, l.exit_values@.len()),
        }
    }
}

pub open spec fn region_targets(plan: &StructurePlan, i: int, t: Targets) -> Result<Targets, Fault> {
    match plan.regions@[i] {
        RegionPlan::Loop { plan: id, .. } => if id.0 >= plan.loops@.len() {
            Err(Fault::LoopPlanMissing(RegionId(i as usize), id))
        } else {
            loop_targets(&plan.loops@[id.0 as int], RegionId(i as usize), t)
        },
        _ => Ok(t),
    }
}

/// The targets after the first `n` regions.
pub open spec fn targets_upto(plan: &StructurePlan, count: nat, n: nat) -> Result<Targets, Fault>
    decreases n,
{
    if n == 0 {
        Ok(Seq::new(count, |p: int| None::<CanonicalBreakTarget>))
    } else {
        match targets_upto(plan, count, (n - 1) as nat) {
            Ok(t) => region_targets(plan, n - 1, t),
            Err(f) => Err(f),
        }
    }
}

pub open spec fn all_targets(plan: &StructurePlan, count: nat) -> Result<Targets, Fault> {
    targets_upto(plan, count, plan.regions@.len())
}

proof fn exit_faults(heads: Seq<LoopValueMerge>, list: Seq<LoopValueMerge>, region: RegionId, t: Targets, n: nat)
    ensures
        exit_targets(heads, list, region, t, n) matches Err(f) ==> !(f is EdgeCopiesStale),
    decreases n,
{
    if n > 0 {
        exit_faults(heads, list, region, t, (n - 1) as nat);
    }
}

proof fn exits_faults(
    heads: Seq<LoopValueMerge>,
    exits: Seq<LoopExitValueMergeCandidate>,
    region: RegionId,
    t: Targets,
    n: nat,
)
    ensures
        exits_targets(heads, exits, region, t, n) matches Err(f) ==> !(f is EdgeCopiesStale),
    decreases n,
{
    if n > 0 {
        exits_faults(heads, exits, region, t, (n - 1) as nat);
        if let Ok(now) = exits_targets(heads, exits, region, t, (n - 1) as nat) {
            exit_faults(heads, exits[n - 1].values@, region, now, exits[n - 1].values@.len());
        }
    }
}

/// What is wrong with targets are not the copies of an edge.
pub proof fn target_faults(plan: &StructurePlan, count: nat, n: nat)
    ensures
        targets_upto(plan, count, n) matches Err(f) ==> !(f is EdgeCopiesStale),
    decreases n,
{
    if n > 0 {
        target_faults(plan, count, (n - 1) as nat);
        if let Ok(t) = targets_upto(plan, count, (n - 1) as nat) {
            if let RegionPlan::Loop { plan: id, .. } = plan.regions@[n - 1] {
                let region = RegionId((n - 1) as usize);
                let l = &plan.loops@[id.0 as int];
                let f = head_fault(l.header_values@, region, t.len());
                if first_some(l.header_values@.len(), f) is Some {
                    let i = first_some_stands(l.header_values@.len(), f);
                }
                exits_faults(l.header_values@, l.exit_values@, region, t, l.exit_values@.len());
            }
        }
    }
}

/// The phi that the copy for an incoming writes: where the edge breaks out of a `for` loop
/// that yields the value, the phi at the loop's head.
pub open spec fn copy_target(
    plan: &StructurePlan,
    t: Targets,
    phi: PhiId,
    incoming: PhiIncoming,
    d: PhiIncomingDisposition,
) -> PhiId {
    match (incoming.edge, d) {
        (Some(e), PhiIncomingDisposition::RegionResult(region)) => if e.0 < plan.edge_plans@.len() && plan.edge_plans@[e.0 as int].transfer
            == EdgeTransfer::Break(region) && phi.0 < t.len() && t[phi.0 as int] is Some && (t[phi.0 as int]->0).owner == region {
            (t[phi.0 as int]->0).target
        } else {
            phi
        },
        _ => phi,
    }
}

/// Phis behind `for` loops, with the phis at the loops' heads that they stand for.
pub struct CanonicalEdgeCopyTargets {
    pub by_phi: Vec<Option<CanonicalBreakTarget>>,
}

fn find_head_phi(list: &Vec<LoopValueMerge>, reg: Reg, n: usize) -> (r: Option<PhiId>)
    requires
        n <= list@.len(),
    ensures
        r == head_phi(list@, reg, n as nat),
{
    let mut i: usize = n;
    while i > 0
        invariant
            i <= n,
            n <= list@.len(),
            head_phi(list@, reg, n as nat) == head_phi(list@, reg, i as nat),
        decreases i,
    {
        if list[i - 1].reg == reg {
            return Some(list[i - 1].phi_id);
        }
        i = i - 1;
    }
    None
}

fn find_head_fault(list: &Vec<LoopValueMerge>, region: RegionId, count: usize) -> (r: Option<Fault>)
    ensures
        r == first_some(list@.len(), head_fault(list@, region, count as nat)),
{
    let n = list.len();
    let ghost f = head_fault(list@, region, count as nat);
    let mut i: usize = 0;
    while i < n
        invariant
            n == list@.len(),
            f == head_fault(list@, region, count as nat),
            i <= n,
            first_some(i as nat, f) is None,
        decreases n - i,
    {
        let v = &list[i];
        let fault = if v.phi_id.0 >= count {
            Some(Fault::LoopHeaderMissingPhi(region, v.phi_id))
        } else {
            match find_head_phi(list, v.reg, i) {
                Some(p) => if p != v.phi_id {
                    Some(Fault::LoopHeaderTwice(region, v.reg))
                } else {
                    None
                },
                None => None,
            }
        };
        assert(fault == f(i as int));
        if fault.is_some() {
            proof {
                first_some_stable((i + 1) as nat, n as nat, f);
            }
            return fault;
        }
        i = i + 1;
    }
    None
}

fn check_last_reg(list: &Vec<LoopValueMerge>) -> (r: bool)
    ensures
        r == has_last_reg(list@),
{
    let n = list.len();
    let mut i: usize = 0;
    while i < n
        invariant
            n == list@.len(),
            i <= n,
            forall|k: int| 0 <= k < i ==> (#[trigger] list@[k]).reg.0 != usize::MAX,
        decreases n - i,
    {
        if list[i].reg.0 == usize::MAX {
            assert(list@[i as int].reg.0 == usize::MAX);
            return true;
        }
        i = i + 1;
    }
    false
}

fn check_register_overflows(l: &LoopPlanData) -> (r: bool)
    ensures
        r == register_overflows(l),
{
    if check_last_reg(&l.header_values) {
        return true;
    }
    let n = l.exit_values.len();
    let mut i: usize = 0;
    while i < n
        invariant
            n == l.exit_values@.len(),
            i <= n,
            forall|k: int| 0 <= k < i ==> !has_last_reg((#[trigger] l.exit_values@[k]).values@),
        decreases n - i,
    {
        if check_last_reg(&l.exit_values[i].values) {
            assert(has_last_reg(l.exit_values@[i as int].values@));
            return true;
        }
        i = i + 1;
    }
    false
}

spec fn noted(r: Result<(), StructureError>, now: Targets, s: Result<Targets, Fault>) -> bool {
    match r {
        Ok(_) => s == Ok::<Targets, Fault>(now),
        Err(e) => s == Err::<Targets, Fault>(e.fault),
    }
}

proof fn exit_targets_stop(
    heads: Seq<LoopValueMerge>,
    values: Seq<LoopValueMerge>,
    region: RegionId,
    t: Targets,
    m: nat,
    n: nat,
)
    requires
        m <= n,
        exit_targets(heads, values, region, t, m) is Err,
    ensures
        exit_targets(heads, values, region, t, n) == exit_targets(heads, values, region, t, m),
    decreases n,
{
    if m < n {
        exit_targets_stop(heads, values, region, t, m, (n - 1) as nat);
    }
}

proof fn exits_targets_stop(
    heads: Seq<LoopValueMerge>,
    exits: Seq<LoopExitValueMergeCandidate>,
    region: RegionId,
    t: Targets,
    m: nat,
    n: nat,
)
    requires
        m <= n,
        exits_targets(heads, exits, region, t, m) is Err,
    ensures
        exits_targets(heads, exits, region, t, n) == exits_targets(heads, exits, region, t, m),
    decreases n,
{
    if m < n {
        exits_targets_stop(heads, exits, region, t, m, (n - 1) as nat);
    }
}

proof fn targets_stop(plan: &StructurePlan, count: nat, m: nat, n: nat)
    requires
        m <= n,
        targets_upto(plan, count, m) is Err,
    ensures
        targets_upto(plan, count, n) == targets_upto(plan, count, m),
    decreases n,
{
    if m < n {
        targets_stop(plan, count, m, (n - 1) as nat);
    }
}

fn note_exit(
    heads: &Vec<LoopValueMerge>,
    values: &Vec<LoopValueMerge>,
    region: RegionId,
    by_phi: &mut Vec<Option<CanonicalBreakTarget>>,
) -> (r: Result<(), StructureError>)
    ensures
        noted(r, final(by_phi)@, exit_targets(heads@, values@, region, old(by_phi)@, values@.len())),
{
    let n = values.len();
    let mut i: usize = 0;
    while i < n
        invariant
            n == values@.len(),
            i <= n,
            exit_targets(heads@, values@, region, old(by_phi)@, i as nat) == Ok::<Targets, Fault>(by_phi@),
        decreases n - i,
    {
        let v = &values[i];
        if let Some(target) = find_head_phi(heads, v.reg, heads.len()) {
            let new = CanonicalBreakTarget { owner: region, target };
            if v.phi_id.0 >= by_phi.len() {
                proof {
                    exit_targets_stop(heads@, values@, region, old(by_phi)@, (i + 1) as nat, n as nat);
                }
                return Err(StructureError::invalid(Fault::LoopExitMissingPhi(region, v.phi_id)));
            }
            let clash = match by_phi[v.phi_id.0] {
                Some(x) => x != new,
                None => false,
            };
            if clash {
                proof {
                    exit_targets_stop(heads@, values@, region, old(by_phi)@, (i + 1) as nat, n as nat);
                }
                return Err(StructureError::invalid(Fault::CanonicalTargetConflict(v.phi_id)));
            }
            by_phi[v.phi_id.0] = Some(new);
        }
        i = i + 1;
    }
    Ok(())
}

fn note_loop(
    l: &LoopPlanData,
    region: RegionId,
    by_phi: &mut Vec<Option<CanonicalBreakTarget>>,
) -> (r: Result<(), StructureError>)
    ensures
        noted(r, final(by_phi)@, loop_targets(l, region, old(by_phi)@)),
{
    let is_for = match l.kind {
        LoopKindHint::NumericForLike => true,
        LoopKindHint::GenericForLike => true,
        _ => false,
    };
    if !is_for {
        return Ok(());
    }
    if check_register_overflows(l) {
        return Err(StructureError::invalid(Fault::LoopRegisterOverflow));
    }
    if let Some(f) = find_head_fault(&l.header_values, region, by_phi.len()) {
        return Err(StructureError::invalid(f));
    }
    let n = l.exit_values.len();
    let mut i: usize = 0;
    while i < n
        invariant
            l.kind == LoopKindHint::NumericForLike || l.kind == LoopKindHint::GenericForLike,
            !register_overflows(l),
            first_some(l.header_values@.len(), head_fault(l.header_values@, region, old(by_phi)@.len())) is None,
            n == l.exit_values@.len(),
            i <= n,
            exits_targets(l.header_values@, l.exit_values@, region, old(by_phi)@, i as nat) == Ok::<Targets, Fault>(by_phi@),
        decreases n - i,
    {
        if let Err(e) = note_exit(&l.header_values, &l.exit_values[i].values, region, by_phi) {
            proof {
                exits_targets_stop(l.header_values@, l.exit_values@, region, old(by_phi)@, (i + 1) as nat, n as nat);
            }
            return Err(e);
        }
        i = i + 1;
    }
    Ok(())
}

impl CanonicalEdgeCopyTargets {
    pub fn build(plan: &StructurePlan, phi_count: usize) -> (r: Result<Self, StructureError>)
        ensures
            match r {
                Ok(t) => all_targets(plan, phi_count as nat) == Ok::<Targets, Fault>(t.by_phi@),
                Err(e) => all_targets(plan, phi_count as nat) == Err::<Targets, Fault>(e.fault),
            },
    {
        let mut by_phi: Vec<Option<CanonicalBreakTarget>> = vec![None; phi_count];
        assert(by_phi@ =~= Seq::new(phi_count as nat, |p: int| None::<CanonicalBreakTarget>));
        let n = plan.regions.len();
        let mut i: usize = 0;
        while i < n
            invariant
                n == plan.regions@.len(),
                i <= n,
                targets_upto(plan, phi_count as nat, i as nat) == Ok::<Targets, Fault>(by_phi@),
            decreases n - i,
        {
            if let RegionPlan::Loop { plan: id, .. } = &plan.regions[i] {
                if id.0 >= plan.loops.len() {
                    proof {
                        targets_stop(plan, phi_count as nat, (i + 1) as nat, n as nat);
                    }
                    return Err(StructureError::invalid(Fault::LoopPlanMissing(RegionId(i), *id)));
                }
                if let Err(e) = note_loop(&plan.loops[id.0], RegionId(i), &mut by_phi) {
                    proof {
                        targets_stop(plan, phi_count as nat, (i + 1) as nat, n as nat);
                    }
                    return Err(e);
                }
            }
            i = i + 1;
        }
        Ok(CanonicalEdgeCopyTargets { by_phi })
    }

    pub fn for_incoming(
        &self,
        plan: &StructurePlan,
        phi: PhiId,
        incoming: PhiIncoming,
        disposition: PhiIncomingDisposition,
    ) -> (r: PhiId)
        ensures
            r == copy_target(plan, self.by_phi@, phi, incoming, disposition),
    {
        match (incoming.edge, disposition) {
            (Some(e), PhiIncomingDisposition::RegionResult(region)) => {
                if e.0 >= plan.edge_plans.len() || phi.0 >= self.by_phi.len() {
                    return phi;
                }
                let breaks = match plan.edge_plans[e.0].transfer {
                    EdgeTransfer::Break(owner) => owner == region,
                    _ => false,
                };
                match self.by_phi[phi.0] {
                    Some(t) => if breaks && t.owner == region {
                        t.target
                    } else {
                        phi
                    },
                    None => phi,
                }
            },
            _ => phi,
        }
    }
}

} // verus!
