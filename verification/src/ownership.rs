//! The check that the plan takes care of every value exactly as it says.

use vstd::prelude::*;

use crate::cfg::Cfg;
use crate::claims::phis_dense;
use crate::copy_targets::{all_targets, copy_target, target_faults, CanonicalEdgeCopyTargets, Targets};
use crate::dataflow::{is_needed, names_phi, DataflowFacts, PhiCandidate, PhiId};
use crate::edge_copies::{
    action_heads, build_forwarded_action_heads, forward_sized, incoming_requires_edge_copy, needs_copy, order_fault, Dispositions,
};
use crate::error::{Fault, StaleCopies, StructureError};
use crate::evidence::PhiEdgeCopy;
use crate::ids::{BlockRef, EdgeRef};
use crate::idset::IdSet;
use crate::install::{check_is_next, collect_at_block, owned_by, phis_at_block, phis_of_region};
use crate::plan::{EdgeTransfer, PhiIncomingDisposition, PhiPlan, PlanRequirement, RegionId, RegionPlan};
use crate::search::{first_some, first_some_empty, first_some_stable, first_some_stands, first_where, first_where_stable};
use crate::structure_plan::StructurePlan;

verus! {

/// The dispositions that the plan states.
pub open spec fn stated(plan: &StructurePlan) -> Dispositions {
    Seq::new(
        plan.phis@.len(),
        |p: int| Seq::new(plan.phis@[p].incomings@.len(), |j: int| plan.phis@[p].incomings@[j].disposition),
    )
}

/// The plan says that phi `p` is left unresolved.
pub open spec fn says_unresolved(plan: &StructurePlan, p: PhiId) -> bool {
    exists|i: int| 0 <= i < plan.requirements.entries@.len() && names_unresolved(#[trigger] plan.requirements.entries@[i], p)
}

pub open spec fn names_unresolved(r: PlanRequirement, p: PhiId) -> bool {
    match r {
        PlanRequirement::UnresolvedValue { phi_id, .. } => phi_id == p,
        _ => false,
    }
}

pub open spec fn requirement_problem(plan: &StructurePlan, count: nat) -> spec_fn(int) -> Option<Fault> {
    |i: int|
        match plan.requirements.entries@[i] {
            PlanRequirement::UnresolvedValue { phi_id, .. } => if phi_id.0 >= count {
                Some(Fault::UnresolvedMissingPhi(phi_id))
            } else {
                None
            },
            _ => None,
        }
}

pub open spec fn is_loop_region(plan: &StructurePlan, r: RegionId) -> bool {
    r.0 < plan.regions@.len() && plan.regions@[r.0 as int] is Loop
}

pub open spec fn is_cut_off(plan: &StructurePlan, e: Option<EdgeRef>) -> bool {
    match e {
        Some(e) => e.0 < plan.edge_plans@.len() && plan.edge_plans@[e.0 as int].transfer is Unreachable,
        None => false,
    }
}

/// What is wrong with a stated disposition.
pub open spec fn disposition_problem(
    plan: &StructurePlan,
    dataflow: &DataflowFacts,
    phi: &PhiCandidate,
    j: int,
    d: PhiIncomingDisposition,
) -> Option<Fault> {
    let e = phi.incoming@[j].edge;
    match d {
        PhiIncomingDisposition::RegionInput(r) => if r.0 >= plan.regions@.len() {
            Some(Fault::PhiIncomingOwnerMissing(phi.id, j as usize, r))
        } else {
            None
        },
        PhiIncomingDisposition::RegionResult(r) => if r.0 >= plan.regions@.len() {
            Some(Fault::PhiIncomingOwnerMissing(phi.id, j as usize, r))
        } else {
            None
        },
        PhiIncomingDisposition::LoopCarried(r) => if !is_loop_region(plan, r) {
            Some(Fault::PhiCarriedNotLoop(phi.id, j as usize, r))
        } else {
            None
        },
        PhiIncomingDisposition::EdgeCopy => if e is None {
            Some(Fault::PhiCopyWithoutEdge(phi.id, j as usize))
        } else {
            None
        },
        PhiIncomingDisposition::Dead => if is_needed(dataflow.use_values@, dataflow.phi_candidates@, phi.id.0) && !is_cut_off(plan, e) {
            Some(Fault::PhiLiveDead(phi.id, j as usize))
        } else {
            None
        },
        PhiIncomingDisposition::DiagnosticUnresolved => if !says_unresolved(plan, phi.id) {
            Some(Fault::PhiUnresolvedUnstated(phi.id, j as usize))
        } else {
            None
        },
    }
}

pub open spec fn incoming_problem(
    cfg: &Cfg,
    plan: &StructurePlan,
    dataflow: &DataflowFacts,
    phi: &PhiCandidate,
    q: &PhiPlan,
) -> spec_fn(int) -> Option<
    Fault,
> {
    |j: int|
        {
            let x = phi.incoming@[j];
            let s = q.incomings@[j];
            if s.edge != x.edge || s.value != x.value {
                Some(Fault::PhiIncomingMismatch(phi.id, j as usize))
            } else {
                match disposition_problem(plan, dataflow, phi, j, s.disposition) {
                    Some(f) => Some(f),
                    None => if needs_copy(plan, phi.id, s.disposition) && x.edge is Some && (x.edge->0).0 >= cfg.edges@.len() {
                        Some(Fault::PhiIncomingMissingEdge(phi.id, j as usize, x.edge->0))
                    } else {
                        None
                    },
                }
            }
        }
}

/// What is wrong with the entry of phi `p`.
pub open spec fn phi_problem(cfg: &Cfg, plan: &StructurePlan, dataflow: &DataflowFacts) -> spec_fn(int) -> Option<Fault> {
    |p: int|
        {
            let phi = &dataflow.phi_candidates@[p];
            let q = &plan.phis@[phi.id.0 as int];
            if phi.id.0 >= plan.phis@.len() {
                Some(Fault::PhiPlanAbsent(phi.id))
            } else if q.phi != phi.id || q.block != phi.block || q.reg != phi.reg || q.incomings@.len() != phi.incoming@.len() {
                Some(Fault::PhiPlanMismatch(phi.id))
            } else if phi.block.0 >= cfg.blocks@.len() {
                Some(Fault::PhiBlockOutside(phi.id))
            } else {
                first_some(phi.incoming@.len(), incoming_problem(cfg, plan, dataflow, phi, q))
            }
        }
}

/// `acc`, then the copies that edge `e` makes for the first `n` incomings of a phi.
pub open spec fn copies_for(
    plan: &StructurePlan,
    targets: Targets,
    phi: &PhiCandidate,
    row: Seq<PhiIncomingDisposition>,
    e: EdgeRef,
    n: nat,
    acc: Seq<PhiEdgeCopy>,
) -> Seq<PhiEdgeCopy>
    decreases n,
{
    if n == 0 {
        acc
    } else {
        let rest = copies_for(plan, targets, phi, row, e, (n - 1) as nat, acc);
        let x = phi.incoming@[n - 1];
        if x.edge == Some(e) && needs_copy(plan, phi.id, row[n - 1]) {
            rest.push(PhiEdgeCopy { phi_id: copy_target(plan, targets, phi.id, x, row[n - 1]), value: x.value })
        } else {
            rest
        }
    }
}

/// The copies that edge `e` makes for the first `n` phis.
pub open spec fn edge_copies_for(
    plan: &StructurePlan,
    targets: Targets,
    phis: Seq<PhiCandidate>,
    t: Dispositions,
    e: EdgeRef,
    n: nat,
) -> Seq<
    PhiEdgeCopy,
>
    decreases n,
{
    if n == 0 {
        Seq::empty()
    } else {
        copies_for(
            plan,
            targets,
            &phis[n - 1],
            t[n - 1],
            e,
            phis[n - 1].incoming@.len(),
            edge_copies_for(plan, targets, phis, t, e, (n - 1) as nat),
        )
    }
}

pub open spec fn copies_stale(plan: &StructurePlan, targets: Targets, phis: Seq<PhiCandidate>) -> spec_fn(int) -> bool {
    |e: int| plan.edge_plans@[e].phi_copies@ != edge_copies_for(plan, targets, phis, stated(plan), EdgeRef(e as usize), phis.len())
}

pub open spec fn indexes_right(cfg: &Cfg, plan: &StructurePlan, phis: Seq<PhiCandidate>) -> bool {
    &&& forall|b: int|
        0 <= b < plan.phis_by_block@.len() ==> (#[trigger] plan.phis_by_block@[b])@ == phis_at_block(phis, BlockRef(b as usize), phis.len())
    &&& forall|r: int|
        0 <= r < plan.phis_by_region@.len() ==> (#[trigger] plan.phis_by_region@[r])@ == phis_of_region(
            phis,
            stated(plan),
            RegionId(r as usize),
            phis.len(),
        )
}

pub open spec fn sizes_right(cfg: &Cfg, plan: &StructurePlan, phis: Seq<PhiCandidate>) -> bool {
    plan.phis@.len() == phis.len() && plan.phis_by_block@.len() == cfg.blocks@.len() && plan.phis_by_region@.len() == plan.regions@.len()
        && plan.edge_plans@.len() == cfg.edges@.len()
}

/// What is wrong with the tables that follow from the entries.
pub open spec fn table_fault(cfg: &Cfg, plan: &StructurePlan, targets: Targets, phis: Seq<PhiCandidate>) -> Option<Fault> {
    if !indexes_right(cfg, plan, phis) {
        Some(Fault::OwnershipIndexStale)
    } else {
        match action_heads(plan) {
            Err(f) => Some(f),
            Ok(h) => if h != plan.forward_action_head@ {
                Some(Fault::ForwardHeadsStale)
            } else {
                match first_where(plan.edge_plans@.len(), copies_stale(plan, targets, phis)) {
                    Some(e) => Some(Fault::EdgeCopiesStale(EdgeRef(e as usize))),
                    None => None,
                }
            },
        }
    }
}

/// The first thing that is wrong with how the plan takes care of values.
pub open spec fn ownership_fault(cfg: &Cfg, plan: &StructurePlan, dataflow: &DataflowFacts) -> Option<Fault> {
    let phis = dataflow.phi_candidates@;
    if !sizes_right(cfg, plan, phis) {
        Some(Fault::OwnershipArena)
    } else {
        match all_targets(plan, phis.len()) {
            Err(f) => Some(f),
            Ok(targets) => match first_some(plan.requirements.entries@.len(), requirement_problem(plan, phis.len())) {
                Some(f) => Some(f),
                None => match first_some(phis.len(), phi_problem(cfg, plan, dataflow)) {
                    Some(f) => Some(f),
                    None => table_fault(cfg, plan, targets, phis),
                },
            },
        }
    }
}

/// What is wrong before the tables are looked at, or with their order, are not the copies of
/// an edge.
proof fn copies_come_last(cfg: &Cfg, plan: &StructurePlan, dataflow: &DataflowFacts)
    ensures
        all_targets(plan, dataflow.phi_candidates@.len()) matches Err(f) ==> !(f is EdgeCopiesStale),
        action_heads(plan) matches Err(f) ==> !(f is EdgeCopiesStale),
        first_some(
            plan.requirements.entries@.len(),
            requirement_problem(plan, dataflow.phi_candidates@.len()),
        ) matches Some(f) ==> !(f is EdgeCopiesStale),
        first_some(dataflow.phi_candidates@.len(), phi_problem(cfg, plan, dataflow)) matches Some(f) ==> !(f is EdgeCopiesStale),
{
    let phis = dataflow.phi_candidates@;
    target_faults(plan, phis.len(), plan.regions@.len());
    let order = order_fault(plan.forward_preorder@, plan.edge_plans@.len());
    if first_some(plan.forward_preorder@.len(), order) is Some {
        let e = first_some_stands(plan.forward_preorder@.len(), order);
    }
    let stated = requirement_problem(plan, phis.len());
    if first_some(plan.requirements.entries@.len(), stated) is Some {
        let i = first_some_stands(plan.requirements.entries@.len(), stated);
    }
    let entry = phi_problem(cfg, plan, dataflow);
    if first_some(phis.len(), entry) is Some {
        let p = first_some_stands(phis.len(), entry);
        let inner = incoming_problem(cfg, plan, dataflow, &phis[p], &plan.phis@[phis[p].id.0 as int]);
        if first_some(phis[p].incoming@.len(), inner) is Some {
            let j = first_some_stands(phis[p].incoming@.len(), inner);
        }
    }
}

/// An error about copies says what they should be, what they are, and where the edge leads.
pub open spec fn tells_copies(plan: &StructurePlan, dataflow: &DataflowFacts, error: &StructureError) -> bool {
    let phis = dataflow.phi_candidates@;
    match (error.fault, error.stale) {
        (Fault::EdgeCopiesStale(e), Some(s)) => {
            &&& e.0 < plan.edge_plans@.len()
            &&& s.expected@ == edge_copies_for(plan, all_targets(plan, phis.len())->Ok_0, phis, stated(plan), e, phis.len())
            &&& s.actual@ == plan.edge_plans@[e.0 as int].phi_copies@
            &&& s.transfer == plan.edge_plans@[e.0 as int].transfer
        },
        (Fault::EdgeCopiesStale(e), None) => false,
        _ => true,
    }
}

fn duplicate_copies(list: &Vec<PhiEdgeCopy>) -> (r: Vec<PhiEdgeCopy>)
    ensures
        r@ == list@,
{
    let n = list.len();
    let mut r: Vec<PhiEdgeCopy> = Vec::new();
    let mut i: usize = 0;
    while i < n
        invariant
            n == list@.len(),
            i <= n,
            r@ == list@.subrange(0, i as int),
        decreases n - i,
    {
        r.push(list[i]);
        assert(r@ =~= list@.subrange(0, i + 1));
        i = i + 1;
    }
    assert(list@.subrange(0, n as int) =~= list@);
    r
}

fn find_requirement_problem(plan: &StructurePlan, count: usize) -> (r: Option<Fault>)
    ensures
        r == first_some(plan.requirements.entries@.len(), requirement_problem(plan, count as nat)),
{
    let n = plan.requirements.entries.len();
    let ghost f = requirement_problem(plan, count as nat);
    let mut i: usize = 0;
    while i < n
        invariant
            n == plan.requirements.entries@.len(),
            f == requirement_problem(plan, count as nat),
            i <= n,
            first_some(i as nat, f) is None,
        decreases n - i,
    {
        let fault = match plan.requirements.entries[i] {
            PlanRequirement::UnresolvedValue { phi_id, .. } => if phi_id.0 >= count {
                Some(Fault::UnresolvedMissingPhi(phi_id))
            } else {
                None
            },
            _ => None,
        };
        assert(fault == f(i as int));
        if fault.is_some() {
            proof {
                first_some_stable((i + 1) as nat, n as nat, f);
            }
            return fault;
        }
        i = i + 1;
    }
    None
}

fn check_says_unresolved(plan: &StructurePlan, p: PhiId) -> (r: bool)
    ensures
        r == says_unresolved(plan, p),
{
    let n = plan.requirements.entries.len();
    let mut i: usize = 0;
    while i < n
        invariant
            n == plan.requirements.entries@.len(),
            i <= n,
            forall|k: int| 0 <= k < i ==> !names_unresolved(#[trigger] plan.requirements.entries@[k], p),
        decreases n - i,
    {
        if let PlanRequirement::UnresolvedValue { phi_id, .. } = plan.requirements.entries[i] {
            if phi_id == p {
                assert(names_unresolved(plan.requirements.entries@[i as int], p));
                return true;
            }
        }
        i = i + 1;
    }
    false
}

fn same_edge(a: Option<EdgeRef>, b: Option<EdgeRef>) -> (r: bool)
    ensures
        r == (a == b),
{
    match (a, b) {
        (Some(x), Some(y)) => x == y,
        (None, None) => true,
        _ => false,
    }
}

spec fn dead_ok(dataflow: &DataflowFacts, dead: Set<PhiId>) -> bool {
    forall|x: PhiId| #[trigger]
        dead.contains(x) <==> names_phi(dataflow.phi_candidates@, x, dataflow.phi_candidates@.len()) && !is_needed(
            dataflow.use_values@,
            dataflow.phi_candidates@,
            x.0,
        )
}

fn find_disposition_problem(
    plan: &StructurePlan,
    dataflow: &DataflowFacts,
    dead: &IdSet<PhiId>,
    phi: &PhiCandidate,
    j: usize,
    d: PhiIncomingDisposition,
) -> (r: Option<
    Fault,
>)
    requires
        j < phi.incoming@.len(),
        names_phi(dataflow.phi_candidates@, phi.id, dataflow.phi_candidates@.len()),
        dead_ok(dataflow, dead@),
    ensures
        r == disposition_problem(plan, dataflow, phi, j as int, d),
{
    let e = phi.incoming[j].edge;
    match d {
        PhiIncomingDisposition::RegionInput(r) => if r.0 >= plan.regions.len() {
            Some(Fault::PhiIncomingOwnerMissing(phi.id, j, r))
        } else {
            None
        },
        PhiIncomingDisposition::RegionResult(r) => if r.0 >= plan.regions.len() {
            Some(Fault::PhiIncomingOwnerMissing(phi.id, j, r))
        } else {
            None
        },
        PhiIncomingDisposition::LoopCarried(r) => {
            let is_loop = r.0 < plan.regions.len() && match &plan.regions[r.0] {
                RegionPlan::Loop { .. } => true,
                _ => false,
            };
            if !is_loop {
                Some(Fault::PhiCarriedNotLoop(phi.id, j, r))
            } else {
                None
            }
        },
        PhiIncomingDisposition::EdgeCopy => if e.is_none() {
            Some(Fault::PhiCopyWithoutEdge(phi.id, j))
        } else {
            None
        },
        PhiIncomingDisposition::Dead => {
            let cut = match e {
                Some(e) => e.0 < plan.edge_plans.len() && match plan.edge_plans[e.0].transfer {
                    EdgeTransfer::Unreachable => true,
                    _ => false,
                },
                None => false,
            };
            if !dead.contains(phi.id) && !cut {
                Some(Fault::PhiLiveDead(phi.id, j))
            } else {
                None
            }
        },
        PhiIncomingDisposition::DiagnosticUnresolved => if !check_says_unresolved(plan, phi.id) {
            Some(Fault::PhiUnresolvedUnstated(phi.id, j))
        } else {
            None
        },
    }
}

fn find_incoming_problem(
    cfg: &Cfg,
    plan: &StructurePlan,
    dataflow: &DataflowFacts,
    dead: &IdSet<PhiId>,
    phi: &PhiCandidate,
    q: &PhiPlan,
) -> (r: Option<Fault>)
    requires
        q.incomings@.len() == phi.incoming@.len(),
        names_phi(dataflow.phi_candidates@, phi.id, dataflow.phi_candidates@.len()),
        dead_ok(dataflow, dead@),
    ensures
        r == first_some(phi.incoming@.len(), incoming_problem(cfg, plan, dataflow, phi, q)),
{
    let n = phi.incoming.len();
    let ghost f = incoming_problem(cfg, plan, dataflow, phi, q);
    let mut j: usize = 0;
    while j < n
        invariant
            n == phi.incoming@.len(),
            n == q.incomings@.len(),
            names_phi(dataflow.phi_candidates@, phi.id, dataflow.phi_candidates@.len()),
            dead_ok(dataflow, dead@),
            f == incoming_problem(cfg, plan, dataflow, phi, q),
            j <= n,
            first_some(j as nat, f) is None,
        decreases n - j,
    {
        let x = phi.incoming[j];
        let s = q.incomings[j];
        let fault = if !same_edge(s.edge, x.edge) || s.value != x.value {
            Some(Fault::PhiIncomingMismatch(phi.id, j))
        } else {
            match find_disposition_problem(plan, dataflow, dead, phi, j, s.disposition) {
                Some(f) => Some(f),
                None => match x.edge {
                    Some(e) => if e.0 >= cfg.edges.len() && incoming_requires_edge_copy(plan, phi.id, s.disposition) {
                        Some(Fault::PhiIncomingMissingEdge(phi.id, j, e))
                    } else {
                        None
                    },
                    None => None,
                },
            }
        };
        assert(fault == f(j as int));
        if fault.is_some() {
            proof {
                first_some_stable((j + 1) as nat, n as nat, f);
            }
            return fault;
        }
        j = j + 1;
    }
    None
}

fn find_phi_problem(cfg: &Cfg, plan: &StructurePlan, dataflow: &DataflowFacts, dead: &IdSet<PhiId>) -> (r: Option<Fault>)
    requires
        plan.phis@.len() == dataflow.phi_candidates@.len(),
        dead_ok(dataflow, dead@),
    ensures
        r == first_some(dataflow.phi_candidates@.len(), phi_problem(cfg, plan, dataflow)),
{
    let n = dataflow.phi_candidates.len();
    let ghost f = phi_problem(cfg, plan, dataflow);
    let mut p: usize = 0;
    while p < n
        invariant
            n == dataflow.phi_candidates@.len(),
            n == plan.phis@.len(),
            dead_ok(dataflow, dead@),
            f == phi_problem(cfg, plan, dataflow),
            p <= n,
            first_some(p as nat, f) is None,
        decreases n - p,
    {
        let phi = &dataflow.phi_candidates[p];
        assert(dataflow.phi_candidates@[p as int].id == phi.id);
        if phi.id.0 >= plan.phis.len() {
            proof {
                assert(f(p as int) == Some(Fault::PhiPlanAbsent(phi.id)));
                first_some_stable((p + 1) as nat, n as nat, f);
            }
            return Some(Fault::PhiPlanAbsent(phi.id));
        }
        let q = &plan.phis[phi.id.0];
        let fault = if q.phi != phi.id || q.block != phi.block || q.reg != phi.reg || q.incomings.len() != phi.incoming.len() {
            Some(Fault::PhiPlanMismatch(phi.id))
        } else if phi.block.0 >= cfg.blocks.len() {
            Some(Fault::PhiBlockOutside(phi.id))
        } else {
            find_incoming_problem(cfg, plan, dataflow, dead, phi, q)
        };
        assert(fault == f(p as int));
        if fault.is_some() {
            proof {
                first_some_stable((p + 1) as nat, n as nat, f);
            }
            return fault;
        }
        p = p + 1;
    }
    None
}

fn same_ids(a: &Vec<PhiId>, b: &Vec<PhiId>) -> (r: bool)
    ensures
        r == (a@ == b@),
{
    let n = a.len();
    if b.len() != n {
        return false;
    }
    let mut i: usize = 0;
    while i < n
        invariant
            n == a@.len(),
            n == b@.len(),
            i <= n,
            forall|k: int| 0 <= k < i ==> a@[k] == b@[k],
        decreases n - i,
    {
        if a[i] != b[i] {
            assert(a@[i as int] != b@[i as int]);
            return false;
        }
        i = i + 1;
    }
    assert(a@ =~= b@);
    true
}

fn collect_stated(plan: &StructurePlan, dataflow: &DataflowFacts, r: RegionId) -> (ids: Vec<PhiId>)
    requires
        plan.phis@.len() == dataflow.phi_candidates@.len(),
    ensures
        ids@ == phis_of_region(dataflow.phi_candidates@, stated(plan), r, dataflow.phi_candidates@.len()),
{
    let n = dataflow.phi_candidates.len();
    let ghost t = stated(plan);
    let mut ids: Vec<PhiId> = Vec::new();
    let mut p: usize = 0;
    while p < n
        invariant
            n == dataflow.phi_candidates@.len(),
            n == plan.phis@.len(),
            t == stated(plan),
            p <= n,
            ids@ == phis_of_region(dataflow.phi_candidates@, t, r, p as nat),
        decreases n - p,
    {
        let m = plan.phis[p].incomings.len();
        let ghost row = t[p as int];
        let mut owned = false;
        let mut j: usize = 0;
        while j < m
            invariant
                p < plan.phis@.len(),
                t == stated(plan),
                row == t[p as int],
                m == plan.phis@[p as int].incomings@.len(),
                j <= m,
                owned == exists|k: int| 0 <= k < j && (#[trigger] row[k]).region_of() == Some(r),
            decreases m - j,
        {
            let d = plan.phis[p].incomings[j].disposition;
            assert(row[j as int] == d);
            let ghost was = owned;
            if let Some(x) = d.region() {
                if x == r {
                    assert(row[j as int].region_of() == Some(r));
                    owned = true;
                }
            }
            proof {
                if was {
                    let k = choose|k: int| 0 <= k < j && (#[trigger] row[k]).region_of() == Some(r);
                    assert(0 <= k < j + 1 && row[k].region_of() == Some(r));
                }
            }
            j = j + 1;
        }
        assert(owned == owned_by(row, r));
        let id = dataflow.phi_candidates[p].id;
        if owned && check_is_next(&ids, id) {
            ids.push(id);
        }
        p = p + 1;
    }
    ids
}

fn check_indexes(cfg: &Cfg, plan: &StructurePlan, dataflow: &DataflowFacts) -> (r: bool)
    requires
        plan.phis@.len() == dataflow.phi_candidates@.len(),
    ensures
        r == indexes_right(cfg, plan, dataflow.phi_candidates@),
{
    let ghost phis = dataflow.phi_candidates@;
    let n = plan.phis_by_block.len();
    let mut b: usize = 0;
    while b < n
        invariant
            phis == dataflow.phi_candidates@,
            n == plan.phis_by_block@.len(),
            b <= n,
            forall|k: int| 0 <= k < b ==> (#[trigger] plan.phis_by_block@[k])@ == phis_at_block(phis, BlockRef(k as usize), phis.len()),
        decreases n - b,
    {
        let ids = collect_at_block(dataflow, BlockRef(b), dataflow.phi_candidates.len());
        if !same_ids(&plan.phis_by_block[b], &ids) {
            assert(plan.phis_by_block@[b as int]@ != phis_at_block(phis, BlockRef(b), phis.len()));
            return false;
        }
        b = b + 1;
    }
    let m = plan.phis_by_region.len();
    let mut r: usize = 0;
    while r < m
        invariant
            phis == dataflow.phi_candidates@,
            plan.phis@.len() == phis.len(),
            m == plan.phis_by_region@.len(),
            r <= m,
            forall|k: int|
                0 <= k < r ==> (#[trigger] plan.phis_by_region@[k])@ == phis_of_region(phis, stated(plan), RegionId(k as usize), phis.len()),
        decreases m - r,
    {
        let ids = collect_stated(plan, dataflow, RegionId(r));
        if !same_ids(&plan.phis_by_region[r], &ids) {
            assert(plan.phis_by_region@[r as int]@ != phis_of_region(phis, stated(plan), RegionId(r), phis.len()));
            return false;
        }
        r = r + 1;
    }
    true
}

pub fn collect_edge_copies(
    plan: &StructurePlan,
    targets: &CanonicalEdgeCopyTargets,
    dataflow: &DataflowFacts,
    e: EdgeRef,
) -> (r: Vec<PhiEdgeCopy>)
    requires
        plan.phis@.len() == dataflow.phi_candidates@.len(),
        forall|p: int| 0 <= p < plan.phis@.len() ==> (#[trigger] plan.phis@[p]).incomings@.len() == dataflow.phi_candidates@[p].incoming@.len(),
    ensures
        r@ == edge_copies_for(plan, targets.by_phi@, dataflow.phi_candidates@, stated(plan), e, dataflow.phi_candidates@.len()),
{
    let n = dataflow.phi_candidates.len();
    let ghost t = stated(plan);
    let ghost phis = dataflow.phi_candidates@;
    let mut r: Vec<PhiEdgeCopy> = Vec::new();
    let mut p: usize = 0;
    while p < n
        invariant
            phis == dataflow.phi_candidates@,
            t == stated(plan),
            n == phis.len(),
            n == plan.phis@.len(),
            forall|p: int| 0 <= p < plan.phis@.len() ==> (#[trigger] plan.phis@[p]).incomings@.len() == phis[p].incoming@.len(),
            p <= n,
            r@ == edge_copies_for(plan, targets.by_phi@, phis, t, e, p as nat),
        decreases n - p,
    {
        let ghost acc = r@;
        let phi = &dataflow.phi_candidates[p];
        let m = phi.incoming.len();
        assert(plan.phis@[p as int].incomings@.len() == m);
        let mut j: usize = 0;
        while j < m
            invariant
                phis == dataflow.phi_candidates@,
                t == stated(plan),
                p < phis.len(),
                p < plan.phis@.len(),
                *phi == phis[p as int],
                m == phi.incoming@.len(),
                m == plan.phis@[p as int].incomings@.len(),
                j <= m,
                r@ == copies_for(plan, targets.by_phi@, phi, t[p as int], e, j as nat, acc),
            decreases m - j,
        {
            let x = phi.incoming[j];
            let d = plan.phis[p].incomings[j].disposition;
            assert(t[p as int][j as int] == d);
            if same_edge(x.edge, Some(e)) && incoming_requires_edge_copy(plan, phi.id, d) {
                r.push(PhiEdgeCopy { phi_id: targets.for_incoming(plan, phi.id, x, d), value: x.value });
            }
            j = j + 1;
        }
        p = p + 1;
    }
    r
}

fn same_copies(a: &Vec<PhiEdgeCopy>, b: &Vec<PhiEdgeCopy>) -> (r: bool)
    ensures
        r == (a@ == b@),
{
    let n = a.len();
    if b.len() != n {
        return false;
    }
    let mut i: usize = 0;
    while i < n
        invariant
            n == a@.len(),
            n == b@.len(),
            i <= n,
            forall|k: int| 0 <= k < i ==> a@[k] == b@[k],
        decreases n - i,
    {
        if a[i] != b[i] {
            assert(a@[i as int] != b@[i as int]);
            return false;
        }
        i = i + 1;
    }
    assert(a@ =~= b@);
    true
}

fn same_heads(a: &Vec<Option<EdgeRef>>, b: &Vec<Option<EdgeRef>>) -> (r: bool)
    ensures
        r == (a@ == b@),
{
    let n = a.len();
    if b.len() != n {
        return false;
    }
    let mut i: usize = 0;
    while i < n
        invariant
            n == a@.len(),
            n == b@.len(),
            i <= n,
            forall|k: int| 0 <= k < i ==> a@[k] == b@[k],
        decreases n - i,
    {
        if !same_edge(a[i], b[i]) {
            assert(a@[i as int] != b@[i as int]);
            return false;
        }
        i = i + 1;
    }
    assert(a@ =~= b@);
    true
}

fn find_table_fault(
    cfg: &Cfg,
    plan: &StructurePlan,
    targets: &CanonicalEdgeCopyTargets,
    dataflow: &DataflowFacts,
) -> (r: Option<StructureError>)
    requires
        forward_sized(plan),
        all_targets(plan, dataflow.phi_candidates@.len()) == Ok::<Targets, Fault>(targets.by_phi@),
        plan.phis@.len() == dataflow.phi_candidates@.len(),
        forall|p: int| 0 <= p < plan.phis@.len() ==> (#[trigger] plan.phis@[p]).incomings@.len() == dataflow.phi_candidates@[p].incoming@.len(),
    ensures
        match r {
            Some(e) => table_fault(cfg, plan, targets.by_phi@, dataflow.phi_candidates@) == Some(e.fault) && tells_copies(
                plan,
                dataflow,
                &e,
            ),
            None => table_fault(cfg, plan, targets.by_phi@, dataflow.phi_candidates@) is None,
        },
{
    proof {
        copies_come_last(cfg, plan, dataflow);
    }
    if !check_indexes(cfg, plan, dataflow) {
        return Some(StructureError::invalid(Fault::OwnershipIndexStale));
    }
    let heads = match build_forwarded_action_heads(plan) {
        Ok(h) => h,
        Err(e) => {
            return Some(StructureError::invalid(e.fault));
        },
    };
    if !same_heads(&heads, &plan.forward_action_head) {
        return Some(StructureError::invalid(Fault::ForwardHeadsStale));
    }
    let n = plan.edge_plans.len();
    let ghost phis = dataflow.phi_candidates@;
    let ghost f = copies_stale(plan, targets.by_phi@, phis);
    let mut e: usize = 0;
    while e < n
        invariant
            all_targets(plan, phis.len()) == Ok::<Targets, Fault>(targets.by_phi@),
            indexes_right(cfg, plan, phis),
            action_heads(plan) == Ok::<Seq<Option<EdgeRef>>, Fault>(plan.forward_action_head@),
            phis == dataflow.phi_candidates@,
            plan.phis@.len() == phis.len(),
            forall|p: int| 0 <= p < plan.phis@.len() ==> (#[trigger] plan.phis@[p]).incomings@.len() == phis[p].incoming@.len(),
            n == plan.edge_plans@.len(),
            f == copies_stale(plan, targets.by_phi@, phis),
            e <= n,
            first_where(e as nat, f) is None,
        decreases n - e,
    {
        let expected = collect_edge_copies(plan, targets, dataflow, EdgeRef(e));
        let same = same_copies(&plan.edge_plans[e].phi_copies, &expected);
        assert(f(e as int) == !same);
        if !same {
            proof {
                first_where_stable((e + 1) as nat, n as nat, f);
            }
            let actual = duplicate_copies(&plan.edge_plans[e].phi_copies);
            let copies = StaleCopies { expected, actual, transfer: plan.edge_plans[e].transfer };
            return Some(StructureError::stale_copies(EdgeRef(e), copies));
        }
        e = e + 1;
    }
    None
}

/// Checks that the plan takes care of every value, once and as its tables say.
pub fn validate_phi_ownership(cfg: &Cfg, dataflow: &DataflowFacts, plan: &StructurePlan) -> (r: Result<(), StructureError>)
    requires
        forward_sized(plan),
        sizes_right(cfg, plan, dataflow.phi_candidates@) && first_some(
            dataflow.phi_candidates@.len(),
            phi_problem(cfg, plan, dataflow),
        ) is None ==> phis_dense(dataflow.phi_candidates@),
        dataflow.needs_exist(),
    ensures
        match r {
            Ok(_) => ownership_fault(cfg, plan, dataflow) is None,
            Err(e) => ownership_fault(cfg, plan, dataflow) == Some(e.fault) && tells_copies(plan, dataflow, &e),
        },
{
    proof {
        copies_come_last(cfg, plan, dataflow);
    }
    let n = dataflow.phi_candidates.len();
    if plan.phis.len() != n || plan.phis_by_block.len() != cfg.blocks.len() || plan.phis_by_region.len() != plan.regions.len()
        || plan.edge_plans.len() != cfg.edges.len() {
        return Err(StructureError::invalid(Fault::OwnershipArena));
    }
    let targets = match CanonicalEdgeCopyTargets::build(plan, n) {
        Ok(t) => t,
        Err(e) => {
            return Err(e);
        },
    };
    if let Some(f) = find_requirement_problem(plan, n) {
        return Err(StructureError::invalid(f));
    }
    let dead = dataflow.compute_truly_dead_phis();
    if let Some(f) = find_phi_problem(cfg, plan, dataflow, &dead) {
        return Err(StructureError::invalid(f));
    }
    proof {
        first_some_empty(n as nat, phi_problem(cfg, plan, dataflow));
        assert forall|p: int| 0 <= p < plan.phis@.len() implies (#[trigger] plan.phis@[p]).incomings@.len()
            == dataflow.phi_candidates@[p].incoming@.len() by {
            assert(phi_problem(cfg, plan, dataflow)(p) is None);
            assert(dataflow.phi_candidates@[p].id.0 == p);
        }
    }
    match find_table_fault(cfg, plan, &targets, dataflow) {
        Some(e) => Err(e),
        None => Ok(()),
    }
}

} // verus!
