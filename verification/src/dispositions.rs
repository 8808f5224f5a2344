//! What is clear about the incomings of phis before any region claims them, and what is left
//! to the edges afterwards.

use vstd::prelude::*;

use crate::cfg::Cfg;
use crate::claims::{owners_of, phis_dense, slots_fit, Owners};
use crate::dataflow::{is_needed, DataflowFacts, PhiCandidate, PhiId, PhiIncoming};
use crate::edge_copies::{dispositions_fit, dispositions_of, Dispositions};
use crate::error::{Fault, StructureError};
use crate::idset::IdSet;
use crate::plan::{EdgeTransfer, PhiIncomingDisposition, RegionId, RegionPlan};
use crate::search::{first_some, first_some_stable, first_where, first_where_stable};
use crate::structure_plan::{entry_at, StructurePlan};

verus! {

pub open spec fn misplaced(phis: Seq<PhiCandidate>) -> spec_fn(int) -> bool {
    |p: int| phis[p].id.0 != p
}

pub open spec fn arena_fault(phis: Seq<PhiCandidate>) -> Option<Fault> {
    match first_where(phis.len(), misplaced(phis)) {
        Some(p) => Some(Fault::PhiArenaSlot(p as usize, phis[p].id)),
        None => None,
    }
}

/// Refuses phis that do not stand at their numbers.
pub fn validate_phi_arena(dataflow: &DataflowFacts) -> (r: Result<(), StructureError>)
    ensures
        match r {
            Ok(_) => arena_fault(dataflow.phi_candidates@) is None && phis_dense(dataflow.phi_candidates@),
            Err(e) => arena_fault(dataflow.phi_candidates@) == Some(e.fault),
        },
{
    let n = dataflow.phi_candidates.len();
    let ghost f = misplaced(dataflow.phi_candidates@);
    let mut p: usize = 0;
    while p < n
        invariant
            n == dataflow.phi_candidates@.len(),
            f == misplaced(dataflow.phi_candidates@),
            p <= n,
            first_where(p as nat, f) is None,
            forall|k: int| 0 <= k < p ==> (#[trigger] dataflow.phi_candidates@[k]).id.0 == k,
        decreases n - p,
    {
        let id = dataflow.phi_candidates[p].id;
        assert(f(p as int) == (id.0 != p));
        if id.0 != p {
            proof {
                first_where_stable((p + 1) as nat, n as nat, f);
            }
            return Err(StructureError::invalid(Fault::PhiArenaSlot(p, id)));
        }
        p = p + 1;
    }
    Ok(())
}

/// What goes wrong on the way from a region to the outermost one.
pub open spec fn climb_fault(plan: &StructurePlan, r: RegionId, seen: Set<RegionId>, fuel: nat) -> Option<Fault>
    decreases fuel,
{
    if r.0 >= plan.regions@.len() {
        Some(Fault::RegionNodeMissing(r))
    } else if seen.contains(r) {
        Some(Fault::RegionCycle(r))
    } else {
        match plan.regions@[r.0 as int].parent_of() {
            Some(p) => if fuel == 0 {
                Some(Fault::RegionCycle(r))
            } else {
                climb_fault(plan, p, seen.insert(r), (fuel - 1) as nat)
            },
            None => None,
        }
    }
}

/// The nearest region around `r`, itself counted, that is more than a block or a sequence is
/// one that could not be structured.
pub open spec fn in_island(plan: &StructurePlan, r: RegionId, fuel: nat) -> bool
    decreases fuel,
{
    if r.0 >= plan.regions@.len() {
        false
    } else {
        match plan.regions@[r.0 as int] {
            RegionPlan::Unstructured { .. } => true,
            RegionPlan::Branch { .. } => false,
            RegionPlan::ValueDecision { .. } => false,
            RegionPlan::Loop { .. } => false,
            RegionPlan::Block { parent, .. } => fuel > 0 && in_island(plan, parent, (fuel - 1) as nat),
            RegionPlan::Sequence { parent, .. } => match parent {
                Some(p) => fuel > 0 && in_island(plan, p, (fuel - 1) as nat),
                None => false,
            },
        }
    }
}

pub open spec fn climb_from(plan: &StructurePlan) -> spec_fn(int) -> Option<Fault> {
    |i: int| climb_fault(plan, RegionId(i as usize), Set::empty(), plan.regions@.len())
}

pub open spec fn island_fault(plan: &StructurePlan) -> Option<Fault> {
    first_some(plan.regions@.len(), climb_from(plan))
}

pub open spec fn is_island(plan: &StructurePlan, r: RegionId) -> bool {
    in_island(plan, r, plan.regions@.len())
}

fn find_climb_fault(plan: &StructurePlan, start: usize) -> (r: Option<Fault>)
    requires
        start < plan.regions@.len(),
    ensures
        r == climb_fault(plan, RegionId(start), Set::empty(), plan.regions@.len()),
{
    let n = plan.regions.len();
    let mut at = RegionId(start);
    let mut seen: Vec<bool> = vec![false; n];
    let ghost mut set: Set<RegionId> = Set::empty();
    let mut fuel: usize = n;
    loop
        invariant
            n == plan.regions@.len(),
            seen@.len() == n,
            forall|k: int| 0 <= k < n ==> #[trigger] seen@[k] == set.contains(RegionId(k as usize)),
            climb_fault(plan, RegionId(start), Set::empty(), plan.regions@.len()) == climb_fault(plan, at, set, fuel as nat),
        decreases fuel,
    {
        if at.0 >= n {
            return Some(Fault::RegionNodeMissing(at));
        }
        assert(RegionId(at.0) == at);
        if seen[at.0] {
            return Some(Fault::RegionCycle(at));
        }
        match plan.regions[at.0].parent() {
            Some(p) => {
                if fuel == 0 {
                    return Some(Fault::RegionCycle(at));
                }
                seen[at.0] = true;
                proof {
                    set = set.insert(at);
                }
                at = p;
                fuel = fuel - 1;
            },
            None => {
                return None;
            },
        }
    }
}

fn check_island(plan: &StructurePlan, start: usize) -> (r: bool)
    ensures
        r == is_island(plan, RegionId(start)),
{
    let n = plan.regions.len();
    let mut at = RegionId(start);
    let mut fuel: usize = n;
    loop
        invariant
            n == plan.regions@.len(),
            is_island(plan, RegionId(start)) == in_island(plan, at, fuel as nat),
        decreases fuel,
    {
        if at.0 >= n {
            return false;
        }
        let up = match &plan.regions[at.0] {
            RegionPlan::Unstructured { .. } => {
                return true;
            },
            RegionPlan::Branch { .. } | RegionPlan::ValueDecision { .. } | RegionPlan::Loop { .. } => {
                return false;
            },
            RegionPlan::Block { parent, .. } => Some(*parent),
            RegionPlan::Sequence { parent, .. } => *parent,
        };
        match up {
            Some(p) => {
                if fuel == 0 {
                    return false;
                }
                at = p;
                fuel = fuel - 1;
            },
            None => {
                return false;
            },
        }
    }
}

/// Which regions belong to one that could not be structured.
pub fn regions_owned_by_island_graph(plan: &StructurePlan) -> (r: Result<Vec<bool>, StructureError>)
    ensures
        match r {
            Ok(list) => island_fault(plan) is None && list@.len() == plan.regions@.len() && forall|i: int|
                0 <= i < list@.len() ==> #[trigger] list@[i] == is_island(plan, RegionId(i as usize)),
            Err(e) => island_fault(plan) == Some(e.fault),
        },
{
    let n = plan.regions.len();
    let ghost f = climb_from(plan);
    let mut list: Vec<bool> = Vec::new();
    let mut i: usize = 0;
    while i < n
        invariant
            n == plan.regions@.len(),
            f == climb_from(plan),
            i <= n,
            first_some(i as nat, f) is None,
            list@.len() == i,
            forall|k: int| 0 <= k < i ==> #[trigger] list@[k] == is_island(plan, RegionId(k as usize)),
        decreases n - i,
    {
        let fault = find_climb_fault(plan, i);
        assert(fault == f(i as int));
        if fault.is_some() {
            proof {
                first_some_stable((i + 1) as nat, n as nat, f);
            }
            return Err(StructureError::invalid(fault.unwrap()));
        }
        list.push(check_island(plan, i));
        i = i + 1;
    }
    Ok(list)
}

/// What is clear about an incoming from its edge alone.
pub open spec fn clear_incoming(
    cfg: &Cfg,
    plan: &StructurePlan,
    phi: PhiId,
    x: PhiIncoming,
    j: int,
) -> Result<Option<PhiIncomingDisposition>, Fault> {
    match x.edge {
        Some(e) => if e.0 >= plan.edge_plans@.len() {
            Err(Fault::IncomingEdgePlanMissing(phi, j as usize, e))
        } else if e.0 >= cfg.edges@.len() {
            Err(Fault::IncomingEdgeOutsideCfg(phi, j as usize, e))
        } else {
            let ep = &plan.edge_plans@[e.0 as int];
            let to = match entry_at(plan.region_by_block@, cfg.edge(e).to.0) {
                Some(r) => is_island(plan, r),
                None => false,
            };
            let yielded = entry_at(plan.condition_value_by_phi@, phi.0) is Some || entry_at(plan.value_decision_by_phi@, phi.0) is Some;
            if ep.transfer is Unreachable {
                Ok(Some(PhiIncomingDisposition::Dead))
            } else if ep.transfer is Goto || is_island(plan, ep.owner) || (to && !yielded) {
                Ok(Some(PhiIncomingDisposition::EdgeCopy))
            } else {
                Ok(None)
            }
        },
        None => Ok(None),
    }
}

/// What is clear about the first `n` incomings of a phi.
pub open spec fn clear_row(
    cfg: &Cfg,
    plan: &StructurePlan,
    phi: &PhiCandidate,
    n: nat,
) -> Result<Seq<Option<PhiIncomingDisposition>>, Fault>
    decreases n,
{
    if n == 0 {
        Ok(Seq::empty())
    } else {
        match clear_row(cfg, plan, phi, (n - 1) as nat) {
            Ok(rest) => match clear_incoming(cfg, plan, phi.id, phi.incoming@[n - 1], n - 1) {
                Ok(d) => Ok(rest.push(d)),
                Err(f) => Err(f),
            },
            Err(f) => Err(f),
        }
    }
}

/// What is clear about the first `n` phis; a phi that nothing needs is dead altogether.
pub open spec fn clear_owners(cfg: &Cfg, plan: &StructurePlan, dataflow: &DataflowFacts, n: nat) -> Result<Owners, Fault>
    decreases n,
{
    if n == 0 {
        Ok(Seq::empty())
    } else {
        match clear_owners(cfg, plan, dataflow, (n - 1) as nat) {
            Ok(rest) => {
                let phi = &dataflow.phi_candidates@[n - 1];
                if !is_needed(dataflow.use_values@, dataflow.phi_candidates@, (n - 1) as usize) {
                    Ok(rest.push(Seq::new(phi.incoming@.len(), |j: int| Some(PhiIncomingDisposition::Dead))))
                } else {
                    match clear_row(cfg, plan, phi, phi.incoming@.len()) {
                        Ok(row) => Ok(rest.push(row)),
                        Err(f) => Err(f),
                    }
                }
            },
            Err(f) => Err(f),
        }
    }
}

proof fn clear_row_stops(cfg: &Cfg, plan: &StructurePlan, phi: &PhiCandidate, m: nat, n: nat)
    requires
        m <= n,
        clear_row(cfg, plan, phi, m) is Err,
    ensures
        clear_row(cfg, plan, phi, n) == clear_row(cfg, plan, phi, m),
    decreases n,
{
    if m < n {
        clear_row_stops(cfg, plan, phi, m, (n - 1) as nat);
    }
}

proof fn clear_owners_stop(cfg: &Cfg, plan: &StructurePlan, dataflow: &DataflowFacts, m: nat, n: nat)
    requires
        m <= n,
        clear_owners(cfg, plan, dataflow, m) is Err,
    ensures
        clear_owners(cfg, plan, dataflow, n) == clear_owners(cfg, plan, dataflow, m),
    decreases n,
{
    if m < n {
        clear_owners_stop(cfg, plan, dataflow, m, (n - 1) as nat);
    }
}

fn find_clear(cfg: &Cfg, plan: &StructurePlan, islands: &Vec<bool>, phi: PhiId, x: PhiIncoming, j: usize) -> (r: Result<
    Option<PhiIncomingDisposition>,
    StructureError,
>)
    requires
        islands@.len() == plan.regions@.len(),
        forall|i: int| 0 <= i < islands@.len() ==> #[trigger] islands@[i] == is_island(plan, RegionId(i as usize)),
    ensures
        match r {
            Ok(d) => clear_incoming(cfg, plan, phi, x, j as int) == Ok::<Option<PhiIncomingDisposition>, Fault>(d),
            Err(e) => clear_incoming(cfg, plan, phi, x, j as int) == Err::<Option<PhiIncomingDisposition>, Fault>(e.fault),
        },
{
    let e = match x.edge {
        Some(e) => e,
        None => {
            return Ok(None);
        },
    };
    if e.0 >= plan.edge_plans.len() {
        return Err(StructureError::invalid(Fault::IncomingEdgePlanMissing(phi, j, e)));
    }
    if e.0 >= cfg.edges.len() {
        return Err(StructureError::invalid(Fault::IncomingEdgeOutsideCfg(phi, j, e)));
    }
    let to = match plan.region_for_block(cfg.edges[e.0].to) {
        Some(r) => look_up(plan, islands, r),
        None => false,
    };
    let yielded = plan.condition_value_owner(phi).is_some() || plan.value_decision_owner(phi).is_some();
    let owned = look_up(plan, islands, plan.edge_plans[e.0].owner);
    match plan.edge_plans[e.0].transfer {
        EdgeTransfer::Unreachable => Ok(Some(PhiIncomingDisposition::Dead)),
        EdgeTransfer::Goto(_, _) => Ok(Some(PhiIncomingDisposition::EdgeCopy)),
        _ => if owned || (to && !yielded) {
            Ok(Some(PhiIncomingDisposition::EdgeCopy))
        } else {
            Ok(None)
        },
    }
}

fn look_up(plan: &StructurePlan, islands: &Vec<bool>, r: RegionId) -> (b: bool)
    requires
        islands@.len() == plan.regions@.len(),
        forall|i: int| 0 <= i < islands@.len() ==> #[trigger] islands@[i] == is_island(plan, RegionId(i as usize)),
    ensures
        b == is_island(plan, r),
{
    if r.0 < islands.len() {
        assert(islands@[r.0 as int] == is_island(plan, RegionId(r.0)));
        islands[r.0]
    } else {
        false
    }
}

fn collect_clear_row(cfg: &Cfg, plan: &StructurePlan, islands: &Vec<bool>, phi: &PhiCandidate) -> (r: Result<
    Vec<Option<PhiIncomingDisposition>>,
    StructureError,
>)
    requires
        islands@.len() == plan.regions@.len(),
        forall|i: int| 0 <= i < islands@.len() ==> #[trigger] islands@[i] == is_island(plan, RegionId(i as usize)),
    ensures
        match r {
            Ok(row) => clear_row(cfg, plan, phi, phi.incoming@.len()) == Ok::<Seq<Option<PhiIncomingDisposition>>, Fault>(row@)
                && row@.len() == phi.incoming@.len(),
            Err(e) => clear_row(cfg, plan, phi, phi.incoming@.len()) == Err::<Seq<Option<PhiIncomingDisposition>>, Fault>(e.fault),
        },
{
    let n = phi.incoming.len();
    let mut row: Vec<Option<PhiIncomingDisposition>> = Vec::new();
    assert(row@ =~= Seq::empty());
    let mut j: usize = 0;
    while j < n
        invariant
            islands@.len() == plan.regions@.len(),
            forall|i: int| 0 <= i < islands@.len() ==> #[trigger] islands@[i] == is_island(plan, RegionId(i as usize)),
            n == phi.incoming@.len(),
            j <= n,
            row@.len() == j,
            clear_row(cfg, plan, phi, j as nat) == Ok::<Seq<Option<PhiIncomingDisposition>>, Fault>(row@),
        decreases n - j,
    {
        match find_clear(cfg, plan, islands, phi.id, phi.incoming[j], j) {
            Ok(d) => {
                row.push(d);
            },
            Err(e) => {
                proof {
                    clear_row_stops(cfg, plan, phi, (j + 1) as nat, n as nat);
                }
                return Err(e);
            },
        }
        j = j + 1;
    }
    Ok(row)
}

/// Notes what is clear from the edges alone, and which phis nothing needs.
pub fn collect_clear_owners(
    cfg: &Cfg,
    plan: &StructurePlan,
    dataflow: &DataflowFacts,
    islands: &Vec<bool>,
    dead: &IdSet<PhiId>,
) -> (r: Result<
    Vec<Vec<Option<PhiIncomingDisposition>>>,
    StructureError,
>)
    requires
        phis_dense(dataflow.phi_candidates@),
        islands@.len() == plan.regions@.len(),
        forall|i: int| 0 <= i < islands@.len() ==> #[trigger] islands@[i] == is_island(plan, RegionId(i as usize)),
        forall|x: PhiId| #[trigger] dead@.contains(x) <==> x.0 < dataflow.phi_candidates@.len() && !is_needed(
            dataflow.use_values@,
            dataflow.phi_candidates@,
            x.0,
        ),
    ensures
        match r {
            Ok(t) => clear_owners(cfg, plan, dataflow, dataflow.phi_candidates@.len()) == Ok::<Owners, Fault>(owners_of(t@)) && slots_fit(
                dataflow.phi_candidates@,
                owners_of(t@),
            ),
            Err(e) => clear_owners(cfg, plan, dataflow, dataflow.phi_candidates@.len()) == Err::<Owners, Fault>(e.fault),
        },
{
    let ghost phis = dataflow.phi_candidates@;
    let n = dataflow.phi_candidates.len();
    let mut t: Vec<Vec<Option<PhiIncomingDisposition>>> = Vec::new();
    assert(owners_of(t@) =~= Seq::empty());
    let mut p: usize = 0;
    while p < n
        invariant
            phis_dense(dataflow.phi_candidates@),
            islands@.len() == plan.regions@.len(),
            forall|i: int| 0 <= i < islands@.len() ==> #[trigger] islands@[i] == is_island(plan, RegionId(i as usize)),
            forall|x: PhiId| #[trigger] dead@.contains(x) <==> x.0 < dataflow.phi_candidates@.len() && !is_needed(
                dataflow.use_values@,
                dataflow.phi_candidates@,
                x.0,
            ),
            phis == dataflow.phi_candidates@,
            n == phis.len(),
            p <= n,
            t@.len() == p,
            clear_owners(cfg, plan, dataflow, p as nat) == Ok::<Owners, Fault>(owners_of(t@)),
            forall|k: int| 0 <= k < p ==> (#[trigger] t@[k])@.len() == phis[k].incoming@.len(),
        decreases n - p,
    {
        let phi = &dataflow.phi_candidates[p];
        let ghost before = t@;
        let row = if dead.contains(PhiId(p)) {
            let m = phi.incoming.len();
            let row: Vec<Option<PhiIncomingDisposition>> = vec![Some(PhiIncomingDisposition::Dead); m];
            assert(row@ =~= Seq::new(phi.incoming@.len(), |j: int| Some(PhiIncomingDisposition::Dead)));
            row
        } else {
            match collect_clear_row(cfg, plan, islands, phi) {
                Ok(row) => row,
                Err(e) => {
                    proof {
                        clear_owners_stop(cfg, plan, dataflow, (p + 1) as nat, n as nat);
                    }
                    return Err(e);
                },
            }
        };
        t.push(row);
        proof {
            assert(owners_of(t@) =~= owners_of(before).push(row@));
        }
        p = p + 1;
    }
    Ok(t)
}

/// The last word on an incoming: what nobody claimed, or several did without agreement, is
/// copied on its edge, and is unresolved where it has none.
pub open spec fn last_word(owner: Option<PhiIncomingDisposition>, x: PhiIncoming) -> PhiIncomingDisposition {
    match owner {
        Some(d) => if d is DiagnosticUnresolved && x.edge is Some {
            PhiIncomingDisposition::EdgeCopy
        } else {
            d
        },
        None => if x.edge is Some {
            PhiIncomingDisposition::EdgeCopy
        } else {
            PhiIncomingDisposition::DiagnosticUnresolved
        },
    }
}

pub open spec fn last_words(phis: Seq<PhiCandidate>, t: Owners) -> Dispositions {
    Seq::new(t.len(), |p: int| Seq::new(t[p].len(), |j: int| last_word(t[p][j], phis[p].incoming@[j])))
}

pub fn settle_dispositions(
    dataflow: &DataflowFacts,
    table: &Vec<Vec<Option<PhiIncomingDisposition>>>,
) -> (r: Vec<Vec<PhiIncomingDisposition>>)
    requires
        slots_fit(dataflow.phi_candidates@, owners_of(table@)),
    ensures
        dispositions_of(r@) == last_words(dataflow.phi_candidates@, owners_of(table@)),
        dispositions_fit(dataflow.phi_candidates@, dispositions_of(r@)),
{
    let ghost phis = dataflow.phi_candidates@;
    let ghost t = owners_of(table@);
    let n = table.len();
    let mut r: Vec<Vec<PhiIncomingDisposition>> = Vec::new();
    let mut p: usize = 0;
    while p < n
        invariant
            phis == dataflow.phi_candidates@,
            t == owners_of(table@),
            slots_fit(phis, t),
            n == table@.len(),
            p <= n,
            r@.len() == p,
            forall|k: int| 0 <= k < p ==> (#[trigger] r@[k])@ == last_words(phis, t)[k],
        decreases n - p,
    {
        assert(t[p as int] == table@[p as int]@);
        let m = table[p].len();
        let mut row: Vec<PhiIncomingDisposition> = Vec::new();
        let mut j: usize = 0;
        while j < m
            invariant
                phis == dataflow.phi_candidates@,
                t == owners_of(table@),
                slots_fit(phis, t),
                p < table@.len(),
                t[p as int] == table@[p as int]@,
                m == t[p as int].len(),
                j <= m,
                row@.len() == j,
                forall|k: int| 0 <= k < j ==> #[trigger] row@[k] == last_word(t[p as int][k], phis[p as int].incoming@[k]),
            decreases m - j,
        {
            let has_edge = dataflow.phi_candidates[p].incoming[j].edge.is_some();
            let d = match table[p][j] {
                Some(PhiIncomingDisposition::DiagnosticUnresolved) => if has_edge {
                    PhiIncomingDisposition::EdgeCopy
                } else {
                    PhiIncomingDisposition::DiagnosticUnresolved
                },
                Some(d) => d,
                None => if has_edge {
                    PhiIncomingDisposition::EdgeCopy
                } else {
                    PhiIncomingDisposition::DiagnosticUnresolved
                },
            };
            row.push(d);
            j = j + 1;
        }
        assert(row@ =~= last_words(phis, t)[p as int]);
        r.push(row);
        p = p + 1;
    }
    assert(dispositions_of(r@) =~= last_words(phis, t));
    r
}

} // verus!
