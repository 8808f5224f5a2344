//! The phis of the plan, by number, by block and by region.

use vstd::prelude::*;

use crate::claims::phis_dense;
use crate::dataflow::{DataflowFacts, PhiCandidate, PhiId};
use crate::edge_copies::{dispositions_of, Dispositions};
use crate::error::{Fault, StructureError};
use crate::ids::BlockRef;
use crate::plan::{PhiIncomingDisposition, PhiIncomingPlan, PhiPlan, PlanRequirement, PlanRequirements, RegionId};
use crate::search::{first_some, first_some_empty, first_some_stable};

verus! {

pub open spec fn owner_missing(phi: PhiId, row: Seq<PhiIncomingDisposition>, regions: nat) -> spec_fn(int) -> Option<Fault> {
    |j: int|
        match row[j].region_of() {
            Some(r) => if r.0 >= regions {
                Some(Fault::PhiOwnerMissing(phi, r))
            } else {
                None
            },
            None => None,
        }
}

/// Phi `p` has another number of owners than incomings, or its block, or the owner of one of
/// its incomings, is not there.
pub open spec fn install_problem(
    phis: Seq<PhiCandidate>,
    t: Dispositions,
    blocks: nat,
    regions: nat,
) -> spec_fn(int) -> Option<Fault> {
    |p: int|
        if phis[p].incoming@.len() != t[p].len() {
            Some(Fault::OwnerCount(phis[p].id, t[p].len() as usize, phis[p].incoming@.len() as usize))
        } else if phis[p].block.0 >= blocks {
            Some(Fault::PhiBlockOutside(phis[p].id))
        } else {
            first_some(t[p].len(), owner_missing(phis[p].id, t[p], regions))
        }
}

/// The phis for which owners are stated.
pub open spec fn stated_phis(phis: Seq<PhiCandidate>, t: Dispositions) -> Seq<PhiCandidate> {
    if t.len() < phis.len() {
        phis.take(t.len() as int)
    } else {
        phis
    }
}

pub open spec fn install_fault(phis: Seq<PhiCandidate>, t: Dispositions, blocks: nat, regions: nat) -> Option<Fault> {
    first_some(stated_phis(phis, t).len(), install_problem(phis, t, blocks, regions))
}

/// The first `n` phis that stand at block `b`.
pub open spec fn phis_at_block(phis: Seq<PhiCandidate>, b: BlockRef, n: nat) -> Seq<PhiId>
    decreases n,
{
    if n == 0 {
        Seq::empty()
    } else {
        let rest = phis_at_block(phis, b, (n - 1) as nat);
        if phis[n - 1].block == b {
            rest.push(phis[n - 1].id)
        } else {
            rest
        }
    }
}

/// The region takes care of one of the incomings.
pub open spec fn owned_by(row: Seq<PhiIncomingDisposition>, r: RegionId) -> bool {
    exists|j: int| 0 <= j < row.len() && (#[trigger] row[j]).region_of() == Some(r)
}

pub open spec fn is_next(list: Seq<PhiId>, id: PhiId) -> bool {
    id.0 != usize::MAX && (list.len() == 0 || list.last() != id)
}

pub fn check_is_next(list: &Vec<PhiId>, id: PhiId) -> (r: bool)
    ensures
        r == is_next(list@, id),
{
    id.0 != usize::MAX && (list.len() == 0 || list[list.len() - 1] != id)
}

/// The first `n` phis of which region `r` takes care; a phi that follows itself is listed
/// once, and the last number there can be stands for no phi.
pub open spec fn phis_of_region(phis: Seq<PhiCandidate>, t: Dispositions, r: RegionId, n: nat) -> Seq<PhiId>
    decreases n,
{
    if n == 0 {
        Seq::empty()
    } else {
        let rest = phis_of_region(phis, t, r, (n - 1) as nat);
        let id = phis[n - 1].id;
        if owned_by(t[n - 1], r) && is_next(rest, id) {
            rest.push(id)
        } else {
            rest
        }
    }
}

pub open spec fn planned_incomings(phi: &PhiCandidate, row: Seq<PhiIncomingDisposition>) -> Seq<PhiIncomingPlan> {
    Seq::new(
        phi.incoming@.len(),
        |j: int| PhiIncomingPlan { edge: phi.incoming@[j].edge, value: phi.incoming@[j].value, disposition: row[j] },
    )
}

/// The entry is that of the phi.
pub open spec fn is_plan_of(phi: &PhiCandidate, row: Seq<PhiIncomingDisposition>, r: &PhiPlan) -> bool {
    r.phi == phi.id && r.block == phi.block && r.reg == phi.reg && r.incomings@ == planned_incomings(phi, row)
}

/// The phis of the plan with their reverse indexes.
pub struct PhiPlans {
    pub phis: Vec<PhiPlan>,
    pub by_block: Vec<Vec<PhiId>>,
    pub by_region: Vec<Vec<PhiId>>,
}

pub open spec fn phi_plans_ok(
    phis: Seq<PhiCandidate>,
    t: Dispositions,
    blocks: nat,
    regions: nat,
    list: Seq<PhiPlan>,
    by_block: Seq<Vec<PhiId>>,
    by_region: Seq<Vec<PhiId>>,
) -> bool {
    &&& list.len() == phis.len()
    &&& forall|p: int| 0 <= p < list.len() ==> is_plan_of(&phis[p], t[p], #[trigger] &list[p])
    &&& by_block.len() == blocks
    &&& forall|b: int| 0 <= b < blocks ==> (#[trigger] by_block[b])@ == phis_at_block(phis, BlockRef(b as usize), phis.len())
    &&& by_region.len() == regions
    &&& forall|r: int| 0 <= r < regions ==> (#[trigger] by_region[r])@ == phis_of_region(phis, t, RegionId(r as usize), phis.len())
}

fn count_stated(dataflow: &DataflowFacts, dispositions: &Vec<Vec<PhiIncomingDisposition>>) -> (n: usize)
    ensures
        n == stated_phis(dataflow.phi_candidates@, dispositions_of(dispositions@)).len(),
        n <= dataflow.phi_candidates@.len(),
        n <= dispositions@.len(),
{
    if dispositions.len() < dataflow.phi_candidates.len() {
        dispositions.len()
    } else {
        dataflow.phi_candidates.len()
    }
}

fn find_install_fault(
    dataflow: &DataflowFacts,
    dispositions: &Vec<Vec<PhiIncomingDisposition>>,
    blocks: usize,
    regions: usize,
) -> (r: Option<Fault>)
    ensures
        r is None ==> forall|p: int|
            0 <= p < stated_phis(dataflow.phi_candidates@, dispositions_of(dispositions@)).len()
                ==> dataflow.phi_candidates@[p].incoming@.len() == (#[trigger] dispositions@[p])@.len(),
        r == install_fault(dataflow.phi_candidates@, dispositions_of(dispositions@), blocks as nat, regions as nat),
{
    let ghost phis = dataflow.phi_candidates@;
    let ghost t = dispositions_of(dispositions@);
    let n = count_stated(dataflow, dispositions);
    let ghost f = install_problem(phis, t, blocks as nat, regions as nat);
    let mut p: usize = 0;
    while p < n
        invariant
            phis == dataflow.phi_candidates@,
            t == dispositions_of(dispositions@),
            n == stated_phis(phis, t).len(),
            n <= phis.len(),
            n <= dispositions@.len(),
            f == install_problem(phis, t, blocks as nat, regions as nat),
            p <= n,
            first_some(p as nat, f) is None,
        decreases n - p,
    {
        assert(t[p as int] == dispositions@[p as int]@);
        let id = dataflow.phi_candidates[p].id;
        let m = dataflow.phi_candidates[p].incoming.len();
        let fault = if m != dispositions[p].len() {
            Some(Fault::OwnerCount(id, dispositions[p].len(), m))
        } else if dataflow.phi_candidates[p].block.0 >= blocks {
            Some(Fault::PhiBlockOutside(id))
        } else {
            find_owner_missing(id, &dispositions[p], regions)
        };
        assert(fault == f(p as int));
        if fault.is_some() {
            proof {
                first_some_stable((p + 1) as nat, n as nat, f);
            }
            return fault;
        }
        p = p + 1;
    }
    proof {
        first_some_empty(n as nat, f);
        assert forall|p: int| 0 <= p < n implies phis[p].incoming@.len() == (#[trigger] dispositions@[p])@.len() by {
            assert(f(p) is None);
            assert(t[p] == dispositions@[p]@);
        }
    }
    None
}

fn find_owner_missing(phi: PhiId, row: &Vec<PhiIncomingDisposition>, regions: usize) -> (r: Option<Fault>)
    ensures
        r == first_some(row@.len(), owner_missing(phi, row@, regions as nat)),
{
    let n = row.len();
    let ghost f = owner_missing(phi, row@, regions as nat);
    let mut j: usize = 0;
    while j < n
        invariant
            n == row@.len(),
            f == owner_missing(phi, row@, regions as nat),
            j <= n,
            first_some(j as nat, f) is None,
        decreases n - j,
    {
        let fault = match row[j].region() {
            Some(r) => if r.0 >= regions {
                Some(Fault::PhiOwnerMissing(phi, r))
            } else {
                None
            },
            None => None,
        };
        assert(fault == f(j as int));
        if fault.is_some() {
            proof {
                first_some_stable((j + 1) as nat, n as nat, f);
            }
            return fault;
        }
        j = j + 1;
    }
    None
}

fn check_owned_by(row: &Vec<PhiIncomingDisposition>, r: RegionId) -> (b: bool)
    ensures
        b == owned_by(row@, r),
{
    let n = row.len();
    let mut j: usize = 0;
    while j < n
        invariant
            n == row@.len(),
            j <= n,
            forall|k: int| 0 <= k < j ==> (#[trigger] row@[k]).region_of() != Some(r),
        decreases n - j,
    {
        if let Some(x) = row[j].region() {
            if x == r {
                assert(row@[j as int].region_of() == Some(r));
                return true;
            }
        }
        j = j + 1;
    }
    false
}

/// The first `n` phis, as far as they stand at one block.
pub fn collect_at_block(dataflow: &DataflowFacts, b: BlockRef, n: usize) -> (r: Vec<PhiId>)
    requires
        n <= dataflow.phi_candidates@.len(),
    ensures
        r@ == phis_at_block(dataflow.phi_candidates@, b, n as nat),
{
    let mut r: Vec<PhiId> = Vec::new();
    let mut p: usize = 0;
    while p < n
        invariant
            n <= dataflow.phi_candidates@.len(),
            p <= n,
            r@ == phis_at_block(dataflow.phi_candidates@, b, p as nat),
        decreases n - p,
    {
        if dataflow.phi_candidates[p].block == b {
            r.push(dataflow.phi_candidates[p].id);
        }
        p = p + 1;
    }
    r
}

fn collect_of_region(
    dataflow: &DataflowFacts,
    dispositions: &Vec<Vec<PhiIncomingDisposition>>,
    region: RegionId,
    n: usize,
) -> (r: Vec<PhiId>)
    requires
        n <= dispositions@.len(),
        n <= dataflow.phi_candidates@.len(),
    ensures
        r@ == phis_of_region(dataflow.phi_candidates@, dispositions_of(dispositions@), region, n as nat),
{
    let ghost t = dispositions_of(dispositions@);
    let mut r: Vec<PhiId> = Vec::new();
    let mut p: usize = 0;
    while p < n
        invariant
            t == dispositions_of(dispositions@),
            n <= dataflow.phi_candidates@.len(),
            n <= dispositions@.len(),
            p <= n,
            r@ == phis_of_region(dataflow.phi_candidates@, t, region, p as nat),
        decreases n - p,
    {
        assert(t[p as int] == dispositions@[p as int]@);
        let id = dataflow.phi_candidates[p].id;
        if check_owned_by(&dispositions[p], region) && check_is_next(&r, id) {
            r.push(id);
        }
        p = p + 1;
    }
    r
}

fn plan_phi(phi: &PhiCandidate, row: &Vec<PhiIncomingDisposition>) -> (r: PhiPlan)
    requires
        row@.len() == phi.incoming@.len(),
    ensures
        is_plan_of(phi, row@, &r),
{
    let n = phi.incoming.len();
    let mut incomings: Vec<PhiIncomingPlan> = Vec::new();
    let mut j: usize = 0;
    while j < n
        invariant
            n == phi.incoming@.len(),
            n == row@.len(),
            j <= n,
            incomings@.len() == j,
            forall|k: int| 0 <= k < j ==> #[trigger] incomings@[k] == planned_incomings(phi, row@)[k],
        decreases n - j,
    {
        let x = phi.incoming[j];
        incomings.push(PhiIncomingPlan { edge: x.edge, value: x.value, disposition: row[j] });
        j = j + 1;
    }
    assert(incomings@ =~= planned_incomings(phi, row@));
    PhiPlan { phi: phi.id, block: phi.block, reg: phi.reg, incomings }
}

proof fn same_at_block(a: Seq<PhiCandidate>, b: Seq<PhiCandidate>, block: BlockRef, n: nat)
    requires
        n <= a.len() <= b.len(),
        forall|p: int| 0 <= p < a.len() ==> a[p] == b[p],
    ensures
        phis_at_block(a, block, n) == phis_at_block(b, block, n),
    decreases n,
{
    if n > 0 {
        same_at_block(a, b, block, (n - 1) as nat);
    }
}

proof fn same_of_region(a: Seq<PhiCandidate>, b: Seq<PhiCandidate>, t: Dispositions, r: RegionId, n: nat)
    requires
        n <= a.len() <= b.len(),
        forall|p: int| 0 <= p < a.len() ==> a[p] == b[p],
    ensures
        phis_of_region(a, t, r, n) == phis_of_region(b, t, r, n),
    decreases n,
{
    if n > 0 {
        same_of_region(a, b, t, r, (n - 1) as nat);
    }
}

/// Makes the phis of the plan with their reverse indexes.
pub fn install_phi_plans(
    dataflow: &DataflowFacts,
    dispositions: &Vec<Vec<PhiIncomingDisposition>>,
    blocks: usize,
    regions: usize,
) -> (r: Result<
    PhiPlans,
    StructureError,
>)
    ensures
        match r {
            Ok(x) => install_fault(dataflow.phi_candidates@, dispositions_of(dispositions@), blocks as nat, regions as nat) is None
                && phi_plans_ok(
                stated_phis(dataflow.phi_candidates@, dispositions_of(dispositions@)),
                dispositions_of(dispositions@),
                blocks as nat,
                regions as nat,
                x.phis@,
                x.by_block@,
                x.by_region@,
            ),
            Err(e) => install_fault(dataflow.phi_candidates@, dispositions_of(dispositions@), blocks as nat, regions as nat) == Some(
                e.fault,
            ),
        },
{
    if let Some(f) = find_install_fault(dataflow, dispositions, blocks, regions) {
        return Err(StructureError::invalid(f));
    }
    let ghost t = dispositions_of(dispositions@);
    let ghost phis_in = stated_phis(dataflow.phi_candidates@, t);
    let n = count_stated(dataflow, dispositions);
    let mut phis: Vec<PhiPlan> = Vec::new();
    let mut p: usize = 0;
    while p < n
        invariant
            phis_in == stated_phis(dataflow.phi_candidates@, t),
            t == dispositions_of(dispositions@),
            n == phis_in.len(),
            n <= dataflow.phi_candidates@.len(),
            n <= dispositions@.len(),
            forall|p: int| 0 <= p < n ==> dataflow.phi_candidates@[p].incoming@.len() == (#[trigger] dispositions@[p])@.len(),
            p <= n,
            phis@.len() == p,
            forall|k: int| 0 <= k < p ==> is_plan_of(&phis_in[k], t[k], #[trigger] &phis@[k]),
        decreases n - p,
    {
        let ghost before = phis@;
        assert(t[p as int] == dispositions@[p as int]@);
        assert(phis_in[p as int] == dataflow.phi_candidates@[p as int]);
        phis.push(plan_phi(&dataflow.phi_candidates[p], &dispositions[p]));
        proof {
            assert forall|k: int| 0 <= k < p + 1 implies is_plan_of(&phis_in[k], t[k], #[trigger] &phis@[k]) by {
                if k < p {
                    assert(is_plan_of(&phis_in[k], t[k], &before[k]));
                }
            }
        }
        p = p + 1;
    }
    let mut by_block: Vec<Vec<PhiId>> = Vec::new();
    let mut b: usize = 0;
    while b < blocks
        invariant
            phis_in == stated_phis(dataflow.phi_candidates@, t),
            n == phis_in.len(),
            n <= dataflow.phi_candidates@.len(),
            b <= blocks,
            by_block@.len() == b,
            forall|k: int| 0 <= k < b ==> (#[trigger] by_block@[k])@ == phis_at_block(phis_in, BlockRef(k as usize), phis_in.len()),
        decreases blocks - b,
    {
        proof {
            same_at_block(phis_in, dataflow.phi_candidates@, BlockRef(b), n as nat);
        }
        by_block.push(collect_at_block(dataflow, BlockRef(b), n));
        b = b + 1;
    }
    let mut by_region: Vec<Vec<PhiId>> = Vec::new();
    let mut r: usize = 0;
    while r < regions
        invariant
            phis_in == stated_phis(dataflow.phi_candidates@, t),
            t == dispositions_of(dispositions@),
            n == phis_in.len(),
            n <= dataflow.phi_candidates@.len(),
            n <= dispositions@.len(),
            r <= regions,
            by_region@.len() == r,
            forall|k: int|
                0 <= k < r ==> (#[trigger] by_region@[k])@ == phis_of_region(phis_in, t, RegionId(k as usize), phis_in.len()),
        decreases regions - r,
    {
        proof {
            same_of_region(phis_in, dataflow.phi_candidates@, t, RegionId(r), n as nat);
        }
        by_region.push(collect_of_region(dataflow, dispositions, RegionId(r), n));
        r = r + 1;
    }
    Ok(PhiPlans { phis, by_block, by_region })
}

/// Some incoming of the phi is left unresolved.
pub open spec fn is_unresolved(row: Seq<PhiIncomingDisposition>) -> bool {
    exists|j: int| 0 <= j < row.len() && (#[trigger] row[j]) is DiagnosticUnresolved
}

/// The requirements so far, and the blocks that have some.
pub struct RequirementState {
    pub entries: Seq<PlanRequirement>,
    pub flags: Seq<bool>,
}

/// The requirements with those of the first `n` phis.
pub open spec fn required_upto(
    phis: Seq<PhiCandidate>,
    t: Dispositions,
    s: RequirementState,
    n: nat,
) -> Result<RequirementState, Fault>
    decreases n,
{
    if n == 0 {
        Ok(s)
    } else {
        match required_upto(phis, t, s, (n - 1) as nat) {
            Ok(now) => {
                let phi = &phis[n - 1];
                if !is_unresolved(t[n - 1]) {
                    Ok(now)
                } else if phi.block.0 >= now.flags.len() {
                    Err(Fault::UnresolvedBlockMissing(phi.id, phi.block))
                } else {
                    Ok(
                        RequirementState {
                            entries: now.entries.push(
                                PlanRequirement::UnresolvedValue { phi_id: phi.id, block: phi.block, reg: phi.reg },
                            ),
                            flags: now.flags.update(phi.block.0 as int, true),
                        },
                    )
                }
            },
            Err(f) => Err(f),
        }
    }
}

proof fn required_stops(phis: Seq<PhiCandidate>, t: Dispositions, s: RequirementState, m: nat, n: nat)
    requires
        m <= n,
        required_upto(phis, t, s, m) is Err,
    ensures
        required_upto(phis, t, s, n) == required_upto(phis, t, s, m),
    decreases n,
{
    if m < n {
        required_stops(phis, t, s, m, (n - 1) as nat);
    }
}

/// The requirements as far as the first `n` phis could be added, one after the other.
pub open spec fn required_so_far(phis: Seq<PhiCandidate>, t: Dispositions, s: RequirementState, n: nat) -> RequirementState
    decreases n,
{
    match required_upto(phis, t, s, n) {
        Ok(now) => now,
        Err(_) => if n == 0 {
            s
        } else {
            required_so_far(phis, t, s, (n - 1) as nat)
        },
    }
}

proof fn so_far_stops(phis: Seq<PhiCandidate>, t: Dispositions, s: RequirementState, m: nat, n: nat)
    requires
        m < n,
        required_upto(phis, t, s, m) is Ok,
        required_upto(phis, t, s, m + 1) is Err,
    ensures
        required_so_far(phis, t, s, n) == required_upto(phis, t, s, m)->Ok_0,
    decreases n,
{
    required_stops(phis, t, s, m + 1, n);
    if m + 1 < n {
        so_far_stops(phis, t, s, m, (n - 1) as nat);
    } else {
        assert((n - 1) as nat == m);
        assert(required_so_far(phis, t, s, m) == required_upto(phis, t, s, m)->Ok_0);
    }
}

fn check_unresolved(row: &Vec<PhiIncomingDisposition>) -> (r: bool)
    ensures
        r == is_unresolved(row@),
{
    let n = row.len();
    let mut j: usize = 0;
    while j < n
        invariant
            n == row@.len(),
            j <= n,
            forall|k: int| 0 <= k < j ==> !((#[trigger] row@[k]) is DiagnosticUnresolved),
        decreases n - j,
    {
        match row[j] {
            PhiIncomingDisposition::DiagnosticUnresolved => {
                assert(row@[j as int] is DiagnosticUnresolved);
                return true;
            },
            _ => {},
        }
        j = j + 1;
    }
    false
}

pub open spec fn requirement_state(r: &PlanRequirements) -> RequirementState {
    RequirementState { entries: r.entries@, flags: r.unresolved_by_block@ }
}

/// States which values are left unresolved.
pub fn install_unresolved_requirements(
    dataflow: &DataflowFacts,
    dispositions: &Vec<Vec<PhiIncomingDisposition>>,
    requirements: &mut PlanRequirements,
) -> (r: Result<(), StructureError>)
    requires
        phis_dense(dataflow.phi_candidates@),
        dispositions@.len() == dataflow.phi_candidates@.len(),
    ensures
        match r {
            Ok(_) => required_upto(
                dataflow.phi_candidates@,
                dispositions_of(dispositions@),
                requirement_state(old(requirements)),
                dataflow.phi_candidates@.len(),
            ) == Ok::<RequirementState, Fault>(requirement_state(final(requirements))),
            Err(e) => required_upto(
                dataflow.phi_candidates@,
                dispositions_of(dispositions@),
                requirement_state(old(requirements)),
                dataflow.phi_candidates@.len(),
            ) == Err::<RequirementState, Fault>(e.fault),
        },
        requirement_state(final(requirements)) == required_so_far(
            dataflow.phi_candidates@,
            dispositions_of(dispositions@),
            requirement_state(old(requirements)),
            dataflow.phi_candidates@.len(),
        ),
        final(requirements).by_edge == old(requirements).by_edge,
        final(requirements).required_features == old(requirements).required_features,
        final(requirements).unavailable_features == old(requirements).unavailable_features,
{
    let ghost phis = dataflow.phi_candidates@;
    let ghost t = dispositions_of(dispositions@);
    let n = dataflow.phi_candidates.len();
    let mut p: usize = 0;
    while p < n
        invariant
            phis == dataflow.phi_candidates@,
            t == dispositions_of(dispositions@),
            n == phis.len(),
            n == dispositions@.len(),
            p <= n,
            required_upto(phis, t, requirement_state(old(requirements)), p as nat) == Ok::<RequirementState, Fault>(
                requirement_state(requirements),
            ),
            requirements.by_edge == old(requirements).by_edge,
            requirements.required_features == old(requirements).required_features,
            requirements.unavailable_features == old(requirements).unavailable_features,
        decreases n - p,
    {
        assert(t[p as int] == dispositions@[p as int]@);
        if check_unresolved(&dispositions[p]) {
            let phi = &dataflow.phi_candidates[p];
            if phi.block.0 >= requirements.unresolved_by_block.len() {
                proof {
                    required_stops(phis, t, requirement_state(old(requirements)), (p + 1) as nat, n as nat);
                    so_far_stops(phis, t, requirement_state(old(requirements)), p as nat, n as nat);
                }
                return Err(StructureError::invalid(Fault::UnresolvedBlockMissing(phi.id, phi.block)));
            }
            requirements.unresolved_by_block[phi.block.0] = true;
            requirements.entries.push(PlanRequirement::UnresolvedValue { phi_id: phi.id, block: phi.block, reg: phi.reg });
        }
        p = p + 1;
    }
    Ok(())
}

} // verus!
