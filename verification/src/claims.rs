//! What the regions of the plan claim of the values that flow into phis.

use vstd::prelude::*;

use crate::dataflow::{DataflowFacts, PhiCandidate, PhiId};
use crate::error::{Fault, StructureError};
use crate::evidence::{BranchValueMergeValue, LoopValueArm, LoopValueIncoming, LoopValueMerge};
use crate::ids::BlockRef;
use crate::owners::{claim_owner, claimed, RegionOwnerIndex};
use crate::plan::{ConditionPlan, ConditionPlanId, PhiIncomingDisposition, RegionId};
use crate::search::{first_some, first_some_stable, first_where, first_where_stable};
use crate::structure_plan::StructurePlan;

verus! {

/// For every phi, who has claimed each of its incomings.
pub type Owners = Seq<Seq<Option<PhiIncomingDisposition>>>;

pub open spec fn owners_of(table: Seq<Vec<Option<PhiIncomingDisposition>>>) -> Owners {
    Seq::new(table.len(), |p: int| table[p]@)
}

/// Every phi stands at its number, and there is one slot for each of its incomings.
pub open spec fn slots_fit(phis: Seq<PhiCandidate>, t: Owners) -> bool {
    &&& phis_dense(phis)
    &&& t.len() == phis.len()
    &&& forall|p: int| 0 <= p < t.len() ==> (#[trigger] t[p]).len() == phis[p].incoming@.len()
}

/// Every phi stands at its number.
pub open spec fn phis_dense(phis: Seq<PhiCandidate>) -> bool {
    forall|p: int| 0 <= p < phis.len() ==> (#[trigger] phis[p]).id.0 == p
}

/// A step that went as described.
pub open spec fn went(r: Result<(), StructureError>, now: Owners, s: Result<Owners, Fault>) -> bool {
    match r {
        Ok(_) => s == Ok::<Owners, Fault>(now),
        Err(e) => s == Err::<Owners, Fault>(e.fault),
    }
}

/// The row of phi `p` after `owner` has come forward for the incomings where `mine` holds.
pub open spec fn claimed_row(
    plan: &StructurePlan,
    row: Seq<Option<PhiIncomingDisposition>>,
    mine: spec_fn(int) -> Option<PhiIncomingDisposition>,
) -> Seq<Option<PhiIncomingDisposition>> {
    Seq::new(
        row.len(),
        |j: int|
            match mine(j) {
                Some(owner) => Some(claimed(plan, row[j], owner)),
                None => row[j],
            },
    )
}

pub open spec fn everywhere(owner: PhiIncomingDisposition) -> spec_fn(int) -> Option<PhiIncomingDisposition> {
    |j: int| Some(owner)
}

/// The region yields everything that flows into the phi.
pub open spec fn yields_phi(
    plan: &StructurePlan,
    phis: Seq<PhiCandidate>,
    t: Owners,
    region: RegionId,
    phi: PhiId,
) -> Result<Owners, Fault> {
    if phi.0 >= phis.len() {
        Err(Fault::OwnerMissingPhi(phi))
    } else {
        Ok(
            t.update(
                phi.0 as int,
                claimed_row(plan, t[phi.0 as int], everywhere(PhiIncomingDisposition::RegionResult(region))),
            ),
        )
    }
}

/// Lets an owner come forward for one incoming.
fn claim_slot(
    index: &RegionOwnerIndex,
    table: &mut Vec<Vec<Option<PhiIncomingDisposition>>>,
    p: usize,
    j: usize,
    owner: PhiIncomingDisposition,
)
    requires
        index.wf(),
        p < old(table)@.len(),
        j < old(table)@[p as int]@.len(),
    ensures
        owners_of(final(table)@) == owners_of(old(table)@).update(
            p as int,
            owners_of(old(table)@)[p as int].update(j as int, Some(claimed(index.plan, owners_of(old(table)@)[p as int][j as int], owner))),
        ),
        final(table)@.len() == old(table)@.len(),
{
    let ghost before = owners_of(table@);
    let (now, _) = claim_owner(index, table[p][j], owner);
    let ghost row = table@[p as int]@;
    table[p][j] = Some(now);
    proof {
        assert(table@[p as int]@ =~= row.update(j as int, Some(now)));
        assert(owners_of(table@) =~= before.update(p as int, row.update(j as int, Some(now))));
    }
}

/// Lets an owner come forward for every incoming of a phi.
pub fn claim_row(
    index: &RegionOwnerIndex,
    table: &mut Vec<Vec<Option<PhiIncomingDisposition>>>,
    p: usize,
    owner: PhiIncomingDisposition,
)
    requires
        index.wf(),
        p < old(table)@.len(),
    ensures
        owners_of(final(table)@) == owners_of(old(table)@).update(
            p as int,
            claimed_row(index.plan, owners_of(old(table)@)[p as int], everywhere(owner)),
        ),
        final(table)@.len() == old(table)@.len(),
{
    let ghost before = owners_of(table@);
    let ghost row = before[p as int];
    let ghost goal = claimed_row(index.plan, row, everywhere(owner));
    let n = table[p].len();
    let mut j: usize = 0;
    while j < n
        invariant
            index.wf(),
            p < table@.len(),
            table@.len() == old(table)@.len(),
            before == owners_of(old(table)@),
            row == before[p as int],
            goal == claimed_row(index.plan, row, everywhere(owner)),
            n == row.len(),
            j <= n,
            owners_of(table@).len() == before.len(),
            owners_of(table@)[p as int].len() == n,
            forall|q: int| 0 <= q < before.len() && q != p ==> #[trigger] owners_of(table@)[q] == before[q],
            forall|k: int| 0 <= k < j ==> #[trigger] owners_of(table@)[p as int][k] == goal[k],
            forall|k: int| j <= k < n ==> #[trigger] owners_of(table@)[p as int][k] == row[k],
        decreases n - j,
    {
        claim_slot(index, table, p, j, owner);
        j = j + 1;
    }
    proof {
        assert(owners_of(table@)[p as int] =~= goal);
        assert(owners_of(table@) =~= before.update(p as int, goal));
    }
}

pub proof fn fits_after(phis: Seq<PhiCandidate>, t: Owners, p: int, row: Seq<Option<PhiIncomingDisposition>>)
    requires
        slots_fit(phis, t),
        0 <= p < t.len(),
        row.len() == t[p].len(),
    ensures
        slots_fit(phis, t.update(p, row)),
{
    let next = t.update(p, row);
    assert forall|q: int| 0 <= q < next.len() implies (#[trigger] next[q]).len() == phis[q].incoming@.len() by {
        assert(t[q].len() == phis[q].incoming@.len());
    }
}

pub fn claim_yield(
    index: &RegionOwnerIndex,
    dataflow: &DataflowFacts,
    table: &mut Vec<Vec<Option<PhiIncomingDisposition>>>,
    region: RegionId,
    phi: PhiId,
) -> (r: Result<(), StructureError>)
    requires
        index.wf(),
        slots_fit(dataflow.phi_candidates@, owners_of(old(table)@)),
    ensures
        went(
            r,
            owners_of(final(table)@),
            yields_phi(index.plan, dataflow.phi_candidates@, owners_of(old(table)@), region, phi),
        ),
        r is Ok ==> slots_fit(dataflow.phi_candidates@, owners_of(final(table)@)),
{
    if phi.0 >= dataflow.phi_candidates.len() {
        return Err(StructureError::invalid(Fault::OwnerMissingPhi(phi)));
    }
    let ghost before = owners_of(table@);
    claim_row(index, table, phi.0, PhiIncomingDisposition::RegionResult(region));
    proof {
        fits_after(
            dataflow.phi_candidates@,
            before,
            phi.0 as int,
            claimed_row(index.plan, before[phi.0 as int], everywhere(PhiIncomingDisposition::RegionResult(region))),
        );
    }
    Ok(())
}

/// The region yields what the first `n` nodes of its condition compute as values.
pub open spec fn yields_condition(
    plan: &StructurePlan,
    phis: Seq<PhiCandidate>,
    t: Owners,
    region: RegionId,
    c: &ConditionPlan,
    n: nat,
) -> Result<
    Owners,
    Fault,
>
    decreases n,
{
    if n == 0 {
        Ok(t)
    } else {
        match yields_condition(plan, phis, t, region, c, (n - 1) as nat) {
            Ok(now) => match c.nodes@[n - 1].materialized_value {
                Some(v) => yields_phi(plan, phis, now, region, v.phi),
                None => Ok(now),
            },
            Err(f) => Err(f),
        }
    }
}

pub open spec fn yields_condition_id(
    plan: &StructurePlan,
    phis: Seq<PhiCandidate>,
    t: Owners,
    region: RegionId,
    id: ConditionPlanId,
) -> Result<
    Owners,
    Fault,
> {
    if id.0 >= plan.conditions@.len() {
        Err(Fault::ConditionValueMissing)
    } else {
        let c = &plan.conditions@[id.0 as int];
        yields_condition(plan, phis, t, region, c, c.nodes@.len())
    }
}

proof fn yields_condition_stops(
    plan: &StructurePlan,
    phis: Seq<PhiCandidate>,
    t: Owners,
    region: RegionId,
    c: &ConditionPlan,
    m: nat,
    n: nat,
)
    requires
        m <= n,
        yields_condition(plan, phis, t, region, c, m) is Err,
    ensures
        yields_condition(plan, phis, t, region, c, n) == yields_condition(plan, phis, t, region, c, m),
    decreases n,
{
    if m < n {
        yields_condition_stops(plan, phis, t, region, c, m, (n - 1) as nat);
    }
}

pub fn claim_condition_values(
    index: &RegionOwnerIndex,
    dataflow: &DataflowFacts,
    table: &mut Vec<Vec<Option<PhiIncomingDisposition>>>,
    region: RegionId,
    condition: ConditionPlanId,
) -> (r: Result<(), StructureError>)
    requires
        index.wf(),
        slots_fit(dataflow.phi_candidates@, owners_of(old(table)@)),
    ensures
        went(
            r,
            owners_of(final(table)@),
            yields_condition_id(index.plan, dataflow.phi_candidates@, owners_of(old(table)@), region, condition),
        ),
        r is Ok ==> slots_fit(dataflow.phi_candidates@, owners_of(final(table)@)),
{
    if condition.0 >= index.plan.conditions.len() {
        return Err(StructureError::invalid(Fault::ConditionValueMissing));
    }
    let c = &index.plan.conditions[condition.0];
    let ghost before = owners_of(table@);
    let n = c.nodes.len();
    let mut i: usize = 0;
    while i < n
        invariant
            index.wf(),
            slots_fit(dataflow.phi_candidates@, owners_of(table@)),
            condition.0 < index.plan.conditions@.len(),
            *c == index.plan.conditions@[condition.0 as int],
            before == owners_of(old(table)@),
            n == c.nodes@.len(),
            i <= n,
            yields_condition(index.plan, dataflow.phi_candidates@, before, region, c, i as nat) == Ok::<Owners, Fault>(
                owners_of(table@),
            ),
        decreases n - i,
    {
        if let Some(v) = c.nodes[i].materialized_value {
            if let Err(e) = claim_yield(index, dataflow, table, region, v.phi) {
                proof {
                    yields_condition_stops(
                        index.plan,
                        dataflow.phi_candidates@,
                        before,
                        region,
                        c,
                        (i + 1) as nat,
                        n as nat,
                    );
                }
                return Err(e);
            }
        }
        i = i + 1;
    }
    Ok(())
}

/// The incoming comes from one of the branch's arms.
pub open spec fn from_arms(phi: &PhiCandidate, value: &BranchValueMergeValue, j: int) -> bool {
    match phi.incoming@[j].pred {
        Some(b) => value.then_arm.preds@.contains(b) || value.else_arm.preds@.contains(b),
        None => false,
    }
}

pub open spec fn arms_owner(phi: &PhiCandidate, value: &BranchValueMergeValue, region: RegionId) -> spec_fn(int) -> Option<
    PhiIncomingDisposition,
> {
    |j: int|
        if from_arms(phi, value, j) {
            Some(PhiIncomingDisposition::RegionResult(region))
        } else {
            None
        }
}

/// The branch yields what comes from its arms.
pub open spec fn yields_branch(
    plan: &StructurePlan,
    phis: Seq<PhiCandidate>,
    t: Owners,
    region: RegionId,
    value: &BranchValueMergeValue,
) -> Result<
    Owners,
    Fault,
> {
    let p = value.phi_id;
    if p.0 >= phis.len() {
        Err(Fault::OwnerMissingPhi(p))
    } else {
        Ok(t.update(p.0 as int, claimed_row(plan, t[p.0 as int], arms_owner(&phis[p.0 as int], value, region))))
    }
}

/// Lets owners come forward incoming by incoming.
fn claim_each(
    index: &RegionOwnerIndex,
    table: &mut Vec<Vec<Option<PhiIncomingDisposition>>>,
    p: usize,
    owners: &Vec<Option<PhiIncomingDisposition>>,
    Ghost(mine): Ghost<spec_fn(int) -> Option<PhiIncomingDisposition>>,
)
    requires
        index.wf(),
        p < old(table)@.len(),
        owners@.len() == old(table)@[p as int]@.len(),
        forall|j: int| 0 <= j < owners@.len() ==> #[trigger] owners@[j] == mine(j),
    ensures
        owners_of(final(table)@) == owners_of(old(table)@).update(p as int, claimed_row(index.plan, owners_of(old(table)@)[p as int], mine)),
        final(table)@.len() == old(table)@.len(),
{
    let ghost before = owners_of(table@);
    let ghost row = before[p as int];
    let ghost goal = claimed_row(index.plan, row, mine);
    let n = owners.len();
    let mut j: usize = 0;
    while j < n
        invariant
            index.wf(),
            p < table@.len(),
            table@.len() == old(table)@.len(),
            before == owners_of(old(table)@),
            row == before[p as int],
            goal == claimed_row(index.plan, row, mine),
            n == row.len(),
            n == owners@.len(),
            forall|j: int| 0 <= j < owners@.len() ==> #[trigger] owners@[j] == mine(j),
            j <= n,
            owners_of(table@).len() == before.len(),
            owners_of(table@)[p as int].len() == n,
            forall|q: int| 0 <= q < before.len() && q != p ==> #[trigger] owners_of(table@)[q] == before[q],
            forall|k: int| 0 <= k < j ==> #[trigger] owners_of(table@)[p as int][k] == goal[k],
            forall|k: int| j <= k < n ==> #[trigger] owners_of(table@)[p as int][k] == row[k],
        decreases n - j,
    {
        assert(owners@[j as int] == mine(j as int));
        if let Some(owner) = owners[j] {
            claim_slot(index, table, p, j, owner);
        }
        j = j + 1;
    }
    proof {
        assert(owners_of(table@)[p as int] =~= goal);
        assert(owners_of(table@) =~= before.update(p as int, goal));
    }
}

pub fn claim_branch_result(
    index: &RegionOwnerIndex,
    dataflow: &DataflowFacts,
    table: &mut Vec<Vec<Option<PhiIncomingDisposition>>>,
    region: RegionId,
    value: &BranchValueMergeValue,
) -> (r: Result<(), StructureError>)
    requires
        index.wf(),
        slots_fit(dataflow.phi_candidates@, owners_of(old(table)@)),
    ensures
        went(
            r,
            owners_of(final(table)@),
            yields_branch(index.plan, dataflow.phi_candidates@, owners_of(old(table)@), region, value),
        ),
        r is Ok ==> slots_fit(dataflow.phi_candidates@, owners_of(final(table)@)),
{
    let p = value.phi_id;
    if p.0 >= dataflow.phi_candidates.len() {
        return Err(StructureError::invalid(Fault::OwnerMissingPhi(p)));
    }
    let phi = &dataflow.phi_candidates[p.0];
    let ghost mine = arms_owner(phi, value, region);
    let ghost before = owners_of(table@);
    let n = phi.incoming.len();
    let mut owners: Vec<Option<PhiIncomingDisposition>> = Vec::new();
    let mut j: usize = 0;
    while j < n
        invariant
            n == phi.incoming@.len(),
            mine == arms_owner(phi, value, region),
            j <= n,
            owners@.len() == j,
            forall|k: int| 0 <= k < j ==> #[trigger] owners@[k] == mine(k),
        decreases n - j,
    {
        let inside = match phi.incoming[j].pred {
            Some(b) => value.then_arm.preds.contains(b) || value.else_arm.preds.contains(b),
            None => false,
        };
        owners.push(
            if inside {
                Some(PhiIncomingDisposition::RegionResult(region))
            } else {
                None
            },
        );
        j = j + 1;
    }
    assert(before[p.0 as int].len() == phi.incoming@.len());
    claim_each(index, table, p.0, &owners, Ghost(mine));
    proof {
        fits_after(dataflow.phi_candidates@, before, p.0 as int, claimed_row(index.plan, before[p.0 as int], mine));
    }
    Ok(())
}

/// The predecessors of `j` and `k` are the same, but the values are not.
pub open spec fn conflicts_at(phi: &PhiCandidate, j: int, k: int) -> bool {
    0 <= j < phi.incoming@.len() && 0 <= k < phi.incoming@.len() && phi.incoming@[j].pred == phi.incoming@[k].pred
        && phi.incoming@[j].value != phi.incoming@[k].value
}

/// No phi has a predecessor with so large a number.
pub open spec fn beyond_all(phis: Seq<PhiCandidate>, b: BlockRef) -> bool {
    forall|p: int, j: int|
        0 <= p < phis.len() && 0 <= j < phis[p].incoming@.len() && (#[trigger] phis[p].incoming@[j]).pred is Some
            ==> (phis[p].incoming@[j].pred->0).0 < b.0
}

/// The arm's entry is an incoming of the phi.
pub open spec fn is_incoming(phi: &PhiCandidate, x: LoopValueIncoming) -> bool {
    exists|j: int| 0 <= j < phi.incoming@.len() && (#[trigger] phi.incoming@[j]).pred == x.pred && phi.incoming@[j].value == x.value
}

pub open spec fn arm_fault(
    phis: Seq<PhiCandidate>,
    phi: &PhiCandidate,
    arm: Seq<LoopValueIncoming>,
) -> spec_fn(int) -> Option<Fault> {
    |k: int|
        if arm[k].pred is Some && beyond_all(phis, arm[k].pred->0) {
            Some(Fault::LoopArmOutside(phi.id, arm[k].pred->0))
        } else if !is_incoming(phi, arm[k]) {
            Some(Fault::LoopArmForeign(phi.id))
        } else {
            None
        }
}

/// What keeps the arms from being parts of the phi.
pub open spec fn arms_fault(
    phis: Seq<PhiCandidate>,
    phi: &PhiCandidate,
    inside: Seq<LoopValueIncoming>,
    outside: Seq<LoopValueIncoming>,
) -> Option<Fault> {
    if exists|j: int, k: int| #[trigger] conflicts_at(phi, j, k) {
        Some(Fault::PhiPredecessorConflict(phi.id))
    } else {
        match first_some(inside.len(), arm_fault(phis, phi, inside)) {
            Some(f) => Some(f),
            None => first_some(outside.len(), arm_fault(phis, phi, outside)),
        }
    }
}

/// The incoming's predecessor occurs in the arm.
pub open spec fn in_arm(phi: &PhiCandidate, arm: Seq<LoopValueIncoming>, j: int) -> bool {
    exists|k: int| 0 <= k < arm.len() && (#[trigger] arm[k]).pred == phi.incoming@[j].pred
}

pub open spec fn in_both(
    phi: &PhiCandidate,
    inside: Seq<LoopValueIncoming>,
    outside: Seq<LoopValueIncoming>,
) -> spec_fn(int) -> bool {
    |j: int| in_arm(phi, inside, j) && in_arm(phi, outside, j)
}

/// Tells the incomings of a phi apart by the side of a loop's boundary that they come from.
pub struct LoopIncomingClassifier {
    /// One more than the largest number of a predecessor.
    pub arena: usize,
}

/// Some phi has the last possible block as a predecessor.
pub open spec fn predecessor_overflows(phis: Seq<PhiCandidate>) -> bool {
    !beyond_all(phis, BlockRef(usize::MAX))
}

impl LoopIncomingClassifier {
    pub open spec fn describes(&self, phis: Seq<PhiCandidate>) -> bool {
        forall|b: BlockRef| #[trigger] beyond_all(phis, b) <==> b.0 >= self.arena
    }

    pub fn new(dataflow: &DataflowFacts) -> (r: Result<Self, StructureError>)
        ensures
            match r {
                Ok(c) => !predecessor_overflows(dataflow.phi_candidates@) && c.describes(dataflow.phi_candidates@),
                Err(e) => predecessor_overflows(dataflow.phi_candidates@) && e.fault == Fault::PredecessorOverflow,
            },
    {
        let ghost phis = dataflow.phi_candidates@;
        let n = dataflow.phi_candidates.len();
        let mut arena: usize = 0;
        let mut p: usize = 0;
        while p < n
            invariant
                phis == dataflow.phi_candidates@,
                n == phis.len(),
                p <= n,
                forall|q: int, j: int|
                    0 <= q < p && 0 <= j < phis[q].incoming@.len() && (#[trigger] phis[q].incoming@[j]).pred is Some ==> (
                    phis[q].incoming@[j].pred->0).0 < arena,
                arena > 0 ==> exists|q: int, j: int|
                    0 <= q < phis.len() && 0 <= j < phis[q].incoming@.len() && (#[trigger] phis[q].incoming@[j]).pred == Some(
                        BlockRef((arena - 1) as usize),
                    ),
            decreases n - p,
        {
            let m = dataflow.phi_candidates[p].incoming.len();
            let mut k: usize = 0;
            while k < m
                invariant
                    phis == dataflow.phi_candidates@,
                    p < phis.len(),
                    m == phis[p as int].incoming@.len(),
                    k <= m,
                    forall|q: int, j: int|
                        0 <= q < p && 0 <= j < phis[q].incoming@.len() && (#[trigger] phis[q].incoming@[j]).pred is Some ==> (
                        phis[q].incoming@[j].pred->0).0 < arena,
                    forall|j: int|
                        0 <= j < k && (#[trigger] phis[p as int].incoming@[j]).pred is Some ==> (phis[p as int].incoming@[j].pred->0).0
                            < arena,
                    arena > 0 ==> exists|q: int, j: int|
                        0 <= q < phis.len() && 0 <= j < phis[q].incoming@.len() && (#[trigger] phis[q].incoming@[j]).pred == Some(
                            BlockRef((arena - 1) as usize),
                        ),
                decreases m - k,
            {
                if let Some(b) = dataflow.phi_candidates[p].incoming[k].pred {
                    assert(phis[p as int].incoming@[k as int].pred == Some(b));
                    if b.0 == usize::MAX {
                        assert(!beyond_all(phis, BlockRef(usize::MAX)));
                        return Err(StructureError::invalid(Fault::PredecessorOverflow));
                    }
                    if b.0 >= arena {
                        arena = b.0 + 1;
                        assert(phis[p as int].incoming@[k as int].pred == Some(BlockRef((arena - 1) as usize)));
                    }
                }
                k = k + 1;
            }
            p = p + 1;
        }
        proof {
            assert forall|b: BlockRef| #[trigger] beyond_all(phis, b) <==> b.0 >= arena by {
                if beyond_all(phis, b) && arena > 0 {
                    let (q, j) = choose|q: int, j: int|
                        0 <= q < phis.len() && 0 <= j < phis[q].incoming@.len() && (#[trigger] phis[q].incoming@[j]).pred == Some(
                            BlockRef((arena - 1) as usize),
                        );
                    assert((phis[q].incoming@[j].pred->0).0 < b.0);
                }
            }
        }
        Ok(LoopIncomingClassifier { arena })
    }

    fn check_conflict(phi: &PhiCandidate) -> (r: bool)
        ensures
            r == exists|j: int, k: int| #[trigger] conflicts_at(phi, j, k),
    {
        let n = phi.incoming.len();
        let mut j: usize = 0;
        while j < n
            invariant
                n == phi.incoming@.len(),
                j <= n,
                forall|a: int, b: int| a < j ==> !#[trigger] conflicts_at(phi, a, b),
            decreases n - j,
        {
            let mut k: usize = 0;
            while k < n
                invariant
                    n == phi.incoming@.len(),
                    j < n,
                    k <= n,
                    forall|b: int| b < k ==> !#[trigger] conflicts_at(phi, j as int, b),
                decreases n - k,
            {
                let x = phi.incoming[j];
                let y = phi.incoming[k];
                if same_pred(x.pred, y.pred) && x.value != y.value {
                    assert(conflicts_at(phi, j as int, k as int));
                    return true;
                }
                k = k + 1;
            }
            j = j + 1;
        }
        false
    }

    fn find_arm_fault(
        &self,
        Ghost(phis): Ghost<Seq<PhiCandidate>>,
        phi: &PhiCandidate,
        arm: &LoopValueArm,
    ) -> (r: Option<Fault>)
        requires
            self.describes(phis),
        ensures
            r == first_some(arm.incomings@.len(), arm_fault(phis, phi, arm.incomings@)),
    {
        let n = arm.incomings.len();
        let ghost f = arm_fault(phis, phi, arm.incomings@);
        let mut k: usize = 0;
        while k < n
            invariant
                self.describes(phis),
                n == arm.incomings@.len(),
                f == arm_fault(phis, phi, arm.incomings@),
                k <= n,
                first_some(k as nat, f) is None,
            decreases n - k,
        {
            let x = arm.incomings[k];
            let outside = match x.pred {
                Some(b) => b.0 >= self.arena,
                None => false,
            };
            assert(x.pred is Some ==> (outside == beyond_all(phis, x.pred->0)));
            let fault = if outside {
                Some(Fault::LoopArmOutside(phi.id, x.pred.unwrap()))
            } else if !check_incoming(phi, x) {
                Some(Fault::LoopArmForeign(phi.id))
            } else {
                None
            };
            assert(fault == f(k as int));
            if fault.is_some() {
                proof {
                    first_some_stable((k + 1) as nat, n as nat, f);
                }
                return fault;
            }
            k = k + 1;
        }
        None
    }

    /// For each incoming, whether it comes from inside and whether it comes from outside.
    fn classify(
        &self,
        Ghost(phis): Ghost<Seq<PhiCandidate>>,
        phi: &PhiCandidate,
        inside: &LoopValueArm,
        outside: &LoopValueArm,
    ) -> (r: Result<
        Vec<(bool, bool)>,
        StructureError,
    >)
        requires
            self.describes(phis),
        ensures
            match r {
                Ok(list) => arms_fault(phis, phi, inside.incomings@, outside.incomings@) is None && list@.len() == phi.incoming@.len()
                    && forall|j: int|
                    0 <= j < list@.len() ==> #[trigger] list@[j] == (
                        in_arm(phi, inside.incomings@, j),
                        in_arm(phi, outside.incomings@, j),
                    ),
                Err(e) => arms_fault(phis, phi, inside.incomings@, outside.incomings@) == Some(e.fault),
            },
    {
        if Self::check_conflict(phi) {
            return Err(StructureError::invalid(Fault::PhiPredecessorConflict(phi.id)));
        }
        if let Some(f) = self.find_arm_fault(Ghost(phis), phi, inside) {
            return Err(StructureError::invalid(f));
        }
        if let Some(f) = self.find_arm_fault(Ghost(phis), phi, outside) {
            return Err(StructureError::invalid(f));
        }
        let n = phi.incoming.len();
        let mut list: Vec<(bool, bool)> = Vec::new();
        let mut j: usize = 0;
        while j < n
            invariant
                n == phi.incoming@.len(),
                j <= n,
                list@.len() == j,
                forall|k: int|
                    0 <= k < j ==> #[trigger] list@[k] == (
                        in_arm(phi, inside.incomings@, k),
                        in_arm(phi, outside.incomings@, k),
                    ),
            decreases n - j,
        {
            let a = check_in_arm(phi, inside, j);
            let b = check_in_arm(phi, outside, j);
            list.push((a, b));
            j = j + 1;
        }
        Ok(list)
    }
}

fn same_pred(a: Option<BlockRef>, b: Option<BlockRef>) -> (r: bool)
    ensures
        r == (a == b),
{
    match (a, b) {
        (Some(x), Some(y)) => x == y,
        (None, None) => true,
        _ => false,
    }
}

fn check_incoming(phi: &PhiCandidate, x: LoopValueIncoming) -> (r: bool)
    ensures
        r == is_incoming(phi, x),
{
    let n = phi.incoming.len();
    let mut j: usize = 0;
    while j < n
        invariant
            n == phi.incoming@.len(),
            j <= n,
            forall|k: int| 0 <= k < j ==> !((#[trigger] phi.incoming@[k]).pred == x.pred && phi.incoming@[k].value == x.value),
        decreases n - j,
    {
        if same_pred(phi.incoming[j].pred, x.pred) && phi.incoming[j].value == x.value {
            assert(phi.incoming@[j as int].pred == x.pred);
            return true;
        }
        j = j + 1;
    }
    false
}

fn check_in_arm(phi: &PhiCandidate, arm: &LoopValueArm, j: usize) -> (r: bool)
    requires
        j < phi.incoming@.len(),
    ensures
        r == in_arm(phi, arm.incomings@, j as int),
{
    let n = arm.incomings.len();
    let mut k: usize = 0;
    while k < n
        invariant
            n == arm.incomings@.len(),
            j < phi.incoming@.len(),
            k <= n,
            forall|q: int| 0 <= q < k ==> (#[trigger] arm.incomings@[q]).pred != phi.incoming@[j as int].pred,
        decreases n - k,
    {
        if same_pred(arm.incomings[k].pred, phi.incoming[j].pred) {
            assert(arm.incomings@[k as int].pred == phi.incoming@[j as int].pred);
            return true;
        }
        k = k + 1;
    }
    false
}

pub open spec fn header_owner(
    phi: &PhiCandidate,
    value: &LoopValueMerge,
    region: RegionId,
) -> spec_fn(int) -> Option<PhiIncomingDisposition> {
    |j: int|
        if in_arm(phi, value.inside_arm.incomings@, j) {
            Some(PhiIncomingDisposition::LoopCarried(region))
        } else if in_arm(phi, value.outside_arm.incomings@, j) {
            Some(PhiIncomingDisposition::RegionInput(region))
        } else {
            None
        }
}

pub open spec fn result_owner(
    phi: &PhiCandidate,
    value: &LoopValueMerge,
    region: RegionId,
) -> spec_fn(int) -> Option<PhiIncomingDisposition> {
    |j: int|
        if in_arm(phi, value.inside_arm.incomings@, j) {
            Some(PhiIncomingDisposition::RegionResult(region))
        } else {
            None
        }
}

/// The loop carries a phi at its head, or yields one behind it.
pub open spec fn claims_loop_value(
    plan: &StructurePlan,
    phis: Seq<PhiCandidate>,
    t: Owners,
    region: RegionId,
    value: &LoopValueMerge,
    at_head: bool,
) -> Result<Owners, Fault> {
    let p = value.phi_id;
    if p.0 >= phis.len() {
        Err(Fault::OwnerMissingPhi(p))
    } else {
        let phi = &phis[p.0 as int];
        let inside = value.inside_arm.incomings@;
        let outside = value.outside_arm.incomings@;
        match arms_fault(phis, phi, inside, outside) {
            Some(f) => Err(f),
            None => match first_where(phi.incoming@.len(), in_both(phi, inside, outside)) {
                Some(j) => Err(
                    if at_head {
                        Fault::LoopArmsOverlap(phi.id, j as usize)
                    } else {
                        Fault::LoopResultArmsOverlap(phi.id, j as usize)
                    },
                ),
                None => Ok(
                    t.update(
                        p.0 as int,
                        claimed_row(
                            plan,
                            t[p.0 as int],
                            if at_head {
                                header_owner(phi, value, region)
                            } else {
                                result_owner(phi, value, region)
                            },
                        ),
                    ),
                ),
            },
        }
    }
}

fn claim_loop_value(
    index: &RegionOwnerIndex,
    classifier: &LoopIncomingClassifier,
    dataflow: &DataflowFacts,
    table: &mut Vec<Vec<Option<PhiIncomingDisposition>>>,
    region: RegionId,
    value: &LoopValueMerge,
    at_head: bool,
) -> (r: Result<(), StructureError>)
    requires
        index.wf(),
        classifier.describes(dataflow.phi_candidates@),
        slots_fit(dataflow.phi_candidates@, owners_of(old(table)@)),
    ensures
        went(
            r,
            owners_of(final(table)@),
            claims_loop_value(index.plan, dataflow.phi_candidates@, owners_of(old(table)@), region, value, at_head),
        ),
        r is Ok ==> slots_fit(dataflow.phi_candidates@, owners_of(final(table)@)),
{
    let p = value.phi_id;
    if p.0 >= dataflow.phi_candidates.len() {
        return Err(StructureError::invalid(Fault::OwnerMissingPhi(p)));
    }
    let ghost phis = dataflow.phi_candidates@;
    let phi = &dataflow.phi_candidates[p.0];
    let classes = match classifier.classify(Ghost(phis), phi, &value.inside_arm, &value.outside_arm) {
        Ok(c) => c,
        Err(e) => {
            return Err(e);
        },
    };
    let ghost both = in_both(phi, value.inside_arm.incomings@, value.outside_arm.incomings@);
    let ghost mine = if at_head {
        header_owner(phi, value, region)
    } else {
        result_owner(phi, value, region)
    };
    let ghost before = owners_of(table@);
    let n = classes.len();
    let mut owners: Vec<Option<PhiIncomingDisposition>> = Vec::new();
    let mut j: usize = 0;
    while j < n
        invariant
            p.0 < dataflow.phi_candidates@.len(),
            p == value.phi_id,
            phis == dataflow.phi_candidates@,
            *phi == phis[p.0 as int],
            arms_fault(phis, phi, value.inside_arm.incomings@, value.outside_arm.incomings@) is None,
            n == phi.incoming@.len(),
            n == classes@.len(),
            forall|k: int|
                0 <= k < n ==> #[trigger] classes@[k] == (
                    in_arm(phi, value.inside_arm.incomings@, k),
                    in_arm(phi, value.outside_arm.incomings@, k),
                ),
            both == in_both(phi, value.inside_arm.incomings@, value.outside_arm.incomings@),
            mine == (if at_head {
                header_owner(phi, value, region)
            } else {
                result_owner(phi, value, region)
            }),
            j <= n,
            first_where(j as nat, both) is None,
            owners@.len() == j,
            forall|k: int| 0 <= k < j ==> #[trigger] owners@[k] == mine(k),
        decreases n - j,
    {
        let (a, b) = classes[j];
        assert(classes@[j as int] == (a, b));
        assert(both(j as int) == (a && b));
        if a && b {
            proof {
                first_where_stable((j + 1) as nat, n as nat, both);
            }
            return Err(
                StructureError::invalid(
                    if at_head {
                        Fault::LoopArmsOverlap(phi.id, j)
                    } else {
                        Fault::LoopResultArmsOverlap(phi.id, j)
                    },
                ),
            );
        }
        let owner = if a {
            if at_head {
                Some(PhiIncomingDisposition::LoopCarried(region))
            } else {
                Some(PhiIncomingDisposition::RegionResult(region))
            }
        } else if b && at_head {
            Some(PhiIncomingDisposition::RegionInput(region))
        } else {
            None
        };
        owners.push(owner);
        j = j + 1;
    }
    assert(before[p.0 as int].len() == phi.incoming@.len());
    claim_each(index, table, p.0, &owners, Ghost(mine));
    proof {
        fits_after(phis, before, p.0 as int, claimed_row(index.plan, before[p.0 as int], mine));
    }
    Ok(())
}

pub fn claim_loop_header_value(
    index: &RegionOwnerIndex,
    classifier: &LoopIncomingClassifier,
    dataflow: &DataflowFacts,
    table: &mut Vec<Vec<Option<PhiIncomingDisposition>>>,
    region: RegionId,
    value: &LoopValueMerge,
) -> (r: Result<(), StructureError>)
    requires
        index.wf(),
        classifier.describes(dataflow.phi_candidates@),
        slots_fit(dataflow.phi_candidates@, owners_of(old(table)@)),
    ensures
        went(
            r,
            owners_of(final(table)@),
            claims_loop_value(index.plan, dataflow.phi_candidates@, owners_of(old(table)@), region, value, true),
        ),
        r is Ok ==> slots_fit(dataflow.phi_candidates@, owners_of(final(table)@)),
{
    claim_loop_value(index, classifier, dataflow, table, region, value, true)
}

pub fn claim_loop_result(
    index: &RegionOwnerIndex,
    classifier: &LoopIncomingClassifier,
    dataflow: &DataflowFacts,
    table: &mut Vec<Vec<Option<PhiIncomingDisposition>>>,
    region: RegionId,
    value: &LoopValueMerge,
) -> (r: Result<(), StructureError>)
    requires
        index.wf(),
        classifier.describes(dataflow.phi_candidates@),
        slots_fit(dataflow.phi_candidates@, owners_of(old(table)@)),
    ensures
        went(
            r,
            owners_of(final(table)@),
            claims_loop_value(index.plan, dataflow.phi_candidates@, owners_of(old(table)@), region, value, false),
        ),
        r is Ok ==> slots_fit(dataflow.phi_candidates@, owners_of(final(table)@)),
{
    claim_loop_value(index, classifier, dataflow, table, region, value, false)
}

} // verus!
