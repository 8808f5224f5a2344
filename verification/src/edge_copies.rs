//! The copies that edges make for phis.

use vstd::prelude::*;

use crate::copy_targets::{all_targets, copy_target, CanonicalEdgeCopyTargets, Targets};
use crate::dataflow::{DataflowFacts, PhiCandidate, PhiId, PhiIncoming};
use crate::error::{Fault, StructureError};
use crate::evidence::PhiEdgeCopy;
use crate::ids::EdgeRef;
use crate::plan::PhiIncomingDisposition;
use crate::search::{first_some, first_some_stable, first_where, first_where_stable};
use crate::structure_plan::{entry_at, StructurePlan};

verus! {

/// The incoming needs a copy on its edge: it is neither dead nor unresolved, and no expression
/// yields it.
pub open spec fn needs_copy(plan: &StructurePlan, phi: PhiId, d: PhiIncomingDisposition) -> bool {
    !(d is Dead) && !(d is DiagnosticUnresolved) && !(d is RegionResult && (entry_at(plan.condition_value_by_phi@, phi.0) is Some
        || entry_at(plan.value_decision_by_phi@, phi.0) is Some))
}

pub fn incoming_requires_edge_copy(plan: &StructurePlan, phi: PhiId, disposition: PhiIncomingDisposition) -> (r: bool)
    ensures
        r == needs_copy(plan, phi, disposition),
{
    match disposition {
        PhiIncomingDisposition::Dead => false,
        PhiIncomingDisposition::DiagnosticUnresolved => false,
        PhiIncomingDisposition::RegionResult(_) => plan.condition_value_owner(phi).is_none() && plan.value_decision_owner(phi).is_none(),
        _ => true,
    }
}

/// For every phi, who takes care of each of its incomings.
pub type Dispositions = Seq<Seq<PhiIncomingDisposition>>;

pub open spec fn dispositions_of(table: Seq<Vec<PhiIncomingDisposition>>) -> Dispositions {
    Seq::new(table.len(), |p: int| table[p]@)
}

pub open spec fn dispositions_fit(phis: Seq<PhiCandidate>, t: Dispositions) -> bool {
    t.len() == phis.len() && forall|p: int| 0 <= p < t.len() ==> (#[trigger] t[p]).len() == phis[p].incoming@.len()
}

/// The number of incomings of a phi for which an owner is stated.
pub open spec fn stated_count(phi: &PhiCandidate, row: Seq<PhiIncomingDisposition>) -> nat {
    if row.len() < phi.incoming@.len() {
        row.len()
    } else {
        phi.incoming@.len()
    }
}

/// The copies of every edge so far, and for every phi the edge that wrote it last.
pub struct CopyState {
    pub actions: Seq<Seq<PhiEdgeCopy>>,
    pub last: Seq<Option<usize>>,
}

/// The copy for one incoming, noted.
pub open spec fn noted_copy(
    plan: &StructurePlan,
    targets: Targets,
    phi: PhiId,
    x: PhiIncoming,
    d: PhiIncomingDisposition,
    s: CopyState,
) -> Result<
    CopyState,
    Fault,
> {
    match x.edge {
        Some(e) => if !needs_copy(plan, phi, d) {
            Ok(s)
        } else {
            let t = copy_target(plan, targets, phi, x, d);
            if e.0 >= s.actions.len() {
                Err(Fault::IncomingMissingEdge(phi, e))
            } else if t.0 >= s.last.len() {
                Err(Fault::CopyTargetMissing(e, t))
            } else if s.last[t.0 as int] == Some(e.0) {
                Err(Fault::CopyTargetTwice(e, t))
            } else {
                Ok(
                    CopyState {
                        actions: s.actions.update(e.0 as int, s.actions[e.0 as int].push(PhiEdgeCopy { phi_id: t, value: x.value })),
                        last: s.last.update(t.0 as int, Some(e.0)),
                    },
                )
            }
        },
        None => Ok(s),
    }
}

pub open spec fn copies_in(
    plan: &StructurePlan,
    targets: Targets,
    phi: &PhiCandidate,
    row: Seq<PhiIncomingDisposition>,
    s: CopyState,
    n: nat,
) -> Result<CopyState, Fault>
    decreases n,
{
    if n == 0 {
        Ok(s)
    } else {
        match copies_in(plan, targets, phi, row, s, (n - 1) as nat) {
            Ok(now) => noted_copy(plan, targets, phi.id, phi.incoming@[n - 1], row[n - 1], now),
            Err(f) => Err(f),
        }
    }
}

/// The copies for the first `n` phis.
pub open spec fn copies_upto(
    plan: &StructurePlan,
    targets: Targets,
    phis: Seq<PhiCandidate>,
    t: Dispositions,
    s: CopyState,
    n: nat,
) -> Result<
    CopyState,
    Fault,
>
    decreases n,
{
    if n == 0 {
        Ok(s)
    } else {
        match copies_upto(plan, targets, phis, t, s, (n - 1) as nat) {
            Ok(now) => {
                let phi = &phis[n - 1];
                if phi.id.0 >= t.len() {
                    Err(Fault::OwnerPlanMissing(phi.id))
                } else {
                    let row = t[phi.id.0 as int];
                    copies_in(plan, targets, phi, row, now, stated_count(phi, row))
                }
            },
            Err(f) => Err(f),
        }
    }
}

pub open spec fn no_copies(edges: nat, phis: nat) -> CopyState {
    CopyState {
        actions: Seq::new(edges, |e: int| Seq::<PhiEdgeCopy>::empty()),
        last: Seq::new(phis, |p: int| None::<usize>),
    }
}

/// The copies of every edge.
pub open spec fn all_copies(
    plan: &StructurePlan,
    phis: Seq<PhiCandidate>,
    t: Dispositions,
    edges: nat,
) -> Result<Seq<Seq<PhiEdgeCopy>>, Fault> {
    match all_targets(plan, phis.len()) {
        Ok(targets) => match copies_upto(plan, targets, phis, t, no_copies(edges, phis.len()), phis.len()) {
            Ok(s) => Ok(s.actions),
            Err(f) => Err(f),
        },
        Err(f) => Err(f),
    }
}

proof fn copies_in_stop(
    plan: &StructurePlan,
    targets: Targets,
    phi: &PhiCandidate,
    row: Seq<PhiIncomingDisposition>,
    s: CopyState,
    m: nat,
    n: nat,
)
    requires
        m <= n,
        copies_in(plan, targets, phi, row, s, m) is Err,
    ensures
        copies_in(plan, targets, phi, row, s, n) == copies_in(plan, targets, phi, row, s, m),
    decreases n,
{
    if m < n {
        copies_in_stop(plan, targets, phi, row, s, m, (n - 1) as nat);
    }
}

proof fn copies_upto_stop(
    plan: &StructurePlan,
    targets: Targets,
    phis: Seq<PhiCandidate>,
    t: Dispositions,
    s: CopyState,
    m: nat,
    n: nat,
)
    requires
        m <= n,
        copies_upto(plan, targets, phis, t, s, m) is Err,
    ensures
        copies_upto(plan, targets, phis, t, s, n) == copies_upto(plan, targets, phis, t, s, m),
    decreases n,
{
    if m < n {
        copies_upto_stop(plan, targets, phis, t, s, m, (n - 1) as nat);
    }
}

pub open spec fn copy_rows(list: Seq<Vec<PhiEdgeCopy>>) -> Seq<Seq<PhiEdgeCopy>> {
    Seq::new(list.len(), |e: int| list[e]@)
}

/// The copies as they are collected.
struct Copies {
    actions: Vec<Vec<PhiEdgeCopy>>,
    last: Vec<Option<usize>>,
}

impl Copies {
    spec fn state(&self) -> CopyState {
        CopyState { actions: copy_rows(self.actions@), last: self.last@ }
    }

    fn note(
        &mut self,
        plan: &StructurePlan,
        targets: &CanonicalEdgeCopyTargets,
        phi: PhiId,
        x: PhiIncoming,
        d: PhiIncomingDisposition,
    ) -> (r: Result<(), StructureError>)
        ensures
            match r {
                Ok(_) => noted_copy(plan, targets.by_phi@, phi, x, d, old(self).state()) == Ok::<CopyState, Fault>(final(self).state()),
                Err(e) => noted_copy(plan, targets.by_phi@, phi, x, d, old(self).state()) == Err::<CopyState, Fault>(e.fault),
            },
    {
        let ghost before = self.state();
        if let Some(e) = x.edge {
            if incoming_requires_edge_copy(plan, phi, d) {
                let t = targets.for_incoming(plan, phi, x, d);
                assert(before.actions.len() == self.actions@.len());
                if e.0 >= self.actions.len() {
                    return Err(StructureError::invalid(Fault::IncomingMissingEdge(phi, e)));
                }
                if t.0 >= self.last.len() {
                    return Err(StructureError::invalid(Fault::CopyTargetMissing(e, t)));
                }
                let again = match self.last[t.0] {
                    Some(x) => x == e.0,
                    None => false,
                };
                if again {
                    return Err(StructureError::invalid(Fault::CopyTargetTwice(e, t)));
                }
                self.last[t.0] = Some(e.0);
                self.actions[e.0].push(PhiEdgeCopy { phi_id: t, value: x.value });
                proof {
                    let row = before.actions[e.0 as int].push(PhiEdgeCopy { phi_id: t, value: x.value });
                    assert(copy_rows(self.actions@) =~= before.actions.update(e.0 as int, row));
                }
            }
        }
        Ok(())
    }
}

/// Lists the copies of every edge.
pub fn collect_dense_edge_actions(
    dataflow: &DataflowFacts,
    plan: &StructurePlan,
    edge_count: usize,
    dispositions: &Vec<Vec<PhiIncomingDisposition>>,
) -> (r: Result<Vec<Vec<PhiEdgeCopy>>, StructureError>)
    ensures
        match r {
            Ok(list) => all_copies(plan, dataflow.phi_candidates@, dispositions_of(dispositions@), edge_count as nat) == Ok::<
                Seq<Seq<PhiEdgeCopy>>,
                Fault,
            >(copy_rows(list@)),
            Err(e) => all_copies(plan, dataflow.phi_candidates@, dispositions_of(dispositions@), edge_count as nat) == Err::<
                Seq<Seq<PhiEdgeCopy>>,
                Fault,
            >(e.fault),
        },
{
    let ghost phis = dataflow.phi_candidates@;
    let ghost t = dispositions_of(dispositions@);
    let n = dataflow.phi_candidates.len();
    let targets = match CanonicalEdgeCopyTargets::build(plan, n) {
        Ok(t) => t,
        Err(e) => {
            return Err(e);
        },
    };
    let mut copies = Copies { actions: empty_copies(edge_count), last: vec![None; n] };
    let ghost start = no_copies(edge_count as nat, n as nat);
    proof {
        assert(copies.last@ =~= start.last);
        assert(copy_rows(copies.actions@) =~= start.actions);
    }
    let mut p: usize = 0;
    while p < n
        invariant
            phis == dataflow.phi_candidates@,
            t == dispositions_of(dispositions@),
            n == phis.len(),
            all_targets(plan, phis.len()) == Ok::<Targets, Fault>(targets.by_phi@),
            start == no_copies(edge_count as nat, n as nat),
            p <= n,
            copies_upto(plan, targets.by_phi@, phis, t, start, p as nat) == Ok::<CopyState, Fault>(copies.state()),
        decreases n - p,
    {
        let ghost now = copies.state();
        let phi = &dataflow.phi_candidates[p];
        let at = phi.id.0;
        if at >= dispositions.len() {
            proof {
                copies_upto_stop(plan, targets.by_phi@, phis, t, start, (p + 1) as nat, n as nat);
            }
            return Err(StructureError::invalid(Fault::OwnerPlanMissing(phi.id)));
        }
        let row = &dispositions[at];
        assert(t[at as int] == row@);
        let m = if row.len() < phi.incoming.len() {
            row.len()
        } else {
            phi.incoming.len()
        };
        let mut j: usize = 0;
        while j < m
            invariant
                phis == dataflow.phi_candidates@,
                t == dispositions_of(dispositions@),
                n == phis.len(),
                p < n,
                *phi == phis[p as int],
                at == phi.id.0,
                t[at as int] == row@,
                all_targets(plan, phis.len()) == Ok::<Targets, Fault>(targets.by_phi@),
                start == no_copies(edge_count as nat, n as nat),
                copies_upto(plan, targets.by_phi@, phis, t, start, p as nat) == Ok::<CopyState, Fault>(now),
                at < dispositions@.len(),
                m == stated_count(phi, row@),
                j <= m,
                copies_in(plan, targets.by_phi@, phi, row@, now, j as nat) == Ok::<CopyState, Fault>(copies.state()),
            decreases m - j,
        {
            if let Err(e) = copies.note(plan, &targets, phi.id, phi.incoming[j], row[j]) {
                proof {
                    copies_in_stop(plan, targets.by_phi@, phi, row@, now, (j + 1) as nat, m as nat);
                    assert(copies_upto(plan, targets.by_phi@, phis, t, start, (p + 1) as nat) is Err);
                    copies_upto_stop(plan, targets.by_phi@, phis, t, start, (p + 1) as nat, n as nat);
                }
                return Err(e);
            }
            j = j + 1;
        }
        p = p + 1;
    }
    Ok(copies.actions)
}

fn empty_copies(n: usize) -> (r: Vec<Vec<PhiEdgeCopy>>)
    ensures
        r@.len() == n,
        forall|e: int| 0 <= e < n ==> (#[trigger] r@[e])@ == Seq::<PhiEdgeCopy>::empty(),
{
    let mut r: Vec<Vec<PhiEdgeCopy>> = Vec::new();
    let mut e: usize = 0;
    while e < n
        invariant
            e <= n,
            r@.len() == e,
            forall|k: int| 0 <= k < e ==> (#[trigger] r@[k])@ == Seq::<PhiEdgeCopy>::empty(),
        decreases n - e,
    {
        r.push(Vec::new());
        e = e + 1;
    }
    r
}

pub open spec fn ranked(order: Seq<usize>, rank: int) -> spec_fn(int) -> bool {
    |e: int| order[e] as int == rank
}

/// The rank of edge `e` lies outside, or another edge before it has the same.
pub open spec fn order_fault(order: Seq<usize>, n: nat) -> spec_fn(int) -> Option<Fault> {
    |e: int|
        if order[e] == usize::MAX {
            None
        } else if order[e] >= n {
            Some(Fault::ForwardOrderOutside)
        } else if first_where(e as nat, ranked(order, order[e] as int)) is Some {
            Some(Fault::ForwardOrderTwice)
        } else {
            None
        }
}

/// The first edge with copies on the way of an edge, from what is known of the edge behind it.
pub open spec fn head_of(plan: &StructurePlan, heads: Seq<Option<EdgeRef>>, e: int) -> Option<EdgeRef> {
    if plan.edge_plans@[e].phi_copies@.len() > 0 {
        Some(EdgeRef(e as usize))
    } else {
        match plan.forward_next@[e] {
            Some(next) => heads[next.0 as int],
            None => None,
        }
    }
}

/// The heads after the edges of the first `k` ranks.
pub open spec fn heads_upto(plan: &StructurePlan, k: nat) -> Seq<Option<EdgeRef>>
    decreases k,
{
    if k == 0 {
        Seq::new(plan.edge_plans@.len(), |e: int| None::<EdgeRef>)
    } else {
        let rest = heads_upto(plan, (k - 1) as nat);
        match first_where(plan.forward_preorder@.len(), ranked(plan.forward_preorder@, k - 1)) {
            Some(e) => rest.update(e, head_of(plan, rest, e)),
            None => rest,
        }
    }
}

/// The tables of ways cover the edges.
pub open spec fn forward_sized(plan: &StructurePlan) -> bool {
    &&& plan.forward_preorder@.len() == plan.edge_plans@.len()
    &&& plan.forward_next@.len() == plan.edge_plans@.len()
    &&& forall|e: int|
        0 <= e < plan.forward_next@.len() && (#[trigger] plan.forward_next@[e]) is Some ==> (plan.forward_next@[e]->0).0
            < plan.edge_plans@.len()
}

pub open spec fn action_heads(plan: &StructurePlan) -> Result<Seq<Option<EdgeRef>>, Fault> {
    let n = plan.edge_plans@.len();
    match first_some(plan.forward_preorder@.len(), order_fault(plan.forward_preorder@, n)) {
        Some(f) => Err(f),
        None => Ok(heads_upto(plan, n)),
    }
}

fn find_ranked(order: &Vec<usize>, rank: usize, n: usize) -> (r: Option<usize>)
    requires
        n <= order@.len(),
    ensures
        match first_where(n as nat, ranked(order@, rank as int)) {
            Some(e) => r is Some && (r->0) as int == e && r->0 < n,
            None => r is None,
        },
{
    let ghost p = ranked(order@, rank as int);
    let mut e: usize = 0;
    while e < n
        invariant
            n <= order@.len(),
            p == ranked(order@, rank as int),
            e <= n,
            first_where(e as nat, p) is None,
        decreases n - e,
    {
        assert(p(e as int) == (order@[e as int] == rank));
        if order[e] == rank {
            proof {
                first_where_stable((e + 1) as nat, n as nat, p);
            }
            return Some(e);
        }
        e = e + 1;
    }
    None
}

/// The first edge with copies on the way of every edge.
pub fn build_forwarded_action_heads(plan: &StructurePlan) -> (r: Result<Vec<Option<EdgeRef>>, StructureError>)
    requires
        forward_sized(plan),
    ensures
        match r {
            Ok(h) => action_heads(plan) == Ok::<Seq<Option<EdgeRef>>, Fault>(h@),
            Err(e) => action_heads(plan) == Err::<Seq<Option<EdgeRef>>, Fault>(e.fault),
        },
{
    let n = plan.edge_plans.len();
    let ghost order = plan.forward_preorder@;
    let ghost f = order_fault(order, n as nat);
    let mut e: usize = 0;
    while e < n
        invariant
            n == plan.edge_plans@.len(),
            forward_sized(plan),
            order == plan.forward_preorder@,
            f == order_fault(order, n as nat),
            e <= n,
            first_some(e as nat, f) is None,
        decreases n - e,
    {
        let rank = plan.forward_preorder[e];
        let fault = if rank == usize::MAX {
            None
        } else if rank >= n {
            Some(Fault::ForwardOrderOutside)
        } else if find_ranked(&plan.forward_preorder, rank, e).is_some() {
            Some(Fault::ForwardOrderTwice)
        } else {
            None
        };
        assert(fault == f(e as int));
        if fault.is_some() {
            proof {
                first_some_stable((e + 1) as nat, n as nat, f);
            }
            return Err(StructureError::invalid(fault.unwrap()));
        }
        e = e + 1;
    }
    let mut heads: Vec<Option<EdgeRef>> = vec![None; n];
    assert(heads@ =~= heads_upto(plan, 0));
    let mut k: usize = 0;
    while k < n
        invariant
            n == plan.edge_plans@.len(),
            forward_sized(plan),
            first_some(plan.forward_preorder@.len(), order_fault(plan.forward_preorder@, n as nat)) is None,
            k <= n,
            heads@.len() == n,
            heads@ == heads_upto(plan, k as nat),
        decreases n - k,
    {
        if let Some(e) = find_ranked(&plan.forward_preorder, k, n) {
            let head = if plan.edge_plans[e].phi_copies.len() > 0 {
                Some(EdgeRef(e))
            } else {
                match plan.forward_next[e] {
                    Some(next) => heads[next.0],
                    None => None,
                }
            };
            heads[e] = head;
        }
        k = k + 1;
    }
    Ok(heads)
}

} // verus!
