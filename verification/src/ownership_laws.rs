//! What a plan promises once its check has passed, and that a completed plan keeps its own
//! tables straight.

use vstd::prelude::*;

use crate::cfg::Cfg;
use crate::claims::phis_dense;
use crate::copy_targets::{all_targets, copy_target, targets_upto, Targets};
use crate::dataflow::{is_needed, DataflowFacts, PhiCandidate};
use crate::dispositions::misplaced;
use crate::edge_copies::{copies_in, copies_upto, dispositions_fit, needs_copy, no_copies, CopyState, Dispositions};
use crate::error::Fault;
use crate::evidence::PhiEdgeCopy;
use crate::finalize::{finalization, finalized, same_edge_plan, FinalModel};
use crate::graph::GraphFacts;
use crate::ids::EdgeRef;
use crate::install::is_plan_of;
use crate::ownership::{
    copies_for, copies_stale, disposition_problem, edge_copies_for, incoming_problem, is_cut_off, is_loop_region,
    ownership_fault, phi_problem, says_unresolved, stated, table_fault,
};
use crate::plan::PhiIncomingDisposition;
use crate::search::{first_some_empty, first_where_least};
use crate::structure_plan::StructurePlan;

verus! {

/// The copy that incoming `j` of phi `p` asks for.
pub open spec fn copy_of(
    plan: &StructurePlan,
    targets: Targets,
    phis: Seq<PhiCandidate>,
    t: Dispositions,
    p: int,
    j: int,
) -> PhiEdgeCopy {
    PhiEdgeCopy { phi_id: copy_target(plan, targets, phis[p].id, phis[p].incoming@[j], t[p][j]), value: phis[p].incoming@[j].value }
}

/// Incoming `j` of phi `p` is copied on edge `e`.
pub open spec fn copied_on(
    plan: &StructurePlan,
    phis: Seq<PhiCandidate>,
    t: Dispositions,
    p: int,
    j: int,
    e: EdgeRef,
) -> bool {
    &&& 0 <= p < phis.len()
    &&& 0 <= j < phis[p].incoming@.len()
    &&& phis[p].incoming@[j].edge == Some(e)
    &&& needs_copy(plan, phis[p].id, t[p][j])
}

/// Among the copies of a phi are what was there before, and what its incomings ask for.
proof fn copies_for_are(
    plan: &StructurePlan,
    targets: Targets,
    phis: Seq<PhiCandidate>,
    t: Dispositions,
    p: int,
    e: EdgeRef,
    n: nat,
    acc: Seq<PhiEdgeCopy>,
    c: PhiEdgeCopy,
)
    requires
        0 <= p < phis.len(),
        n <= phis[p].incoming@.len(),
    ensures
        copies_for(plan, targets, &phis[p], t[p], e, n, acc).contains(c) <==> acc.contains(c) || exists|j: int|
            j < n && #[trigger] copied_on(plan, phis, t, p, j, e) && c == copy_of(plan, targets, phis, t, p, j),
    decreases n,
{
    if n > 0 {
        let rest = copies_for(plan, targets, &phis[p], t[p], e, (n - 1) as nat, acc);
        let all = copies_for(plan, targets, &phis[p], t[p], e, n, acc);
        copies_for_are(plan, targets, phis, t, p, e, (n - 1) as nat, acc, c);
        let last = n - 1;
        if copied_on(plan, phis, t, p, last, e) {
            assert(all == rest.push(copy_of(plan, targets, phis, t, p, last)));
            assert(all[rest.len() as int] == copy_of(plan, targets, phis, t, p, last));
            if rest.contains(c) {
                let k = rest.index_of(c);
                assert(all[k] == c);
            }
            if all.contains(c) {
                let k = all.index_of(c);
                if k < rest.len() {
                    assert(rest[k] == c);
                }
            }
        } else {
            assert(all == rest);
        }
        if exists|j: int| j < n && #[trigger] copied_on(plan, phis, t, p, j, e) && c == copy_of(plan, targets, phis, t, p, j) {
            let j = choose|j: int| j < n && #[trigger] copied_on(plan, phis, t, p, j, e) && c == copy_of(plan, targets, phis, t, p, j);
            if j < n - 1 {
                assert(j < (n - 1) as nat && copied_on(plan, phis, t, p, j, e));
            } else {
                assert(j == last);
            }
        }
    }
}

/// The copies of an edge are what the incomings of the first `n` phis ask for there.
proof fn edge_copies_are(
    plan: &StructurePlan,
    targets: Targets,
    phis: Seq<PhiCandidate>,
    t: Dispositions,
    e: EdgeRef,
    n: nat,
    c: PhiEdgeCopy,
)
    requires
        n <= phis.len(),
    ensures
        edge_copies_for(plan, targets, phis, t, e, n).contains(c) <==> exists|p: int, j: int|
            p < n && #[trigger] copied_on(plan, phis, t, p, j, e) && c == copy_of(plan, targets, phis, t, p, j),
    decreases n,
{
    if n > 0 {
        let before = edge_copies_for(plan, targets, phis, t, e, (n - 1) as nat);
        edge_copies_are(plan, targets, phis, t, e, (n - 1) as nat, c);
        copies_for_are(plan, targets, phis, t, n - 1, e, phis[n - 1].incoming@.len(), before, c);
        if before.contains(c) {
            let (p, j) = choose|p: int, j: int|
                p < (n - 1) as nat && #[trigger] copied_on(plan, phis, t, p, j, e) && c == copy_of(plan, targets, phis, t, p, j);
            assert(p < n && copied_on(plan, phis, t, p, j, e));
        }
        if exists|p: int, j: int| p < n && #[trigger] copied_on(plan, phis, t, p, j, e) && c == copy_of(plan, targets, phis, t, p, j) {
            let (p, j) = choose|p: int, j: int|
                p < n && #[trigger] copied_on(plan, phis, t, p, j, e) && c == copy_of(plan, targets, phis, t, p, j);
            if p < n - 1 {
                assert(p < (n - 1) as nat && copied_on(plan, phis, t, p, j, e));
            }
        }
    }
}

/// In a plan that has passed its check, an edge copies exactly what the incoming values
/// that are stated to be copied there ask for.
pub proof fn edges_copy_what_is_stated(cfg: &Cfg, plan: &StructurePlan, dataflow: &DataflowFacts, e: EdgeRef, c: PhiEdgeCopy)
    requires
        phis_dense(dataflow.phi_candidates@),
        ownership_fault(cfg, plan, dataflow) is None,
        cfg.has_edge(e),
    ensures
        all_targets(plan, dataflow.phi_candidates@.len()) is Ok,
        plan.edge_plans@[e.0 as int].phi_copies@.contains(c) <==> exists|p: int, j: int| #[trigger]
            copied_on(plan, dataflow.phi_candidates@, stated(plan), p, j, e) && c == copy_of(
                plan,
                all_targets(plan, dataflow.phi_candidates@.len())->Ok_0,
                dataflow.phi_candidates@,
                stated(plan),
                p,
                j,
            ),
{
    let phis = dataflow.phi_candidates@;
    let targets = all_targets(plan, phis.len())->Ok_0;
    let t = stated(plan);
    first_where_least(plan.edge_plans@.len(), copies_stale(plan, targets, phis));
    assert(!copies_stale(plan, targets, phis)(e.0 as int));
    assert(EdgeRef(e.0) == e);
    edge_copies_are(plan, targets, phis, t, e, phis.len(), c);
    if exists|p: int, j: int| #[trigger] copied_on(plan, phis, t, p, j, e) && c == copy_of(plan, targets, phis, t, p, j) {
        let (p, j) = choose|p: int, j: int| #[trigger] copied_on(plan, phis, t, p, j, e) && c == copy_of(plan, targets, phis, t, p, j);
        assert(p < phis.len() && copied_on(plan, phis, t, p, j, e));
    }
}

/// In a plan that has passed its check, every incoming value of every phi is accounted for:
/// an existing region takes care of it, a loop carries it, its edge copies it, it is not
/// needed, or the plan says that it is unresolved.
pub proof fn every_value_is_accounted_for(cfg: &Cfg, plan: &StructurePlan, dataflow: &DataflowFacts, p: int, j: int)
    requires
        ownership_fault(cfg, plan, dataflow) is None,
        0 <= p < dataflow.phi_candidates@.len(),
        0 <= j < dataflow.phi_candidates@[p].incoming@.len(),
    ensures
        ({
            let phi = dataflow.phi_candidates@[p];
            let x = phi.incoming@[j];
            let entry = plan.phis@[phi.id.0 as int];
            let s = entry.incomings@[j];
            &&& phi.id.0 < plan.phis@.len()
            &&& entry.phi == phi.id
            &&& j < entry.incomings@.len()
            &&& s.edge == x.edge
            &&& s.value == x.value
            &&& match s.disposition {
                PhiIncomingDisposition::RegionInput(r) => r.0 < plan.regions@.len(),
                PhiIncomingDisposition::RegionResult(r) => r.0 < plan.regions@.len(),
                PhiIncomingDisposition::LoopCarried(r) => is_loop_region(plan, r),
                PhiIncomingDisposition::EdgeCopy => x.edge is Some,
                PhiIncomingDisposition::Dead => !is_needed(dataflow.use_values@, dataflow.phi_candidates@, phi.id.0) || is_cut_off(
                    plan,
                    x.edge,
                ),
                PhiIncomingDisposition::DiagnosticUnresolved => says_unresolved(plan, phi.id),
            }
            &&& needs_copy(plan, phi.id, s.disposition) && x.edge is Some ==> cfg.has_edge(x.edge->0)
        }),
{
    let phis = dataflow.phi_candidates@;
    let phi = &phis[p];
    let q = &plan.phis@[phi.id.0 as int];
    first_some_empty(phis.len(), phi_problem(cfg, plan, dataflow));
    assert(phi_problem(cfg, plan, dataflow)(p) is None);
    first_some_empty(phi.incoming@.len(), incoming_problem(cfg, plan, dataflow, phi, q));
    assert(incoming_problem(cfg, plan, dataflow, phi, q)(j) is None);
    assert(disposition_problem(plan, dataflow, phi, j, q.incomings@[j].disposition) is None);
}

/// Every list holds the copies of its edge.
spec fn copies_kept(
    plan: &StructurePlan,
    targets: Targets,
    phis: Seq<PhiCandidate>,
    t: Dispositions,
    s: CopyState,
    n: nat,
) -> bool {
    forall|e: int|
        0 <= e < s.actions.len() ==> #[trigger] s.actions[e] == edge_copies_for(plan, targets, phis, t, EdgeRef(e as usize), n)
}

/// Noting the copies of one phi adds to every list what the phi asks for there.
proof fn noted_by_edge(
    plan: &StructurePlan,
    targets: Targets,
    phi: &PhiCandidate,
    row: Seq<PhiIncomingDisposition>,
    s: CopyState,
    n: nat,
    e: int,
)
    requires
        copies_in(plan, targets, phi, row, s, n) is Ok,
        0 <= e < s.actions.len() <= usize::MAX,
    ensures
        copies_in(plan, targets, phi, row, s, n)->Ok_0.actions.len() == s.actions.len(),
        copies_in(plan, targets, phi, row, s, n)->Ok_0.actions[e] == copies_for(
            plan,
            targets,
            phi,
            row,
            EdgeRef(e as usize),
            n,
            s.actions[e],
        ),
    decreases n,
{
    if n > 0 {
        noted_by_edge(plan, targets, phi, row, s, (n - 1) as nat, e);
        let now = copies_in(plan, targets, phi, row, s, (n - 1) as nat)->Ok_0;
        let x = phi.incoming@[n - 1];
        if x.edge is Some && needs_copy(plan, phi.id, row[n - 1]) {
            let at = (x.edge->0).0 as int;
            if at == e {
                assert(x.edge == Some(EdgeRef(e as usize)));
            } else {
                assert(x.edge != Some(EdgeRef(e as usize)));
            }
        }
    }
}

/// The lists that are collected phi by phi are the copies of each edge.
proof fn collected_by_edge(
    plan: &StructurePlan,
    targets: Targets,
    phis: Seq<PhiCandidate>,
    t: Dispositions,
    edges: nat,
    n: nat,
)
    requires
        n <= phis.len(),
        edges <= usize::MAX,
        dispositions_fit(phis, t),
        phis_dense(phis),
        copies_upto(plan, targets, phis, t, no_copies(edges, phis.len()), n) is Ok,
    ensures
        copies_upto(plan, targets, phis, t, no_copies(edges, phis.len()), n)->Ok_0.actions.len() == edges,
        copies_kept(plan, targets, phis, t, copies_upto(plan, targets, phis, t, no_copies(edges, phis.len()), n)->Ok_0, n),
    decreases n,
{
    if n > 0 {
        assert(t[n - 1].len() == phis[n - 1].incoming@.len() && phis[n - 1].id.0 == n - 1);
        collected_by_edge(plan, targets, phis, t, edges, (n - 1) as nat);
        let was = copies_upto(plan, targets, phis, t, no_copies(edges, phis.len()), (n - 1) as nat)->Ok_0;
        let now = copies_upto(plan, targets, phis, t, no_copies(edges, phis.len()), n)->Ok_0;
        if edges == 0 {
            nothing_noted(plan, targets, &phis[n - 1], t[n - 1], was, phis[n - 1].incoming@.len());
        } else {
            noted_by_edge(plan, targets, &phis[n - 1], t[n - 1], was, phis[n - 1].incoming@.len(), 0);
        }
        assert forall|e: int| 0 <= e < now.actions.len() implies #[trigger] now.actions[e] == edge_copies_for(
            plan,
            targets,
            phis,
            t,
            EdgeRef(e as usize),
            n,
        ) by {
            noted_by_edge(plan, targets, &phis[n - 1], t[n - 1], was, phis[n - 1].incoming@.len(), e);
            assert(was.actions[e] == edge_copies_for(plan, targets, phis, t, EdgeRef(e as usize), (n - 1) as nat));
        }
    }
}

proof fn nothing_noted(
    plan: &StructurePlan,
    targets: Targets,
    phi: &PhiCandidate,
    row: Seq<PhiIncomingDisposition>,
    s: CopyState,
    n: nat,
)
    requires
        copies_in(plan, targets, phi, row, s, n) is Ok,
    ensures
        copies_in(plan, targets, phi, row, s, n)->Ok_0.actions.len() == s.actions.len(),
    decreases n,
{
    if n > 0 {
        nothing_noted(plan, targets, phi, row, s, (n - 1) as nat);
    }
}

/// What decides over copies is the same in both plans.
spec fn same_routes(a: &StructurePlan, b: &StructurePlan) -> bool {
    &&& a.regions == b.regions
    &&& a.loops == b.loops
    &&& a.condition_value_by_phi == b.condition_value_by_phi
    &&& a.value_decision_by_phi == b.value_decision_by_phi
    &&& a.edge_plans@.len() == b.edge_plans@.len()
    &&& forall|e: int| 0 <= e < a.edge_plans@.len() ==> (#[trigger] a.edge_plans@[e]).transfer == b.edge_plans@[e].transfer
}

proof fn same_targets(a: &StructurePlan, b: &StructurePlan, count: nat, n: nat)
    requires
        same_routes(a, b),
    ensures
        targets_upto(a, count, n) == targets_upto(b, count, n),
    decreases n,
{
    if n > 0 {
        same_targets(a, b, count, (n - 1) as nat);
    }
}

proof fn same_copies_for(
    a: &StructurePlan,
    b: &StructurePlan,
    targets: Targets,
    phi: &PhiCandidate,
    row: Seq<PhiIncomingDisposition>,
    e: EdgeRef,
    n: nat,
    acc: Seq<PhiEdgeCopy>,
)
    requires
        same_routes(a, b),
    ensures
        copies_for(a, targets, phi, row, e, n, acc) == copies_for(b, targets, phi, row, e, n, acc),
    decreases n,
{
    if n > 0 {
        same_copies_for(a, b, targets, phi, row, e, (n - 1) as nat, acc);
        if e.0 < a.edge_plans@.len() {
            assert(a.edge_plans@[e.0 as int].transfer == b.edge_plans@[e.0 as int].transfer);
        }
    }
}

proof fn same_edge_copies(
    a: &StructurePlan,
    b: &StructurePlan,
    targets: Targets,
    phis: Seq<PhiCandidate>,
    t: Dispositions,
    e: EdgeRef,
    n: nat,
)
    requires
        same_routes(a, b),
    ensures
        edge_copies_for(a, targets, phis, t, e, n) == edge_copies_for(b, targets, phis, t, e, n),
    decreases n,
{
    if n > 0 {
        same_edge_copies(a, b, targets, phis, t, e, (n - 1) as nat);
        let acc = edge_copies_for(a, targets, phis, t, e, (n - 1) as nat);
        same_copies_for(a, b, targets, &phis[n - 1], t[n - 1], e, phis[n - 1].incoming@.len(), acc);
    }
}

/// The tables of a completed plan agree with its entries: the check finds no stale index,
/// no stale head and no stale copies in it.
pub proof fn completed_tables_agree(
    cfg: &Cfg,
    g: &GraphFacts,
    dataflow: &DataflowFacts,
    a: &StructurePlan,
    b: &StructurePlan,
    m: FinalModel,
)
    requires
        finalization(cfg, g, dataflow, a) == Ok::<FinalModel, Fault>(m),
        finalized(cfg, dataflow.phi_candidates@, a, b, m),
        a.edge_plans@.len() == cfg.edges@.len(),
    ensures
        all_targets(b, dataflow.phi_candidates@.len()) is Ok,
        table_fault(cfg, b, all_targets(b, dataflow.phi_candidates@.len())->Ok_0, dataflow.phi_candidates@) is None,
{
    let phis = dataflow.phi_candidates@;
    let t = m.dispositions;
    let targets = all_targets(a, phis.len())->Ok_0;
    assert(same_routes(a, b)) by {
        assert forall|e: int| 0 <= e < a.edge_plans@.len() implies (#[trigger] a.edge_plans@[e]).transfer == b.edge_plans@[e].transfer by {
            assert(same_edge_plan(a.edge_plans@[e], b.edge_plans@[e]));
        }
    }
    same_targets(a, b, phis.len(), a.regions@.len());
    assert(stated(b) =~= t) by {
        assert forall|p: int| 0 <= p < t.len() implies stated(b)[p] == #[trigger] t[p] by {
            assert(is_plan_of(&phis[p], t[p], &b.phis@[p]));
            assert(stated(b)[p] =~= t[p]);
        }
    }
    assert(cfg.edges.len() <= usize::MAX);
    first_where_least(phis.len(), misplaced(phis));
    assert(phis_dense(phis)) by {
        assert forall|p: int| 0 <= p < phis.len() implies (#[trigger] phis[p]).id.0 == p by {
            assert(!misplaced(phis)(p));
        }
    }
    collected_by_edge(a, targets, phis, t, cfg.edges@.len(), phis.len());
    let stale = copies_stale(b, targets, phis);
    first_where_least(b.edge_plans@.len(), stale);
    assert forall|e: int| 0 <= e < b.edge_plans@.len() implies !#[trigger] stale(e) by {
        let at = EdgeRef(e as usize);
        assert(b.edge_plans@[e].phi_copies@ == m.copies[e]);
        same_edge_copies(a, b, targets, phis, t, at, phis.len());
    }
}

} // verus!
