//! The last step of a plan: every incoming value of every phi gets one owner.

use vstd::prelude::*;

use crate::cfg::Cfg;
use crate::claims::phis_dense;
use crate::dataflow::{dense_names, DataflowFacts, PhiCandidate};
use crate::dispositions::{
    arena_fault, clear_owners, collect_clear_owners, island_fault, last_words, regions_owned_by_island_graph, settle_dispositions, validate_phi_arena,
};
use crate::edge_copies::{
    action_heads, all_copies, build_forwarded_action_heads, collect_dense_edge_actions, copy_rows, dispositions_fit,
    dispositions_of, forward_sized, heads_upto, order_fault, Dispositions,
};
use crate::error::{Fault, StructureError};
use crate::evidence::PhiEdgeCopy;
use crate::graph::GraphFacts;
use crate::ids::EdgeRef;
use crate::inherit::{propagate_transitive_region_owners, settled_owners};
use crate::install::{
    install_fault, install_phi_plans, install_unresolved_requirements, phi_plans_ok, required_so_far, required_upto,
    requirement_state, RequirementState,
};
use crate::owners::{tree_fault, RegionOwnerIndex};
use crate::ownership::{ownership_fault, tells_copies, validate_phi_ownership};
use crate::plan::{EdgePlan, PhiIncomingDisposition};
use crate::region_claims::{all_regions_claim, claim_idom_inputs, claim_selected_region_values, inputs_claim};
use crate::search::first_some;
use crate::structure_plan::StructurePlan;

verus! {

/// The owner of every incoming.
pub open spec fn decided(
    cfg: &Cfg,
    g: &GraphFacts,
    dataflow: &DataflowFacts,
    plan: &StructurePlan,
) -> Result<Dispositions, Fault> {
    let phis = dataflow.phi_candidates@;
    match arena_fault(phis) {
        Some(f) => Err(f),
        None => match island_fault(plan) {
            Some(f) => Err(f),
            None => match tree_fault(plan) {
                Some(f) => Err(f),
                None => match clear_owners(cfg, plan, dataflow, phis.len()) {
                    Err(f) => Err(f),
                    Ok(clear) => match all_regions_claim(plan, phis, clear) {
                        Err(f) => Err(f),
                        Ok(claimed) => match inputs_claim(g, plan, dataflow, claimed, phis.len()) {
                            Err(f) => Err(f),
                            Ok(passed) => match settled_owners(plan, dataflow, passed) {
                                Err(f) => Err(f),
                                Ok(t) => Ok(last_words(phis, t)),
                            },
                        },
                    },
                },
            },
        },
    }
}

/// What the last step adds to a plan.
pub struct FinalModel {
    pub dispositions: Dispositions,
    pub copies: Seq<Seq<PhiEdgeCopy>>,
    pub requirements: RequirementState,
}

/// The additions, from the owners on.
pub open spec fn additions(
    cfg: &Cfg,
    dataflow: &DataflowFacts,
    plan: &StructurePlan,
    t: Dispositions,
) -> Result<FinalModel, Fault> {
    let phis = dataflow.phi_candidates@;
    match all_copies(plan, phis, t, cfg.edges@.len()) {
        Err(f) => Err(f),
        Ok(copies) => if copies.len() > plan.edge_plans@.len() {
            Err(Fault::EdgePlanAbsent(EdgeRef(plan.edge_plans@.len() as usize)))
        } else {
            match first_some(plan.forward_preorder@.len(), order_fault(plan.forward_preorder@, plan.edge_plans@.len())) {
                Some(f) => Err(f),
                None => match install_fault(phis, t, cfg.blocks@.len(), plan.regions@.len()) {
                    Some(f) => Err(f),
                    None => match required_upto(phis, t, requirement_state(&plan.requirements), phis.len()) {
                        Err(f) => Err(f),
                        Ok(requirements) => Ok(FinalModel { dispositions: t, copies, requirements }),
                    },
                },
            }
        },
    }
}

/// What the last step adds to the plan.
pub open spec fn finalization(
    cfg: &Cfg,
    g: &GraphFacts,
    dataflow: &DataflowFacts,
    plan: &StructurePlan,
) -> Result<FinalModel, Fault> {
    match decided(cfg, g, dataflow, plan) {
        Err(f) => Err(f),
        Ok(t) => additions(cfg, dataflow, plan, t),
    }
}

/// Only what concerns values differs.
pub open spec fn same_structure(a: &StructurePlan, b: &StructurePlan) -> bool {
    &&& *b == (StructurePlan {
        edge_plans: b.edge_plans,
        forward_action_head: b.forward_action_head,
        requirements: b.requirements,
        phis: b.phis,
        phis_by_block: b.phis_by_block,
        phis_by_region: b.phis_by_region,
        ..*a
    })
    &&& b.edge_plans@.len() == a.edge_plans@.len()
    &&& forall|e: int| 0 <= e < a.edge_plans@.len() ==> same_edge_plan(#[trigger] a.edge_plans@[e], b.edge_plans@[e])
    &&& b.requirements.by_edge == a.requirements.by_edge
    &&& b.requirements.required_features == a.requirements.required_features
    &&& b.requirements.unavailable_features == a.requirements.unavailable_features
}

/// Only the copies differ.
pub open spec fn same_edge_plan(a: EdgePlan, b: EdgePlan) -> bool {
    b == (EdgePlan { phi_copies: b.phi_copies, ..a })
}

/// The edges below `copies.len()` make the copies; the others make those that they made.
pub open spec fn makes_copies(a: Seq<EdgePlan>, b: Seq<EdgePlan>, copies: Seq<Seq<PhiEdgeCopy>>) -> bool {
    forall|e: int|
        0 <= e < a.len() ==> (#[trigger] b[e]).phi_copies@ == (if e < copies.len() {
            copies[e]
        } else {
            a[e].phi_copies@
        })
}

/// `b` is `a` with the additions.
pub open spec fn finalized(cfg: &Cfg, phis: Seq<PhiCandidate>, a: &StructurePlan, b: &StructurePlan, m: FinalModel) -> bool {
    &&& same_structure(a, b)
    &&& dispositions_fit(phis, m.dispositions)
    &&& makes_copies(a.edge_plans@, b.edge_plans@, m.copies)
    &&& action_heads(b) == Ok::<Seq<Option<EdgeRef>>, Fault>(b.forward_action_head@)
    &&& phi_plans_ok(phis, m.dispositions, cfg.blocks@.len(), a.regions@.len(), b.phis@, b.phis_by_block@, b.phis_by_region@)
    &&& requirement_state(&b.requirements) == m.requirements
}

/// The values that the plan states are those of the other.
pub open spec fn same_values(a: &StructurePlan, b: &StructurePlan) -> bool {
    b.phis == a.phis && b.phis_by_block == a.phis_by_block && b.phis_by_region == a.phis_by_region && b.requirements == a.requirements
}

/// What the last step has done to the plan where it could not be completed: nothing while
/// owners or copies are not known; the copies of the edges that there are; then the heads,
/// and then the phis, with the requirements up to the one that could not be stated.
pub open spec fn left_behind(
    cfg: &Cfg,
    g: &GraphFacts,
    dataflow: &DataflowFacts,
    a: &StructurePlan,
    b: &StructurePlan,
) -> bool {
    let phis = dataflow.phi_candidates@;
    match decided(cfg, g, dataflow, a) {
        Err(_) => *b == *a,
        Ok(t) => match all_copies(a, phis, t, cfg.edges@.len()) {
            Err(_) => *b == *a,
            Ok(copies) => {
                &&& same_structure(a, b)
                &&& makes_copies(a.edge_plans@, b.edge_plans@, copies)
                &&& if copies.len() > a.edge_plans@.len() || first_some(
                    a.forward_preorder@.len(),
                    order_fault(a.forward_preorder@, a.edge_plans@.len()),
                ) is Some {
                    b.forward_action_head == a.forward_action_head && same_values(a, b)
                } else {
                    &&& action_heads(b) == Ok::<Seq<Option<EdgeRef>>, Fault>(b.forward_action_head@)
                    &&& if install_fault(phis, t, cfg.blocks@.len(), a.regions@.len()) is Some {
                        same_values(a, b)
                    } else {
                        &&& phi_plans_ok(
                            phis,
                            t,
                            cfg.blocks@.len(),
                            a.regions@.len(),
                            b.phis@,
                            b.phis_by_block@,
                            b.phis_by_region@,
                        )
                        &&& requirement_state(&b.requirements) == required_so_far(
                            phis,
                            t,
                            requirement_state(&a.requirements),
                            phis.len(),
                        )
                    }
                }
            },
        },
    }
}

fn decide_owners(cfg: &Cfg, g: &GraphFacts, dataflow: &DataflowFacts, plan: &StructurePlan) -> (r: Result<
    Vec<Vec<PhiIncomingDisposition>>,
    StructureError,
>)
    requires
        dataflow.needs_exist(),
    ensures
        match r {
            Ok(t) => decided(cfg, g, dataflow, plan) == Ok::<Dispositions, Fault>(dispositions_of(t@)) && dispositions_fit(
                dataflow.phi_candidates@,
                dispositions_of(t@),
            ) && phis_dense(dataflow.phi_candidates@),
            Err(e) => decided(cfg, g, dataflow, plan) == Err::<Dispositions, Fault>(e.fault),
        },
{
    match validate_phi_arena(dataflow) {
        Ok(_) => {},
        Err(e) => {
            return Err(e);
        },
    }
    let islands = match regions_owned_by_island_graph(plan) {
        Ok(x) => x,
        Err(e) => {
            return Err(e);
        },
    };
    let index = match RegionOwnerIndex::new(plan) {
        Ok(x) => x,
        Err(e) => {
            return Err(e);
        },
    };
    let dead = dataflow.compute_truly_dead_phis();
    proof {
        dense_names(dataflow.phi_candidates@);
    }
    let mut table = match collect_clear_owners(cfg, plan, dataflow, &islands, &dead) {
        Ok(x) => x,
        Err(e) => {
            return Err(e);
        },
    };
    match claim_selected_region_values(&index, dataflow, &mut table) {
        Ok(_) => {},
        Err(e) => {
            return Err(e);
        },
    }
    match claim_idom_inputs(g, &index, dataflow, &mut table) {
        Ok(_) => {},
        Err(e) => {
            return Err(e);
        },
    }
    match propagate_transitive_region_owners(&index, dataflow, &mut table) {
        Ok(_) => {},
        Err(e) => {
            return Err(e);
        },
    }
    Ok(settle_dispositions(dataflow, &table))
}

/// Hands the edges that there are their copies.
fn install_copies(edge_plans: &mut Vec<EdgePlan>, copies: Vec<Vec<PhiEdgeCopy>>)
    ensures
        final(edge_plans)@.len() == old(edge_plans)@.len(),
        makes_copies(old(edge_plans)@, final(edge_plans)@, copy_rows(copies@)),
        forall|e: int| 0 <= e < old(edge_plans)@.len() ==> same_edge_plan(#[trigger] old(edge_plans)@[e], final(edge_plans)@[e]),
{
    let ghost rows = copy_rows(copies@);
    let ghost before = edge_plans@;
    let mut copies = copies;
    while copies.len() > edge_plans.len()
        invariant
            before == old(edge_plans)@,
            before == edge_plans@,
            copies@.len() <= rows.len(),
            rows.len() < before.len() ==> copies@.len() == rows.len(),
            rows.len() >= before.len() ==> copies@.len() >= before.len(),
            forall|e: int| 0 <= e < copies@.len() ==> (#[trigger] copies@[e])@ == rows[e],
        decreases copies@.len(),
    {
        copies.pop();
    }
    let ghost total = copies@.len();
    while copies.len() > 0
        invariant
            before == old(edge_plans)@,
            total <= rows.len(),
            total <= before.len(),
            total < rows.len() ==> total == before.len(),
            copies@.len() <= total,
            forall|e: int| 0 <= e < copies@.len() ==> (#[trigger] copies@[e])@ == rows[e],
            edge_plans@.len() == before.len(),
            forall|e: int| 0 <= e < before.len() ==> same_edge_plan(#[trigger] before[e], edge_plans@[e]),
            forall|e: int|
                0 <= e < before.len() ==> (#[trigger] edge_plans@[e]).phi_copies@ == (if copies@.len() <= e < total {
                    rows[e]
                } else {
                    before[e].phi_copies@
                }),
        decreases copies@.len(),
    {
        let ghost now = edge_plans@;
        let e = copies.len() - 1;
        if let Some(row) = copies.pop() {
            let mut slot = row;
            std::mem::swap(&mut slot, &mut edge_plans[e].phi_copies);
        }
        proof {
            assert forall|k: int| 0 <= k < before.len() implies same_edge_plan(#[trigger] before[k], edge_plans@[k]) by {
                assert(same_edge_plan(before[k], now[k]));
            }
        }
    }
}

/// Completes a plan: owners, copies, heads of copying edges, phis and what is left
/// unresolved; and checks the outcome.
pub fn finalize_phi_ownership(
    cfg: &Cfg,
    graph_facts: &GraphFacts,
    dataflow: &DataflowFacts,
    plan: &mut StructurePlan,
) -> (r: Result<
    (),
    StructureError,
>)
    requires
        forward_sized(old(plan)),
        dataflow.needs_exist(),
    ensures
        match finalization(cfg, graph_facts, dataflow, old(plan)) {
            Err(f) => r is Err && r->Err_0.fault == f,
            Ok(m) => finalized(cfg, dataflow.phi_candidates@, old(plan), final(plan), m) && match ownership_fault(cfg, final(plan), dataflow) {
                None => r is Ok,
                Some(f) => r is Err && r->Err_0.fault == f && tells_copies(final(plan), dataflow, &r->Err_0),
            },
        },
        same_structure(old(plan), final(plan)),
        finalization(cfg, graph_facts, dataflow, old(plan)) is Err ==> left_behind(
            cfg,
            graph_facts,
            dataflow,
            old(plan),
            final(plan),
        ),
{
    let dispositions = match decide_owners(cfg, graph_facts, dataflow, plan) {
        Ok(x) => x,
        Err(e) => {
            return Err(e);
        },
    };
    let copies = match collect_dense_edge_actions(dataflow, plan, cfg.edges.len(), &dispositions) {
        Ok(x) => x,
        Err(e) => {
            return Err(e);
        },
    };
    let count = copies.len();
    install_copies(&mut plan.edge_plans, copies);
    if count > plan.edge_plans.len() {
        return Err(StructureError::invalid(Fault::EdgePlanAbsent(EdgeRef(plan.edge_plans.len()))));
    }
    let heads = match build_forwarded_action_heads(plan) {
        Ok(x) => x,
        Err(e) => {
            return Err(e);
        },
    };
    let ghost copied = *plan;
    plan.forward_action_head = heads;
    proof {
        heads_depend_on_edges(&copied, plan, plan.edge_plans@.len());
    }
    let plans = match install_phi_plans(dataflow, &dispositions, cfg.blocks.len(), plan.regions.len()) {
        Ok(x) => x,
        Err(e) => {
            return Err(e);
        },
    };
    plan.phis = plans.phis;
    plan.phis_by_block = plans.by_block;
    plan.phis_by_region = plans.by_region;
    let outcome = install_unresolved_requirements(dataflow, &dispositions, &mut plan.requirements);
    proof {
        heads_depend_on_edges(&copied, plan, plan.edge_plans@.len());
    }
    match outcome {
        Ok(_) => {},
        Err(e) => {
            return Err(e);
        },
    }
    validate_phi_ownership(cfg, dataflow, plan)
}

/// The heads are read off the edges and their ways alone.
proof fn heads_depend_on_edges(a: &StructurePlan, b: &StructurePlan, k: nat)
    requires
        a.edge_plans == b.edge_plans,
        a.forward_next == b.forward_next,
        a.forward_preorder == b.forward_preorder,
    ensures
        heads_upto(a, k) == heads_upto(b, k),
    decreases k,
{
    if k > 0 {
        heads_depend_on_edges(a, b, (k - 1) as nat);
    }
}

} // verus!
