//! The final plan of a prototype and the queries over it.

use vstd::prelude::*;

use crate::dataflow::{PhiId, SsaValue};
use crate::evidence::ScopePlan;
use crate::ids::{BlockRef, EdgeRef, InstrRef, Reg};
use crate::plan::{
    BlockEmissionPlan, BlockTerminatorPlan, BranchPlanData, BranchPlanId, CleanupDisposition, ConditionNodeId,
    ConditionPlan, ConditionPlanId, EdgePlan, EdgeRegionRelation, ForwardRouteId, ForwardRouteKind, ForwardRoutePlan,
    LabelPlan, LabelPlanId, LoopExitTailPlan, LoopPlanData, LoopPlanId, PhiPlan, PlanRequirements, RegionId,
    RegionNavigation, RegionPlan, ScopePlanId, SinglePassPlan, SinglePassPlanId, TbcScopePlan, TbcScopePlanId,
    ValueDecisionPlan, ValueDecisionPlanId,
};

verus! {

/// The variable of a source scope, and the value that it starts with.
#[derive(Debug, Clone, Copy, PartialEq, Eq, Structural)]
pub struct DebugBindingFact {
    pub scope: usize,
    pub reg: Reg,
    pub start_pc: u32,
    pub end_pc: u32,
    pub value: SsaValue,
}

/// Scopes that claim the same value.
#[derive(Debug)]
pub struct DebugBindingConflict {
    pub value: SsaValue,
    pub scopes: Vec<usize>,
}

#[derive(Debug)]
pub struct DebugBindingFacts {
    pub accepted: Vec<DebugBindingFact>,
    pub conflicts: Vec<DebugBindingConflict>,
}

/// The plan of a prototype, with those of the prototypes nested in it.
#[derive(Debug)]
pub struct StructureFacts {
    pub plan: StructurePlan,
    pub debug_bindings: DebugBindingFacts,
    pub children: Vec<StructureFacts>,
}

impl StructureFacts {
    pub fn plan(&self) -> (r: &StructurePlan)
        ensures
            *r == self.plan,
    {
        &self.plan
    }

    pub fn debug_bindings(&self) -> (r: &DebugBindingFacts)
        ensures
            *r == self.debug_bindings,
    {
        &self.debug_bindings
    }
}

/// Regions, edges, values and cleanups of a prototype, each with its one owner.
#[derive(Debug)]
pub struct StructurePlan {
    pub root: RegionId,
    pub regions: Vec<RegionPlan>,
    pub region_by_block: Vec<Option<RegionId>>,
    pub navigation: RegionNavigation,
    pub block_terminators: Vec<BlockTerminatorPlan>,
    pub block_emissions: Vec<BlockEmissionPlan>,
    pub edge_plans: Vec<EdgePlan>,
    pub forward_routes: Vec<ForwardRoutePlan>,
    /// The edge that follows on each edge's way.
    pub forward_next: Vec<Option<EdgeRef>>,
    /// The forest of the ways: an edge lies below the one that follows it.
    pub forward_preorder: Vec<usize>,
    pub forward_subtree_end: Vec<usize>,
    pub forward_depth: Vec<usize>,
    pub forward_owner_by_edge: Vec<Option<RegionId>>,
    pub forward_kind_by_edge: Vec<Option<ForwardRouteKind>>,
    /// The first edge from here on that copies values.
    pub forward_action_head: Vec<Option<EdgeRef>>,
    pub requirements: PlanRequirements,
    pub labels: Vec<LabelPlan>,
    pub label_by_block: Vec<Option<LabelPlanId>>,
    pub branches: Vec<BranchPlanData>,
    pub single_passes: Vec<SinglePassPlan>,
    pub single_pass_by_region: Vec<Option<SinglePassPlanId>>,
    pub loops: Vec<LoopPlanData>,
    pub loop_region_by_plan: Vec<RegionId>,
    pub loop_exit_tail_by_block: Vec<Option<LoopPlanId>>,
    pub loop_exit_tail_by_edge: Vec<Option<LoopPlanId>>,
    pub loop_exit_tail_by_cleanup_instr: Vec<Option<LoopPlanId>>,
    pub conditions: Vec<ConditionPlan>,
    pub condition_value_by_phi: Vec<Option<(ConditionPlanId, ConditionNodeId)>>,
    pub absorbed_condition_by_block: Vec<Option<ConditionPlanId>>,
    pub value_decisions: Vec<ValueDecisionPlan>,
    pub value_decision_region_by_plan: Vec<RegionId>,
    pub value_decision_by_phi: Vec<Option<ValueDecisionPlanId>>,
    pub scopes: Vec<ScopePlan>,
    pub tbc_scopes: Vec<TbcScopePlan>,
    pub phis: Vec<PhiPlan>,
    pub phis_by_block: Vec<Vec<PhiId>>,
    pub phis_by_region: Vec<Vec<PhiId>>,
    pub cleanup_dispositions: Vec<Option<CleanupDisposition>>,
}

/// The entry at an index; none beyond the end.
pub open spec fn entry_at<T>(list: Seq<Option<T>>, i: usize) -> Option<T> {
    if i < list.len() {
        list[i as int]
    } else {
        None
    }
}

/// The row at an index; an empty one beyond the end.
pub open spec fn row_at<T>(rows: Seq<Vec<T>>, i: usize) -> Seq<T> {
    if i < rows.len() {
        rows[i as int]@
    } else {
        Seq::empty()
    }
}

/// At most `n` edges from `current` on, each with the one that follows it.
pub open spec fn chain(next: Seq<Option<EdgeRef>>, current: Option<EdgeRef>, n: nat) -> Seq<EdgeRef>
    decreases n,
{
    match current {
        Some(e) => if n == 0 {
            Seq::empty()
        } else {
            seq![e] + chain(next, entry_at(next, e.0), (n - 1) as nat)
        },
        None => Seq::empty(),
    }
}

impl StructurePlan {
    pub fn root(&self) -> (r: RegionId)
        ensures
            r == self.root,
    {
        self.root
    }

    pub fn region(&self, id: RegionId) -> (r: Option<&RegionPlan>)
        ensures
            match r {
                Some(x) => id.0 < self.regions@.len() && *x == self.regions@[id.0 as int],
                None => id.0 >= self.regions@.len(),
            },
    {
        if id.0 < self.regions.len() {
            Some(&self.regions[id.0])
        } else {
            None
        }
    }

    pub fn regions(&self) -> (r: Vec<(RegionId, &RegionPlan)>)
        ensures
            r@.len() == self.regions@.len(),
            forall|i: int| 0 <= i < r@.len() ==> (#[trigger] r@[i]).0 == RegionId(i as usize) && *r@[i].1 == self.regions@[i],
    {
        let n = self.regions.len();
        let mut r: Vec<(RegionId, &RegionPlan)> = Vec::new();
        let mut i: usize = 0;
        while i < n
            invariant
                n == self.regions@.len(),
                i <= n,
                r@.len() == i,
                forall|k: int| 0 <= k < i ==> (#[trigger] r@[k]).0 == RegionId(k as usize) && *r@[k].1 == self.regions@[k],
            decreases n - i,
        {
            r.push((RegionId(i), &self.regions[i]));
            i = i + 1;
        }
        r
    }

    pub fn region_for_block(&self, block: BlockRef) -> (r: Option<RegionId>)
        ensures
            r == entry_at(self.region_by_block@, block.0),
    {
        if block.0 < self.region_by_block.len() {
            self.region_by_block[block.0]
        } else {
            None
        }
    }

    pub fn region_contains(&self, outer: RegionId, inner: RegionId) -> (r: bool)
        ensures
            r == self.navigation.holds(outer, inner),
    {
        self.navigation.contains(outer, inner)
    }

    pub fn edge_region_relation(&self, edge: EdgeRef) -> (r: Option<EdgeRegionRelation>)
        ensures
            r == entry_at(self.navigation.relations@, edge.0),
    {
        if edge.0 < self.navigation.relations.len() {
            self.navigation.relations[edge.0]
        } else {
            None
        }
    }

    pub fn region_postorder(&self) -> (r: &[RegionId])
        ensures
            r@ == self.navigation.postorder@,
    {
        self.navigation.postorder.as_slice()
    }

    pub fn block_terminator(&self, block: BlockRef) -> (r: Option<&BlockTerminatorPlan>)
        ensures
            match r {
                Some(x) => block.0 < self.block_terminators@.len() && *x == self.block_terminators@[block.0 as int],
                None => block.0 >= self.block_terminators@.len(),
            },
    {
        if block.0 < self.block_terminators.len() {
            Some(&self.block_terminators[block.0])
        } else {
            None
        }
    }

    pub fn block_emission(&self, block: BlockRef) -> (r: Option<BlockEmissionPlan>)
        ensures
            r == (if block.0 < self.block_emissions@.len() {
                Some(self.block_emissions@[block.0 as int])
            } else {
                None
            }),
    {
        if block.0 < self.block_emissions.len() {
            Some(self.block_emissions[block.0])
        } else {
            None
        }
    }

    pub fn edge_plan(&self, edge: EdgeRef) -> (r: Option<&EdgePlan>)
        ensures
            match r {
                Some(x) => edge.0 < self.edge_plans@.len() && *x == self.edge_plans@[edge.0 as int],
                None => edge.0 >= self.edge_plans@.len(),
            },
    {
        if edge.0 < self.edge_plans.len() {
            Some(&self.edge_plans[edge.0])
        } else {
            None
        }
    }

    pub fn forward_route(&self, id: ForwardRouteId) -> (r: Option<&ForwardRoutePlan>)
        ensures
            match r {
                Some(x) => id.0 < self.forward_routes@.len() && *x == self.forward_routes@[id.0 as int],
                None => id.0 >= self.forward_routes@.len(),
            },
    {
        if id.0 < self.forward_routes.len() {
            Some(&self.forward_routes[id.0])
        } else {
            None
        }
    }

    pub fn forward_routes(&self) -> (r: Vec<(ForwardRouteId, &ForwardRoutePlan)>)
        ensures
            r@.len() == self.forward_routes@.len(),
            forall|i: int| 0 <= i < r@.len() ==> (#[trigger] r@[i]).0 == ForwardRouteId(i as usize) && *r@[i].1 == self.forward_routes@[i],
    {
        let n = self.forward_routes.len();
        let mut r: Vec<(ForwardRouteId, &ForwardRoutePlan)> = Vec::new();
        let mut i: usize = 0;
        while i < n
            invariant
                n == self.forward_routes@.len(),
                i <= n,
                r@.len() == i,
                forall|k: int| 0 <= k < i ==> (#[trigger] r@[k]).0 == ForwardRouteId(k as usize) && *r@[k].1 == self.forward_routes@[k],
            decreases n - i,
        {
            r.push((ForwardRouteId(i), &self.forward_routes[i]));
            i = i + 1;
        }
        r
    }

    /// The edges of a route, from its first; none for an unknown route.
    pub fn forward_route_edges(&self, id: ForwardRouteId) -> (r: Vec<EdgeRef>)
        ensures
            r@ == (if id.0 < self.forward_routes@.len() {
                let route = self.forward_routes@[id.0 as int];
                chain(self.forward_next@, Some(route.first), route.len as nat)
            } else {
                Seq::empty()
            }),
    {
        let mut r: Vec<EdgeRef> = Vec::new();
        if id.0 >= self.forward_routes.len() {
            assert(r@ =~= Seq::empty());
            return r;
        }
        let route = self.forward_routes[id.0];
        let mut current: Option<EdgeRef> = Some(route.first);
        let mut remaining: usize = route.len;
        while remaining > 0 && current.is_some()
            invariant
                remaining <= route.len,
                chain(self.forward_next@, Some(route.first), route.len as nat) == r@ + chain(
                    self.forward_next@,
                    current,
                    remaining as nat,
                ),
            decreases remaining,
        {
            let edge = current.unwrap();
            let ghost before = r@;
            r.push(edge);
            let next = if edge.0 < self.forward_next.len() {
                self.forward_next[edge.0]
            } else {
                None
            };
            assert(before + chain(self.forward_next@, current, remaining as nat) =~= r@ + chain(
                self.forward_next@,
                next,
                (remaining - 1) as nat,
            ));
            current = next;
            remaining = remaining - 1;
        }
        assert(r@ + chain(self.forward_next@, current, remaining as nat) =~= r@);
        r
    }

    /// `ancestor` lies on the way that `edge` goes on, or is `edge`.
    pub open spec fn follows(&self, ancestor: EdgeRef, edge: EdgeRef) -> bool {
        &&& ancestor.0 < self.forward_preorder@.len()
        &&& ancestor.0 < self.forward_subtree_end@.len()
        &&& edge.0 < self.forward_preorder@.len()
        &&& self.forward_preorder@[ancestor.0 as int] != usize::MAX
        &&& self.forward_preorder@[edge.0 as int] != usize::MAX
        &&& self.forward_preorder@[ancestor.0 as int] <= self.forward_preorder@[edge.0 as int]
            < self.forward_subtree_end@[ancestor.0 as int]
    }

    /// `edge` lies between the first and the last edge of a route.
    pub open spec fn on_route(&self, id: ForwardRouteId, edge: EdgeRef) -> bool {
        id.0 < self.forward_routes@.len() && self.follows(edge, self.forward_routes@[id.0 as int].first) && self.follows(
            self.forward_routes@[id.0 as int].last,
            edge,
        )
    }

    fn forward_edge_is_ancestor(&self, ancestor: EdgeRef, edge: EdgeRef) -> (r: bool)
        ensures
            r == self.follows(ancestor, edge),
    {
        if ancestor.0 >= self.forward_preorder.len() || ancestor.0 >= self.forward_subtree_end.len() || edge.0
            >= self.forward_preorder.len() {
            return false;
        }
        let start = self.forward_preorder[ancestor.0];
        let at = self.forward_preorder[edge.0];
        start != usize::MAX && at != usize::MAX && start <= at && at < self.forward_subtree_end[ancestor.0]
    }

    pub fn forward_route_contains_edge(&self, id: ForwardRouteId, edge: EdgeRef) -> (r: bool)
        ensures
            r == self.on_route(id, edge),
    {
        if id.0 >= self.forward_routes.len() {
            return false;
        }
        let route = self.forward_routes[id.0];
        self.forward_edge_is_ancestor(edge, route.first) && self.forward_edge_is_ancestor(route.last, edge)
    }

    pub fn forward_path_contains_edge(&self, first: EdgeRef, last: EdgeRef, edge: EdgeRef) -> (r: bool)
        ensures
            r == (self.follows(edge, first) && self.follows(last, edge)),
    {
        self.forward_edge_is_ancestor(edge, first) && self.forward_edge_is_ancestor(last, edge)
    }

    /// The way goes on to lower numbers, and so does the way to the next edge that acts.
    pub open spec fn forward_wf(&self) -> bool {
        &&& forall|e: int|
            0 <= e < self.forward_next@.len() && (#[trigger] self.forward_next@[e]) is Some && e < self.forward_preorder@.len()
                ==> (self.forward_next@[e]->0).0 < self.forward_preorder@.len() && self.forward_preorder@[(
            self.forward_next@[e]->0).0 as int] < self.forward_preorder@[e]
        &&& forall|e: int|
            0 <= e < self.forward_action_head@.len() && (#[trigger] self.forward_action_head@[e]) is Some && e
                < self.forward_preorder@.len() ==> (self.forward_action_head@[e]->0).0 < self.forward_preorder@.len()
                && self.forward_preorder@[(self.forward_action_head@[e]->0).0 as int] <= self.forward_preorder@[e]
    }

    /// The edge that acts next behind `edge`.
    pub open spec fn acts_next(&self, edge: EdgeRef) -> Option<EdgeRef> {
        match entry_at(self.forward_next@, edge.0) {
            Some(n) => entry_at(self.forward_action_head@, n.0),
            None => None,
        }
    }

    pub open spec fn preorder_of(&self, edge: Option<EdgeRef>) -> nat {
        match edge {
            Some(e) => if e.0 < self.forward_preorder@.len() {
                self.forward_preorder@[e.0 as int] as nat + 1
            } else {
                0
            },
            None => 0,
        }
    }

    /// The edges that act from `current` on, as long as the route goes.
    pub open spec fn acting(&self, id: ForwardRouteId, current: Option<EdgeRef>) -> Seq<EdgeRef>
        decreases self.preorder_of(current),
    {
        match current {
            Some(e) => if self.on_route(id, e) {
                let next = self.acts_next(e);
                if self.preorder_of(next) < self.preorder_of(current) {
                    seq![e] + self.acting(id, next)
                } else {
                    seq![e]
                }
            } else {
                Seq::empty()
            },
            None => Seq::empty(),
        }
    }

    /// The edges of a route that copy values.
    pub open spec fn actions_of(&self, id: ForwardRouteId) -> Seq<EdgeRef> {
        if id.0 < self.forward_routes@.len() {
            self.acting(id, entry_at(self.forward_action_head@, self.forward_routes@[id.0 as int].first.0))
        } else {
            Seq::empty()
        }
    }

    pub fn forward_route_action_edges(&self, id: ForwardRouteId) -> (r: Vec<EdgeRef>)
        requires
            self.forward_wf(),
        ensures
            r@ == self.actions_of(id),
            forall|k: int| 0 <= k < r@.len() ==> self.on_route(id, #[trigger] r@[k]),
    {
        let mut r: Vec<EdgeRef> = Vec::new();
        if id.0 >= self.forward_routes.len() {
            assert(r@ =~= Seq::empty());
            return r;
        }
        let first = self.forward_routes[id.0].first;
        let mut current = if first.0 < self.forward_action_head.len() {
            self.forward_action_head[first.0]
        } else {
            None
        };
        while current.is_some()
            invariant
                self.forward_wf(),
                self.actions_of(id) == r@ + self.acting(id, current),
                forall|k: int| 0 <= k < r@.len() ==> self.on_route(id, #[trigger] r@[k]),
            decreases self.preorder_of(current), (if current is Some { 1nat } else { 0nat }),
        {
            let edge = current.unwrap();
            if !self.forward_route_contains_edge(id, edge) {
                assert(r@ + self.acting(id, current) =~= r@);
                return r;
            }
            let ghost before = r@;
            r.push(edge);
            let ahead = if edge.0 < self.forward_next.len() {
                self.forward_next[edge.0]
            } else {
                None
            };
            let next = match ahead {
                Some(n) => if n.0 < self.forward_action_head.len() {
                    self.forward_action_head[n.0]
                } else {
                    None
                },
                None => None,
            };
            proof {
                assert(next == self.acts_next(edge));
                if let Some(n) = ahead {
                    assert(self.forward_next@[edge.0 as int] is Some);
                    if n.0 < self.forward_action_head@.len() {
                        assert(self.forward_action_head@[n.0 as int] is Some ==> self.preorder_of(next) < self.preorder_of(current));
                    }
                }
                assert(before + self.acting(id, current) =~= r@ + self.acting(id, next));
            }
            current = next;
        }
        assert(r@ + self.acting(id, current) =~= r@);
        r
    }

    pub fn edge_action_is_forwarded_only(&self, edge: EdgeRef) -> (r: bool)
        ensures
            r == (entry_at(self.forward_kind_by_edge@, edge.0) == Some(ForwardRouteKind::ExclusiveBreak)),
    {
        edge.0 < self.forward_kind_by_edge.len() && match self.forward_kind_by_edge[edge.0] {
            Some(ForwardRouteKind::ExclusiveBreak) => true,
            _ => false,
        }
    }

    pub fn requirements(&self) -> (r: &PlanRequirements)
        ensures
            *r == self.requirements,
    {
        &self.requirements
    }

    pub fn label(&self, id: LabelPlanId) -> (r: Option<&LabelPlan>)
        ensures
            match r {
                Some(x) => id.0 < self.labels@.len() && *x == self.labels@[id.0 as int],
                None => id.0 >= self.labels@.len(),
            },
    {
        if id.0 < self.labels.len() {
            Some(&self.labels[id.0])
        } else {
            None
        }
    }

    pub fn label_for_block(&self, block: BlockRef) -> (r: Option<LabelPlanId>)
        ensures
            r == entry_at(self.label_by_block@, block.0),
    {
        if block.0 < self.label_by_block.len() {
            self.label_by_block[block.0]
        } else {
            None
        }
    }

    pub fn labels(&self) -> (r: Vec<(LabelPlanId, &LabelPlan)>)
        ensures
            r@.len() == self.labels@.len(),
            forall|i: int| 0 <= i < r@.len() ==> (#[trigger] r@[i]).0 == LabelPlanId(i as usize) && *r@[i].1 == self.labels@[i],
    {
        let n = self.labels.len();
        let mut r: Vec<(LabelPlanId, &LabelPlan)> = Vec::new();
        let mut i: usize = 0;
        while i < n
            invariant
                n == self.labels@.len(),
                i <= n,
                r@.len() == i,
                forall|k: int| 0 <= k < i ==> (#[trigger] r@[k]).0 == LabelPlanId(k as usize) && *r@[k].1 == self.labels@[k],
            decreases n - i,
        {
            r.push((LabelPlanId(i), &self.labels[i]));
            i = i + 1;
        }
        r
    }

    pub fn branch(&self, id: BranchPlanId) -> (r: Option<&BranchPlanData>)
        ensures
            match r {
                Some(x) => id.0 < self.branches@.len() && *x == self.branches@[id.0 as int],
                None => id.0 >= self.branches@.len(),
            },
    {
        if id.0 < self.branches.len() {
            Some(&self.branches[id.0])
        } else {
            None
        }
    }

    pub fn single_pass(&self, id: SinglePassPlanId) -> (r: Option<&SinglePassPlan>)
        ensures
            match r {
                Some(x) => id.0 < self.single_passes@.len() && *x == self.single_passes@[id.0 as int],
                None => id.0 >= self.single_passes@.len(),
            },
    {
        if id.0 < self.single_passes.len() {
            Some(&self.single_passes[id.0])
        } else {
            None
        }
    }

    pub fn single_pass_for_region(&self, region: RegionId) -> (r: Option<(SinglePassPlanId, &SinglePassPlan)>)
        ensures
            match (r, entry_at(self.single_pass_by_region@, region.0)) {
                (Some(x), Some(id)) => x.0 == id && id.0 < self.single_passes@.len() && *x.1 == self.single_passes@[id.0 as int],
                (None, Some(id)) => id.0 >= self.single_passes@.len(),
                (None, None) => true,
                (Some(_), None) => false,
            },
    {
        if region.0 >= self.single_pass_by_region.len() {
            return None;
        }
        match self.single_pass_by_region[region.0] {
            Some(id) => match self.single_pass(id) {
                Some(plan) => Some((id, plan)),
                None => None,
            },
            None => None,
        }
    }

    pub fn loop_(&self, id: LoopPlanId) -> (r: Option<&LoopPlanData>)
        ensures
            match r {
                Some(x) => id.0 < self.loops@.len() && *x == self.loops@[id.0 as int],
                None => id.0 >= self.loops@.len(),
            },
    {
        if id.0 < self.loops.len() {
            Some(&self.loops[id.0])
        } else {
            None
        }
    }

    pub fn loop_region(&self, id: LoopPlanId) -> (r: Option<RegionId>)
        ensures
            r == (if id.0 < self.loop_region_by_plan@.len() {
                Some(self.loop_region_by_plan@[id.0 as int])
            } else {
                None
            }),
    {
        if id.0 < self.loop_region_by_plan.len() {
            Some(self.loop_region_by_plan[id.0])
        } else {
            None
        }
    }

    /// `r` is the tail behind the loop, when there is such a loop with a tail.
    pub open spec fn is_tail_of(&self, id: Option<LoopPlanId>, r: Option<(LoopPlanId, &LoopExitTailPlan)>) -> bool {
        match id {
            Some(id) => if id.0 < self.loops@.len() && self.loops@[id.0 as int].exit_tail is Some {
                r is Some && (r->0).0 == id && *(r->0).1 == self.loops@[id.0 as int].exit_tail->0
            } else {
                r is None
            },
            None => r is None,
        }
    }

    fn tail_of(&self, id: Option<LoopPlanId>) -> (r: Option<(LoopPlanId, &LoopExitTailPlan)>)
        ensures
            self.is_tail_of(id, r),
    {
        match id {
            Some(id) => if id.0 < self.loops.len() {
                match &self.loops[id.0].exit_tail {
                    Some(tail) => Some((id, tail)),
                    None => None,
                }
            } else {
                None
            },
            None => None,
        }
    }

    pub fn loop_exit_tail_for_block(&self, block: BlockRef) -> (r: Option<(LoopPlanId, &LoopExitTailPlan)>)
        ensures
            self.is_tail_of(entry_at(self.loop_exit_tail_by_block@, block.0), r),
    {
        let id = if block.0 < self.loop_exit_tail_by_block.len() {
            self.loop_exit_tail_by_block[block.0]
        } else {
            None
        };
        self.tail_of(id)
    }

    pub fn loop_exit_tail_for_edge(&self, edge: EdgeRef) -> (r: Option<(LoopPlanId, &LoopExitTailPlan)>)
        ensures
            self.is_tail_of(entry_at(self.loop_exit_tail_by_edge@, edge.0), r),
    {
        let id = if edge.0 < self.loop_exit_tail_by_edge.len() {
            self.loop_exit_tail_by_edge[edge.0]
        } else {
            None
        };
        self.tail_of(id)
    }

    pub fn loop_exit_tail_for_cleanup_instr(&self, instr: InstrRef) -> (r: Option<(LoopPlanId, &LoopExitTailPlan)>)
        ensures
            self.is_tail_of(entry_at(self.loop_exit_tail_by_cleanup_instr@, instr.0), r),
    {
        let id = if instr.0 < self.loop_exit_tail_by_cleanup_instr.len() {
            self.loop_exit_tail_by_cleanup_instr[instr.0]
        } else {
            None
        };
        self.tail_of(id)
    }

    pub fn condition(&self, id: ConditionPlanId) -> (r: Option<&ConditionPlan>)
        ensures
            match r {
                Some(x) => id.0 < self.conditions@.len() && *x == self.conditions@[id.0 as int],
                None => id.0 >= self.conditions@.len(),
            },
    {
        if id.0 < self.conditions.len() {
            Some(&self.conditions[id.0])
        } else {
            None
        }
    }

    pub fn condition_value_owner(&self, phi: PhiId) -> (r: Option<(ConditionPlanId, ConditionNodeId)>)
        ensures
            r == entry_at(self.condition_value_by_phi@, phi.0),
    {
        if phi.0 < self.condition_value_by_phi.len() {
            self.condition_value_by_phi[phi.0]
        } else {
            None
        }
    }

    pub fn absorbed_condition_owner(&self, block: BlockRef) -> (r: Option<ConditionPlanId>)
        ensures
            r == entry_at(self.absorbed_condition_by_block@, block.0),
    {
        if block.0 < self.absorbed_condition_by_block.len() {
            self.absorbed_condition_by_block[block.0]
        } else {
            None
        }
    }

    pub fn value_decision(&self, id: ValueDecisionPlanId) -> (r: Option<&ValueDecisionPlan>)
        ensures
            match r {
                Some(x) => id.0 < self.value_decisions@.len() && *x == self.value_decisions@[id.0 as int],
                None => id.0 >= self.value_decisions@.len(),
            },
    {
        if id.0 < self.value_decisions.len() {
            Some(&self.value_decisions[id.0])
        } else {
            None
        }
    }

    pub fn value_decision_region(&self, id: ValueDecisionPlanId) -> (r: Option<RegionId>)
        ensures
            r == (if id.0 < self.value_decision_region_by_plan@.len() {
                Some(self.value_decision_region_by_plan@[id.0 as int])
            } else {
                None
            }),
    {
        if id.0 < self.value_decision_region_by_plan.len() {
            Some(self.value_decision_region_by_plan[id.0])
        } else {
            None
        }
    }

    pub fn value_decision_owner(&self, phi: PhiId) -> (r: Option<ValueDecisionPlanId>)
        ensures
            r == entry_at(self.value_decision_by_phi@, phi.0),
    {
        if phi.0 < self.value_decision_by_phi.len() {
            self.value_decision_by_phi[phi.0]
        } else {
            None
        }
    }

    pub fn scope(&self, id: ScopePlanId) -> (r: Option<&ScopePlan>)
        ensures
            match r {
                Some(x) => id.0 < self.scopes@.len() && *x == self.scopes@[id.0 as int],
                None => id.0 >= self.scopes@.len(),
            },
    {
        if id.0 < self.scopes.len() {
            Some(&self.scopes[id.0])
        } else {
            None
        }
    }

    pub fn tbc_scope(&self, id: TbcScopePlanId) -> (r: Option<&TbcScopePlan>)
        ensures
            match r {
                Some(x) => id.0 < self.tbc_scopes@.len() && *x == self.tbc_scopes@[id.0 as int],
                None => id.0 >= self.tbc_scopes@.len(),
            },
    {
        if id.0 < self.tbc_scopes.len() {
            Some(&self.tbc_scopes[id.0])
        } else {
            None
        }
    }

    pub fn branches(&self) -> (r: Vec<(BranchPlanId, &BranchPlanData)>)
        ensures
            r@.len() == self.branches@.len(),
            forall|i: int| 0 <= i < r@.len() ==> (#[trigger] r@[i]).0 == BranchPlanId(i as usize) && *r@[i].1 == self.branches@[i],
    {
        let n = self.branches.len();
        let mut r: Vec<(BranchPlanId, &BranchPlanData)> = Vec::new();
        let mut i: usize = 0;
        while i < n
            invariant
                n == self.branches@.len(),
                i <= n,
                r@.len() == i,
                forall|k: int| 0 <= k < i ==> (#[trigger] r@[k]).0 == BranchPlanId(k as usize) && *r@[k].1 == self.branches@[k],
            decreases n - i,
        {
            r.push((BranchPlanId(i), &self.branches[i]));
            i = i + 1;
        }
        r
    }

    pub fn single_passes(&self) -> (r: Vec<(SinglePassPlanId, &SinglePassPlan)>)
        ensures
            r@.len() == self.single_passes@.len(),
            forall|i: int| 0 <= i < r@.len() ==> (#[trigger] r@[i]).0 == SinglePassPlanId(i as usize) && *r@[i].1 == self.single_passes@[i],
    {
        let n = self.single_passes.len();
        let mut r: Vec<(SinglePassPlanId, &SinglePassPlan)> = Vec::new();
        let mut i: usize = 0;
        while i < n
            invariant
                n == self.single_passes@.len(),
                i <= n,
                r@.len() == i,
                forall|k: int| 0 <= k < i ==> (#[trigger] r@[k]).0 == SinglePassPlanId(k as usize) && *r@[k].1 == self.single_passes@[k],
            decreases n - i,
        {
            r.push((SinglePassPlanId(i), &self.single_passes[i]));
            i = i + 1;
        }
        r
    }

    pub fn loops(&self) -> (r: Vec<(LoopPlanId, &LoopPlanData)>)
        ensures
            r@.len() == self.loops@.len(),
            forall|i: int| 0 <= i < r@.len() ==> (#[trigger] r@[i]).0 == LoopPlanId(i as usize) && *r@[i].1 == self.loops@[i],
    {
        let n = self.loops.len();
        let mut r: Vec<(LoopPlanId, &LoopPlanData)> = Vec::new();
        let mut i: usize = 0;
        while i < n
            invariant
                n == self.loops@.len(),
                i <= n,
                r@.len() == i,
                forall|k: int| 0 <= k < i ==> (#[trigger] r@[k]).0 == LoopPlanId(k as usize) && *r@[k].1 == self.loops@[k],
            decreases n - i,
        {
            r.push((LoopPlanId(i), &self.loops[i]));
            i = i + 1;
        }
        r
    }

    pub fn conditions(&self) -> (r: Vec<(ConditionPlanId, &ConditionPlan)>)
        ensures
            r@.len() == self.conditions@.len(),
            forall|i: int| 0 <= i < r@.len() ==> (#[trigger] r@[i]).0 == ConditionPlanId(i as usize) && *r@[i].1 == self.conditions@[i],
    {
        let n = self.conditions.len();
        let mut r: Vec<(ConditionPlanId, &ConditionPlan)> = Vec::new();
        let mut i: usize = 0;
        while i < n
            invariant
                n == self.conditions@.len(),
                i <= n,
                r@.len() == i,
                forall|k: int| 0 <= k < i ==> (#[trigger] r@[k]).0 == ConditionPlanId(k as usize) && *r@[k].1 == self.conditions@[k],
            decreases n - i,
        {
            r.push((ConditionPlanId(i), &self.conditions[i]));
            i = i + 1;
        }
        r
    }

    pub fn value_decisions(&self) -> (r: Vec<(ValueDecisionPlanId, &ValueDecisionPlan)>)
        ensures
            r@.len() == self.value_decisions@.len(),
            forall|i: int| 0 <= i < r@.len() ==> (#[trigger] r@[i]).0 == ValueDecisionPlanId(i as usize) && *r@[i].1 == self.value_decisions@[i],
    {
        let n = self.value_decisions.len();
        let mut r: Vec<(ValueDecisionPlanId, &ValueDecisionPlan)> = Vec::new();
        let mut i: usize = 0;
        while i < n
            invariant
                n == self.value_decisions@.len(),
                i <= n,
                r@.len() == i,
                forall|k: int| 0 <= k < i ==> (#[trigger] r@[k]).0 == ValueDecisionPlanId(k as usize) && *r@[k].1 == self.value_decisions@[k],
            decreases n - i,
        {
            r.push((ValueDecisionPlanId(i), &self.value_decisions[i]));
            i = i + 1;
        }
        r
    }

    pub fn phi_plan(&self, phi_id: PhiId) -> (r: Option<&PhiPlan>)
        ensures
            match r {
                Some(x) => phi_id.0 < self.phis@.len() && *x == self.phis@[phi_id.0 as int],
                None => phi_id.0 >= self.phis@.len(),
            },
    {
        if phi_id.0 < self.phis.len() {
            Some(&self.phis[phi_id.0])
        } else {
            None
        }
    }

    pub fn phis(&self) -> (r: &[PhiPlan])
        ensures
            r@ == self.phis@,
    {
        self.phis.as_slice()
    }

    pub fn phis_in_block(&self, block: BlockRef) -> (r: &[PhiId])
        ensures
            r@ == row_at(self.phis_by_block@, block.0),
    {
        if block.0 < self.phis_by_block.len() {
            self.phis_by_block[block.0].as_slice()
        } else {
            let r: &[PhiId] = &[];
            assert(r@ =~= Seq::empty());
            r
        }
    }

    pub fn phis_for_region(&self, region: RegionId) -> (r: &[PhiId])
        ensures
            r@ == row_at(self.phis_by_region@, region.0),
    {
        if region.0 < self.phis_by_region.len() {
            self.phis_by_region[region.0].as_slice()
        } else {
            let r: &[PhiId] = &[];
            assert(r@ =~= Seq::empty());
            r
        }
    }

    pub fn cleanup_disposition(&self, instr: InstrRef) -> (r: Option<CleanupDisposition>)
        ensures
            r == entry_at(self.cleanup_dispositions@, instr.0),
    {
        if instr.0 < self.cleanup_dispositions.len() {
            self.cleanup_dispositions[instr.0]
        } else {
            None
        }
    }
}

} // verus!
