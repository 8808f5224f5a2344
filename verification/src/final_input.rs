//! Everything that the final plan is built from.

use vstd::prelude::*;

use crate::branches::{find_soft_merge, soft_merge};
use crate::cfg::Cfg;
use crate::condition_arcs::ShortModel;
use crate::conditions::{
    condition_models, input_known, required_header, required_loop_condition_header, ClosedControlDagEvidence,
    ConditionModel, ConditionPlanInput,
};
use crate::continuation::{goes_on_at, loop_continuation};
use crate::dataflow::DataflowFacts;
use crate::error::{Fault, StructureError};
use crate::evidence::{
    BranchCandidate, BranchKind, BranchRegionFact, BranchValueMergeCandidate, GotoRequirement, LoopCandidate,
    LoopKindHint, LoopValueArm, LoopValueMerge, RegionFact, ScopePlan, ShortCircuitCandidate, ShortCircuitExit,
    UnstructuredRegionLayout,
};
use crate::graph::GraphFacts;
use crate::helpers::fits;
use crate::ids::{BlockRef, EdgeRef};
use crate::idset::IdSet;
use crate::lir::LoweredProto;
use crate::lists::copy_list;
use crate::loop_values::{loop_models, merge_models, LoopModel};
use crate::plan::ConditionPlanId;
use crate::refine::branches_wf;
use crate::search::{first_where, first_where_least, first_where_stable};
use crate::selection::ConditionSelectionInput;
use crate::value_decisions::ValueDecisionContext;
use crate::value_selection::short_models;

verus! {

/// A branch with everything that was found out about it.
#[derive(Debug)]
pub struct BranchPlanInput {
    pub branch: BranchCandidate,
    pub region: Option<BranchRegionFact>,
    pub value_merge: Option<BranchValueMergeCandidate>,
    pub condition: Option<ConditionPlanId>,
}

#[derive(Debug)]
pub struct LoopPlanInput {
    pub candidate: LoopCandidate,
    pub condition: Option<ConditionPlanId>,
    pub continuation: Option<BlockRef>,
    pub carried_values: Vec<LoopValueMerge>,
    pub semantic_continue_edges: IdSet<EdgeRef>,
}

#[derive(Debug)]
pub struct UnstructuredPlanData {
    pub fact: RegionFact,
    pub layout: Option<UnstructuredRegionLayout>,
}

/// What the final plan is built from.
#[derive(Debug)]
pub struct FinalPlanInput {
    pub branches: Vec<BranchPlanInput>,
    pub loops: Vec<LoopPlanInput>,
    pub conditions: Vec<ConditionPlanInput>,
    pub value_decisions: Vec<ShortCircuitCandidate>,
    pub scopes: Vec<ScopePlan>,
    pub unstructured: Vec<UnstructuredPlanData>,
    pub residual_transfers: Vec<GotoRequirement>,
}

/// The block begins another iteration of the loop.
pub open spec fn begins_iteration(c: LoopModel, b: BlockRef) -> bool {
    b == c.header || c.continue_target == Some(b) || c.control.contains(b)
}

/// The branch lies in the loop's body, and one of its two targets, but not the other, begins
/// another iteration.
pub open spec fn guards_iteration(c: LoopModel, header: BlockRef, truthy: BlockRef, falsy: BlockRef) -> bool {
    &&& c.condition_header != Some(header)
    &&& c.kind == LoopKindHint::RepeatLike || c.header != header
    &&& c.blocks.contains(header) || c.scope.contains(header)
    &&& begins_iteration(c, truthy) != begins_iteration(c, falsy)
}

pub open spec fn is_smaller_loop(a: LoopModel, b: LoopModel) -> bool {
    a.scope.len() < b.scope.len() || (a.scope.len() == b.scope.len() && a.blocks.len() < b.blocks.len())
}

/// The smallest of the first `n` loops whose iteration the branch guards; the first of equals.
pub open spec fn guarded_loop(
    loops: Seq<LoopModel>,
    header: BlockRef,
    truthy: BlockRef,
    falsy: BlockRef,
    n: nat,
) -> Option<int>
    decreases n,
{
    if n == 0 {
        None
    } else {
        let best = guarded_loop(loops, header, truthy, falsy, (n - 1) as nat);
        if guards_iteration(loops[n - 1], header, truthy, falsy) && (best is None || is_smaller_loop(loops[n - 1], loops[best->0])) {
            Some(n - 1)
        } else {
            best
        }
    }
}

/// What the branch runs when it does not go on with the loop, and where it goes on.
pub open spec fn iteration_boundary(
    loops: Seq<LoopModel>,
    header: BlockRef,
    truthy: BlockRef,
    falsy: BlockRef,
) -> Option<(BlockRef, BlockRef)> {
    match guarded_loop(loops, header, truthy, falsy, loops.len()) {
        Some(i) => if begins_iteration(loops[i], truthy) {
            Some((falsy, truthy))
        } else {
            Some((truthy, falsy))
        },
        None => None,
    }
}

fn check_begins_iteration(c: &LoopCandidate, b: BlockRef) -> (r: bool)
    ensures
        r == begins_iteration(c@, b),
{
    b == c.header || c.control_blocks.contains(b) || match c.continue_target {
        Some(t) => t == b,
        None => false,
    }
}

fn check_guards_iteration(c: &LoopCandidate, header: BlockRef, truthy: BlockRef, falsy: BlockRef) -> (r: bool)
    ensures
        r == guards_iteration(c@, header, truthy, falsy),
{
    let own = match c.condition_header {
        Some(h) => h == header,
        None => false,
    };
    let repeat = match c.kind_hint {
        LoopKindHint::RepeatLike => true,
        _ => false,
    };
    !own && (repeat || c.header != header) && (c.blocks.contains(header) || c.body_scope_blocks.contains(header))
        && check_begins_iteration(c, truthy) != check_begins_iteration(c, falsy)
}

pub fn loop_guard_boundary(
    header: BlockRef,
    truthy: BlockRef,
    falsy: BlockRef,
    loops: &Vec<LoopCandidate>,
) -> (r: Option<(BlockRef, BlockRef)>)
    ensures
        r == iteration_boundary(loop_models(loops@), header, truthy, falsy),
{
    let n = loops.len();
    let ghost models = loop_models(loops@);
    let mut best: Option<usize> = None;
    let mut i: usize = 0;
    while i < n
        invariant
            n == loops@.len(),
            models == loop_models(loops@),
            i <= n,
            match guarded_loop(models, header, truthy, falsy, i as nat) {
                Some(k) => best is Some && (best->0) as int == k && best->0 < i,
                None => best is None,
            },
        decreases n - i,
    {
        let c = &loops[i];
        assert(models[i as int] == c@);
        if check_guards_iteration(c, header, truthy, falsy) {
            let better = match best {
                None => true,
                Some(b) => {
                    assert(models[b as int] == loops@[b as int]@);
                    let other = &loops[b];
                    c.body_scope_blocks.len() < other.body_scope_blocks.len() || (c.body_scope_blocks.len()
                        == other.body_scope_blocks.len() && c.blocks.len() < other.blocks.len())
                },
            };
            if better {
                best = Some(i);
            }
        }
        i = i + 1;
    }
    match best {
        Some(b) => {
            assert(models[b as int] == loops@[b as int]@);
            if check_begins_iteration(&loops[b], truthy) {
                Some((falsy, truthy))
            } else {
                Some((truthy, falsy))
            }
        },
        None => None,
    }
}

/// One of the two targets flows into the other.
pub open spec fn endpoint_boundary(g: &GraphFacts, truthy: BlockRef, falsy: BlockRef) -> Option<(BlockRef, BlockRef)> {
    if g.frontier_has(truthy, falsy) && !g.frontier_has(falsy, truthy) {
        Some((truthy, falsy))
    } else if !g.frontier_has(truthy, falsy) && g.frontier_has(falsy, truthy) {
        Some((falsy, truthy))
    } else {
        None
    }
}

pub fn branch_endpoint_boundary(
    graph_facts: &GraphFacts,
    truthy: BlockRef,
    falsy: BlockRef,
) -> (r: Option<(BlockRef, BlockRef)>)
    ensures
        r == endpoint_boundary(graph_facts, truthy, falsy),
{
    let a = graph_facts.joins(truthy, falsy);
    let b = graph_facts.joins(falsy, truthy);
    if a && !b {
        Some((truthy, falsy))
    } else if !a && b {
        Some((falsy, truthy))
    } else {
        None
    }
}

pub open spec fn as_guard(b: BranchCandidate, ends: (BlockRef, BlockRef)) -> BranchCandidate {
    BranchCandidate {
        header: b.header,
        then_entry: ends.0,
        else_entry: None,
        merge: Some(ends.1),
        kind: BranchKind::Guard,
        invert_hint: false,
    }
}

/// The branch with the bounds of a condition of several tests: what it was, when the condition
/// does not change it.
pub open spec fn rebounded(
    cfg: &Cfg,
    g: &GraphFacts,
    loops: Seq<LoopModel>,
    b: BranchCandidate,
    s: ShortModel,
) -> Option<BranchCandidate> {
    match s.exit {
        ShortCircuitExit::BranchExit { truthy, falsy } => if s.nodes.len() <= 1 {
            None
        } else {
            match (iteration_boundary(loops, b.header, truthy, falsy), endpoint_boundary(g, truthy, falsy)) {
                (Some(ends), _) => Some(as_guard(b, ends)),
                (None, Some(ends)) => Some(as_guard(b, ends)),
                (None, None) => match soft_merge(cfg, g, b.header, truthy, falsy) {
                    Some(m) => if m == truthy || m == falsy || s.blocks.contains(m) || (b.merge is Some && b.merge->0 != truthy
                        && b.merge->0 != falsy && !g.dom(m, b.merge->0)) {
                        None
                    } else {
                        Some(
                            BranchCandidate {
                                header: b.header,
                                then_entry: truthy,
                                else_entry: Some(falsy),
                                merge: Some(m),
                                kind: BranchKind::IfElse,
                                invert_hint: false,
                            },
                        )
                    },
                    None => None,
                },
            }
        },
        ShortCircuitExit::ValueMerge(_) => None,
    }
}

pub fn normalize_branch_condition_boundary(
    cfg: &Cfg,
    graph_facts: &GraphFacts,
    loops: &Vec<LoopCandidate>,
    branch: BranchCandidate,
    condition: &ConditionPlanInput,
) -> (r: Option<BranchCandidate>)
    requires
        graph_facts.sized(cfg),
    ensures
        r == rebounded(cfg, graph_facts, loop_models(loops@), branch, condition@.s),
{
    if condition.candidate.nodes.len() <= 1 {
        return None;
    }
    let (truthy, falsy) = match condition.candidate.exit {
        ShortCircuitExit::BranchExit { truthy, falsy } => (truthy, falsy),
        ShortCircuitExit::ValueMerge(_) => {
            return None;
        },
    };
    let ends = match loop_guard_boundary(branch.header, truthy, falsy, loops) {
        Some(ends) => Some(ends),
        None => branch_endpoint_boundary(graph_facts, truthy, falsy),
    };
    if let Some((then_entry, continuation)) = ends {
        return Some(
            BranchCandidate {
                header: branch.header,
                then_entry,
                else_entry: None,
                merge: Some(continuation),
                kind: BranchKind::Guard,
                invert_hint: false,
            },
        );
    }
    let merge = match find_soft_merge(cfg, graph_facts, branch.header, truthy, falsy) {
        Some(m) => m,
        None => {
            return None;
        },
    };
    let outside = match branch.merge {
        Some(current) => current != truthy && current != falsy && !graph_facts.dominates(merge, current),
        None => false,
    };
    if merge == truthy || merge == falsy || condition.candidate.blocks.contains(merge) || outside {
        return None;
    }
    Some(
        BranchCandidate {
            header: branch.header,
            then_entry: truthy,
            else_entry: Some(falsy),
            merge: Some(merge),
            kind: BranchKind::IfElse,
            invert_hint: false,
        },
    )
}

pub open spec fn region_of(list: Seq<BranchRegionFact>, h: BlockRef) -> spec_fn(int) -> bool {
    |i: int| list[i].header == h
}

/// The header of the region has come before.
pub open spec fn region_again(list: Seq<BranchRegionFact>) -> spec_fn(int) -> bool {
    |i: int| first_where(i as nat, region_of(list, list[i].header)) is Some
}

pub open spec fn region_fault(list: Seq<BranchRegionFact>) -> Option<Fault> {
    match first_where(list.len(), region_again(list)) {
        Some(i) => Some(Fault::BranchRegionTwice(list[i].header)),
        None => None,
    }
}

fn find_region(list: &Vec<BranchRegionFact>, h: BlockRef, n: usize) -> (r: Option<usize>)
    requires
        n <= list@.len(),
    ensures
        match first_where(n as nat, region_of(list@, h)) {
            Some(i) => r is Some && (r->0) as int == i && r->0 < n,
            None => r is None,
        },
{
    let ghost p = region_of(list@, h);
    let mut i: usize = 0;
    while i < n
        invariant
            n <= list@.len(),
            p == region_of(list@, h),
            i <= n,
            first_where(i as nat, p) is None,
        decreases n - i,
    {
        assert(p(i as int) == (list@[i as int].header == h));
        if list[i].header == h {
            proof {
                first_where_stable((i + 1) as nat, n as nat, p);
            }
            return Some(i);
        }
        i = i + 1;
    }
    None
}

/// Refuses two regions for one branch.
pub fn unique_branch_regions(list: &Vec<BranchRegionFact>) -> (r: Result<(), StructureError>)
    ensures
        match r {
            Ok(_) => region_fault(list@) is None,
            Err(e) => region_fault(list@) == Some(e.fault),
        },
{
    let n = list.len();
    let ghost p = region_again(list@);
    let mut i: usize = 0;
    while i < n
        invariant
            n == list@.len(),
            p == region_again(list@),
            i <= n,
            first_where(i as nat, p) is None,
        decreases n - i,
    {
        let h = list[i].header;
        let found = find_region(list, h, i);
        assert(p(i as int) == found is Some);
        if found.is_some() {
            proof {
                first_where_stable((i + 1) as nat, n as nat, p);
            }
            return Err(StructureError::invalid(Fault::BranchRegionTwice(h)));
        }
        i = i + 1;
    }
    Ok(())
}

pub open spec fn values_of(list: Seq<BranchValueMergeCandidate>, h: BlockRef, m: BlockRef) -> spec_fn(int) -> bool {
    |i: int| list[i].header == h && list[i].merge == m
}

pub open spec fn values_again(list: Seq<BranchValueMergeCandidate>) -> spec_fn(int) -> bool {
    |i: int| first_where(i as nat, values_of(list, list[i].header, list[i].merge)) is Some
}

pub open spec fn values_fault(list: Seq<BranchValueMergeCandidate>) -> Option<Fault> {
    match first_where(list.len(), values_again(list)) {
        Some(i) => Some(Fault::BranchValuesTwice(list[i].header, list[i].merge)),
        None => None,
    }
}

fn find_values(list: &Vec<BranchValueMergeCandidate>, h: BlockRef, m: BlockRef, n: usize) -> (r: Option<usize>)
    requires
        n <= list@.len(),
    ensures
        match first_where(n as nat, values_of(list@, h, m)) {
            Some(i) => r is Some && (r->0) as int == i && r->0 < n,
            None => r is None,
        },
{
    let ghost p = values_of(list@, h, m);
    let mut i: usize = 0;
    while i < n
        invariant
            n <= list@.len(),
            p == values_of(list@, h, m),
            i <= n,
            first_where(i as nat, p) is None,
        decreases n - i,
    {
        assert(p(i as int) == (list@[i as int].header == h && list@[i as int].merge == m));
        if list[i].header == h && list[i].merge == m {
            proof {
                first_where_stable((i + 1) as nat, n as nat, p);
            }
            return Some(i);
        }
        i = i + 1;
    }
    None
}

/// Refuses two lists of values for one branch and the block behind it.
pub fn unique_branch_value_merges(list: &Vec<BranchValueMergeCandidate>) -> (r: Result<(), StructureError>)
    ensures
        match r {
            Ok(_) => values_fault(list@) is None,
            Err(e) => values_fault(list@) == Some(e.fault),
        },
{
    let n = list.len();
    let ghost p = values_again(list@);
    let mut i: usize = 0;
    while i < n
        invariant
            n == list@.len(),
            p == values_again(list@),
            i <= n,
            first_where(i as nat, p) is None,
        decreases n - i,
    {
        let h = list[i].header;
        let m = list[i].merge;
        let found = find_values(list, h, m, i);
        assert(p(i as int) == found is Some);
        if found.is_some() {
            proof {
                first_where_stable((i + 1) as nat, n as nat, p);
            }
            return Err(StructureError::invalid(Fault::BranchValuesTwice(h, m)));
        }
        i = i + 1;
    }
    Ok(())
}

/// What was found out about a prototype.
pub struct PlanEvidence {
    pub branches: Vec<BranchCandidate>,
    pub branch_regions: Vec<BranchRegionFact>,
    pub branch_value_merges: Vec<BranchValueMergeCandidate>,
    pub loops: Vec<LoopCandidate>,
    pub condition_candidates: Vec<ShortCircuitCandidate>,
    pub value_candidates: Vec<ShortCircuitCandidate>,
    pub closed_control_dags: Vec<ClosedControlDagEvidence>,
    pub residual_transfers: Vec<GotoRequirement>,
    pub regions: Vec<RegionFact>,
    pub scopes: Vec<ScopePlan>,
}

/// What the evidence is read against.
pub struct PlanContext<'a> {
    pub proto: &'a LoweredProto,
    pub cfg: &'a Cfg,
    pub dataflow: &'a DataflowFacts,
    pub graph: &'a GraphFacts,
    /// The language can continue loops.
    pub can_continue: bool,
}

impl<'a> PlanContext<'a> {
    pub open spec fn selection(&self, e: &'a PlanEvidence) -> ConditionSelectionInput<'a> {
        ConditionSelectionInput {
            proto: self.proto,
            cfg: self.cfg,
            dataflow: self.dataflow,
            loops: &e.loops,
            can_continue: self.can_continue,
            branches: &e.branches,
            candidates: &e.condition_candidates,
            closed_control_dags: &e.closed_control_dags,
            residual_transfers: &e.residual_transfers,
        }
    }

    pub open spec fn values(&self, e: &'a PlanEvidence) -> ValueDecisionContext<'a> {
        ValueDecisionContext {
            proto: self.proto,
            cfg: self.cfg,
            dataflow: self.dataflow,
            loops: &e.loops,
            residual_transfers: &e.residual_transfers,
        }
    }

    pub open spec fn wf(&self, e: &'a PlanEvidence) -> bool {
        &&& self.graph.sized(self.cfg)
        &&& self.selection(e).wf()
        &&& self.values(e).wf()
    }

    /// The number of the condition that starts at a block.
    pub open spec fn condition_id(&self, e: &'a PlanEvidence, h: BlockRef) -> Option<ConditionPlanId> {
        if self.cfg.has_block(h) && self.selection(e).chosen(h) is Some {
            Some(ConditionPlanId(self.selection(e).chosen_upto(h.0 as nat).len() as usize))
        } else {
            None
        }
    }

    /// The condition that starts at a block.
    pub open spec fn condition_at(&self, e: &'a PlanEvidence, h: BlockRef) -> Option<ConditionModel> {
        match self.condition_id(e, h) {
            Some(id) => if id.0 < self.selection(e).all_conditions().len() {
                Some(self.selection(e).all_conditions()[id.0 as int])
            } else {
                None
            },
            None => None,
        }
    }

    pub open spec fn region_at(e: &PlanEvidence, h: BlockRef) -> Option<int> {
        first_where(e.branch_regions@.len(), region_of(e.branch_regions@, h))
    }

    /// The new bounds of a branch; a branch whose region runs once keeps its own.
    pub open spec fn new_bounds(&self, e: &'a PlanEvidence, b: BranchCandidate) -> Option<BranchCandidate> {
        let at = Self::region_at(e, b.header);
        if at is Some && e.branch_regions@[at->0].single_pass_fence is Some {
            None
        } else {
            match self.condition_at(e, b.header) {
                Some(m) => rebounded(self.cfg, self.graph, loop_models(e.loops@), b, m.s),
                None => None,
            }
        }
    }

    pub open spec fn bounded(&self, e: &'a PlanEvidence, b: BranchCandidate) -> BranchCandidate {
        match self.new_bounds(e, b) {
            Some(n) => n,
            None => b,
        }
    }

    /// The region below the branch, as it stands without anything else known.
    pub open spec fn is_fresh(&self, r: &BranchRegionFact, b: BranchCandidate, merge: BlockRef) -> bool {
        &&& r.header == b.header
        &&& r.merge == merge
        &&& r.kind == b.kind
        &&& r.single_pass_fence is None
        &&& r.domain.included_blocks@.len() == 0
        &&& r.domain.spans@.len() == 1
        &&& r.domain.spans@[0].root == b.header
        &&& r.domain.spans@[0].excluded_subtrees@ == (if self.graph.dom(merge, b.header) {
            Seq::empty()
        } else {
            seq![merge]
        })
    }

    /// The region of the branch: the one that was found, unless the bounds changed and it ends
    /// elsewhere.
    pub open spec fn region_ok(&self, e: &'a PlanEvidence, b: BranchCandidate, r: Option<BranchRegionFact>) -> bool {
        let now = self.bounded(e, b);
        let at = Self::region_at(e, b.header);
        if at is Some && (self.new_bounds(e, b) is None || Some(e.branch_regions@[at->0].merge) == now.merge) {
            r == Some(e.branch_regions@[at->0])
        } else {
            match now.merge {
                Some(m) => r is Some && self.is_fresh(&(r->0), now, m),
                None => r is None,
            }
        }
    }

    pub open spec fn values_at(e: &PlanEvidence, b: BranchCandidate) -> Option<BranchValueMergeCandidate> {
        match b.merge {
            Some(m) => match first_where(e.branch_value_merges@.len(), values_of(e.branch_value_merges@, b.header, m)) {
                Some(k) => Some(e.branch_value_merges@[k]),
                None => None,
            },
            None => None,
        }
    }

    pub open spec fn branch_ok(&self, e: &'a PlanEvidence, b: BranchCandidate, r: &BranchPlanInput) -> bool {
        &&& r.branch == self.bounded(e, b)
        &&& r.condition == self.condition_id(e, b.header)
        &&& self.region_ok(e, b, r.region)
        &&& r.value_merge == Self::values_at(e, self.bounded(e, b))
    }

    pub open spec fn loop_ok(&self, e: &'a PlanEvidence, c: LoopCandidate, r: &LoopPlanInput) -> bool {
        let at = required_header(self.cfg, c@);
        &&& r.candidate == c
        &&& r.condition == (match at {
            Some(h) => self.condition_id(e, h),
            None => None,
        })
        &&& r.continuation == goes_on_at(
            self.proto,
            self.cfg,
            self.graph,
            c@,
            c.exits.seq(),
            match at {
                Some(h) => self.condition_at(e, h),
                None => None,
            },
        )
        &&& merge_models(r.carried_values@) == c@.header_values
        &&& r.semantic_continue_edges@ == Set::<EdgeRef>::empty()
    }

    pub open spec fn result_ok(&self, e: &'a PlanEvidence, r: &FinalPlanInput) -> bool {
        &&& r.branches@.len() == e.branches@.len()
        &&& forall|i: int| 0 <= i < r.branches@.len() ==> self.branch_ok(e, e.branches@[i], #[trigger] &r.branches@[i])
        &&& r.loops@.len() == e.loops@.len()
        &&& forall|i: int| 0 <= i < r.loops@.len() ==> self.loop_ok(e, e.loops@[i], #[trigger] &r.loops@[i])
        &&& condition_models(r.conditions@) == self.selection(e).all_conditions()
        &&& short_models(r.value_decisions@) == self.values(e).values_upto(
            short_models(e.value_candidates@),
            self.dataflow.phi_candidates@.len(),
        )
        &&& r.scopes == e.scopes
        &&& r.unstructured@.len() == e.regions@.len()
        &&& forall|i: int|
            0 <= i < r.unstructured@.len() ==> (#[trigger] r.unstructured@[i]).fact == e.regions@[i] && r.unstructured@[i].layout is None
        &&& r.residual_transfers == e.residual_transfers
    }

    pub open spec fn fault(e: &PlanEvidence) -> Option<Fault> {
        match region_fault(e.branch_regions@) {
            Some(f) => Some(f),
            None => values_fault(e.branch_value_merges@),
        }
    }
}

/// The items, each in a slot from which it can be taken.
fn in_slots<T>(list: Vec<T>) -> (r: Vec<Option<T>>)
    ensures
        r@.len() == list@.len(),
        forall|i: int| 0 <= i < r@.len() ==> #[trigger] r@[i] == Some(list@[i]),
{
    let n = list.len();
    let mut rest = list;
    let mut reversed: Vec<T> = Vec::new();
    while rest.len() > 0
        invariant
            n == list@.len(),
            rest@.len() + reversed@.len() == n,
            rest@ == list@.subrange(0, rest@.len() as int),
            forall|k: int| 0 <= k < reversed@.len() ==> #[trigger] reversed@[k] == list@[n - 1 - k],
        decreases rest@.len(),
    {
        let x = rest.pop().unwrap();
        reversed.push(x);
        assert(rest@ =~= list@.subrange(0, rest@.len() as int));
    }
    let mut r: Vec<Option<T>> = Vec::new();
    while reversed.len() > 0
        invariant
            n == list@.len(),
            r@.len() + reversed@.len() == n,
            forall|k: int| 0 <= k < reversed@.len() ==> #[trigger] reversed@[k] == list@[n - 1 - k],
            forall|i: int| 0 <= i < r@.len() ==> #[trigger] r@[i] == Some(list@[i]),
        decreases reversed@.len(),
    {
        let ghost k = reversed@.len() - 1;
        assert(reversed@[k] == list@[n - 1 - k]);
        let x = reversed.pop().unwrap();
        r.push(Some(x));
    }
    r
}

fn copy_merges(list: &Vec<LoopValueMerge>) -> (r: Vec<LoopValueMerge>)
    ensures
        merge_models(r@) == merge_models(list@),
{
    let n = list.len();
    let mut r: Vec<LoopValueMerge> = Vec::new();
    let mut i: usize = 0;
    while i < n
        invariant
            n == list@.len(),
            i <= n,
            r@.len() == i,
            forall|k: int| 0 <= k < i ==> (#[trigger] r@[k])@ == list@[k]@,
        decreases n - i,
    {
        let m = &list[i];
        r.push(
            LoopValueMerge {
                phi_id: m.phi_id,
                reg: m.reg,
                inside_arm: LoopValueArm { incomings: copy_list(&m.inside_arm.incomings) },
                outside_arm: LoopValueArm { incomings: copy_list(&m.outside_arm.incomings) },
            },
        );
        i = i + 1;
    }
    assert(merge_models(r@) =~= merge_models(list@));
    r
}

/// The conditions as they were chosen.
struct Chosen {
    conditions: Vec<ConditionPlanInput>,
    ids: Vec<Option<ConditionPlanId>>,
}

impl<'a> PlanContext<'a> {
    spec fn chosen_ok(&self, e: &'a PlanEvidence, c: &Chosen) -> bool {
        &&& condition_models(c.conditions@) == self.selection(e).all_conditions()
        &&& forall|i: int| 0 <= i < c.conditions@.len() ==> input_known(self.cfg, #[trigger] &c.conditions@[i])
        &&& c.ids@.len() == self.cfg.blocks@.len()
        &&& forall|h: int| 0 <= h < c.ids@.len() ==> #[trigger] c.ids@[h] == self.condition_id(e, BlockRef(h as usize))
    }

    fn find_id(&self, Ghost(e): Ghost<&'a PlanEvidence>, c: &Chosen, h: BlockRef) -> (r: Option<ConditionPlanId>)
        requires
            self.chosen_ok(e, c),
        ensures
            r == self.condition_id(e, h),
    {
        if h.0 < c.ids.len() {
            assert(c.ids@[h.0 as int] == self.condition_id(e, BlockRef(h.0)));
            c.ids[h.0]
        } else {
            None
        }
    }

    fn find_condition<'b>(
        &self,
        Ghost(e): Ghost<&'a PlanEvidence>,
        c: &'b Chosen,
        h: BlockRef,
    ) -> (r: Option<&'b ConditionPlanInput>)
        requires
            self.chosen_ok(e, c),
        ensures
            match self.condition_at(e, h) {
                Some(m) => r is Some && (r->0)@ == m && input_known(self.cfg, r->0),
                None => r is None,
            },
    {
        assert(condition_models(c.conditions@).len() == c.conditions@.len());
        match self.find_id(Ghost(e), c, h) {
            Some(id) => if id.0 < c.conditions.len() {
                assert(condition_models(c.conditions@)[id.0 as int] == c.conditions@[id.0 as int]@);
                assert(input_known(self.cfg, &c.conditions@[id.0 as int]));
                Some(&c.conditions[id.0])
            } else {
                None
            },
            None => None,
        }
    }

    /// The loops with their conditions and where they go on.
    fn plan_loops(
        &self,
        e: &'a PlanEvidence,
        c: &Chosen,
    ) -> (r: (Vec<Option<ConditionPlanId>>, Vec<Option<BlockRef>>, Vec<Vec<LoopValueMerge>>))
        requires
            self.wf(e),
            self.chosen_ok(e, c),
        ensures
            (r.0)@.len() == e.loops@.len(),
            (r.1)@.len() == e.loops@.len(),
            (r.2)@.len() == e.loops@.len(),
            forall|i: int| 0 <= i < e.loops@.len() ==> #[trigger] self.loop_parts_ok(e, i, (r.0)@[i], (r.1)@[i], (r.2)@[i]),
    {
        let n = e.loops.len();
        let mut ids: Vec<Option<ConditionPlanId>> = Vec::new();
        let mut ends: Vec<Option<BlockRef>> = Vec::new();
        let mut carried: Vec<Vec<LoopValueMerge>> = Vec::new();
        let mut i: usize = 0;
        while i < n
            invariant
                self.wf(e),
                self.chosen_ok(e, c),
                n == e.loops@.len(),
                i <= n,
                ids@.len() == i,
                ends@.len() == i,
                carried@.len() == i,
                forall|k: int| 0 <= k < i ==> #[trigger] self.loop_parts_ok(e, k, ids@[k], ends@[k], carried@[k]),
            decreases n - i,
        {
            let l = &e.loops[i];
            assert(self.selection(e).loops@[i as int].wf(self.cfg));
            assert(fits(self.selection(e).proto, self.selection(e).cfg));
            let at = required_loop_condition_header(self.cfg, l);
            let id = match at {
                Some(h) => self.find_id(Ghost(e), c, h),
                None => None,
            };
            let condition = match at {
                Some(h) => self.find_condition(Ghost(e), c, h),
                None => None,
            };
            let end = loop_continuation(self.proto, self.cfg, self.graph, l, condition);
            let ghost before = (ids@, ends@, carried@);
            ids.push(id);
            ends.push(end);
            carried.push(copy_merges(&l.header_value_merges));
            proof {
                assert forall|k: int| 0 <= k < i + 1 implies #[trigger] self.loop_parts_ok(e, k, ids@[k], ends@[k], carried@[k]) by {
                    if k < i {
                        assert(self.loop_parts_ok(e, k, before.0[k], before.1[k], before.2[k]));
                    }
                }
            }
            i = i + 1;
        }
        (ids, ends, carried)
    }

    spec fn loop_parts_ok(
        &self,
        e: &'a PlanEvidence,
        i: int,
        id: Option<ConditionPlanId>,
        end: Option<BlockRef>,
        carried: Vec<LoopValueMerge>,
    ) -> bool {
        let c = e.loops@[i];
        let at = required_header(self.cfg, c@);
        &&& id == (match at {
            Some(h) => self.condition_id(e, h),
            None => None,
        })
        &&& end == goes_on_at(
            self.proto,
            self.cfg,
            self.graph,
            c@,
            c.exits.seq(),
            match at {
                Some(h) => self.condition_at(e, h),
                None => None,
            },
        )
        &&& merge_models(carried@) == c@.header_values
    }

    /// The new bounds of the branches, with the numbers of their conditions.
    fn plan_branches(
        &self,
        e: &'a PlanEvidence,
        c: &Chosen,
    ) -> (r: (Vec<Option<BranchCandidate>>, Vec<Option<ConditionPlanId>>))
        requires
            self.wf(e),
            self.chosen_ok(e, c),
        ensures
            (r.0)@.len() == e.branches@.len(),
            (r.1)@.len() == e.branches@.len(),
            forall|i: int| 0 <= i < e.branches@.len() ==> #[trigger] (r.0)@[i] == self.new_bounds(e, e.branches@[i]),
            forall|i: int| 0 <= i < e.branches@.len() ==> #[trigger] (r.1)@[i] == self.condition_id(e, e.branches@[i].header),
    {
        let n = e.branches.len();
        let mut bounds: Vec<Option<BranchCandidate>> = Vec::new();
        let mut ids: Vec<Option<ConditionPlanId>> = Vec::new();
        let mut i: usize = 0;
        while i < n
            invariant
                self.wf(e),
                self.chosen_ok(e, c),
                n == e.branches@.len(),
                i <= n,
                bounds@.len() == i,
                ids@.len() == i,
                forall|k: int| 0 <= k < i ==> #[trigger] bounds@[k] == self.new_bounds(e, e.branches@[k]),
                forall|k: int| 0 <= k < i ==> #[trigger] ids@[k] == self.condition_id(e, e.branches@[k].header),
            decreases n - i,
        {
            let b = e.branches[i];
            let fenced = match find_region(&e.branch_regions, b.header, e.branch_regions.len()) {
                Some(k) => e.branch_regions[k].single_pass_fence.is_some(),
                None => false,
            };
            let changed = if fenced {
                None
            } else {
                match self.find_condition(Ghost(e), c, b.header) {
                    Some(m) => normalize_branch_condition_boundary(self.cfg, self.graph, &e.loops, b, m),
                    None => None,
                }
            };
            ids.push(self.find_id(Ghost(e), c, b.header));
            bounds.push(changed);
            i = i + 1;
        }
        (bounds, ids)
    }
}

/// What remains of the regions after those of the first `n` branches may have been taken.
spec fn regions_left(e: &PlanEvidence, n: int, slots: Seq<Option<BranchRegionFact>>) -> bool {
    &&& slots.len() == e.branch_regions@.len()
    &&& forall|k: int| #![trigger slots[k]]
        0 <= k < slots.len() && !headed_before(e, n, e.branch_regions@[k].header) ==> slots[k] == Some(e.branch_regions@[k])
}

spec fn values_left(e: &PlanEvidence, n: int, slots: Seq<Option<BranchValueMergeCandidate>>) -> bool {
    &&& slots.len() == e.branch_value_merges@.len()
    &&& forall|k: int| #![trigger slots[k]]
        0 <= k < slots.len() && !headed_before(e, n, e.branch_value_merges@[k].header) ==> slots[k] == Some(
            e.branch_value_merges@[k],
        )
}

spec fn headed_before(e: &PlanEvidence, n: int, h: BlockRef) -> bool {
    exists|j: int| 0 <= j < n && (#[trigger] e.branches@[j]).header == h
}

proof fn header_is_new(cfg: &Cfg, e: &PlanEvidence, i: int)
    requires
        branches_wf(cfg, e.branches@),
        0 <= i < e.branches@.len(),
    ensures
        !headed_before(e, i, e.branches@[i].header),
{
    if headed_before(e, i, e.branches@[i].header) {
        let j = choose|j: int| 0 <= j < i && (#[trigger] e.branches@[j]).header == e.branches@[i].header;
        assert(e.branches@[j].header != e.branches@[i].header);
    }
}

fn take_region(
    slots: &mut Vec<Option<BranchRegionFact>>,
    at: usize,
    Ghost(e): Ghost<&PlanEvidence>,
    Ghost(n): Ghost<int>,
) -> (r: Option<
    BranchRegionFact,
>)
    requires
        0 <= n < e.branches@.len(),
        regions_left(e, n, old(slots)@),
        at < old(slots)@.len(),
        e.branch_regions@[at as int].header == e.branches@[n].header,
    ensures
        r == old(slots)@[at as int],
        regions_left(e, n + 1, final(slots)@),
{
    let mut r: Option<BranchRegionFact> = None;
    std::mem::swap(&mut r, &mut slots[at]);
    proof {
        assert forall|k: int| #![trigger slots@[k]]
            0 <= k < slots@.len() && !headed_before(e, n + 1, e.branch_regions@[k].header) implies slots@[k] == Some(
            e.branch_regions@[k],
        ) by {
            if headed_before(e, n, e.branch_regions@[k].header) {
                let j = choose|j: int| 0 <= j < n && (#[trigger] e.branches@[j]).header == e.branch_regions@[k].header;
                assert(0 <= j < n + 1 && e.branches@[j].header == e.branch_regions@[k].header);
            }
            if k == at {
                assert(0 <= n < n + 1 && e.branches@[n].header == e.branch_regions@[k].header);
            } else {
                assert(slots@[k] == old(slots)@[k]);
            }
        }
    }
    r
}

fn take_values(
    slots: &mut Vec<Option<BranchValueMergeCandidate>>,
    at: usize,
    Ghost(e): Ghost<&PlanEvidence>,
    Ghost(n): Ghost<int>,
) -> (r: Option<BranchValueMergeCandidate>)
    requires
        0 <= n < e.branches@.len(),
        values_left(e, n, old(slots)@),
        at < old(slots)@.len(),
        e.branch_value_merges@[at as int].header == e.branches@[n].header,
    ensures
        r == old(slots)@[at as int],
        values_left(e, n + 1, final(slots)@),
{
    let mut r: Option<BranchValueMergeCandidate> = None;
    std::mem::swap(&mut r, &mut slots[at]);
    proof {
        assert forall|k: int| #![trigger slots@[k]]
            0 <= k < slots@.len() && !headed_before(e, n + 1, e.branch_value_merges@[k].header) implies slots@[k] == Some(
            e.branch_value_merges@[k],
        ) by {
            if headed_before(e, n, e.branch_value_merges@[k].header) {
                let j = choose|j: int| 0 <= j < n && (#[trigger] e.branches@[j]).header == e.branch_value_merges@[k].header;
                assert(0 <= j < n + 1 && e.branches@[j].header == e.branch_value_merges@[k].header);
            }
            if k == at {
                assert(0 <= n < n + 1 && e.branches@[n].header == e.branch_value_merges@[k].header);
            } else {
                assert(slots@[k] == old(slots)@[k]);
            }
        }
    }
    r
}

proof fn left_later(
    e: &PlanEvidence,
    n: int,
    regions: Seq<Option<BranchRegionFact>>,
    values: Seq<Option<BranchValueMergeCandidate>>,
)
    requires
        n >= 0,
    ensures
        regions_left(e, n, regions) ==> regions_left(e, n + 1, regions),
        values_left(e, n, values) ==> values_left(e, n + 1, values),
{
    assert forall|h: BlockRef| headed_before(e, n, h) implies #[trigger] headed_before(e, n + 1, h) by {
        let j = choose|j: int| 0 <= j < n && (#[trigger] e.branches@[j]).header == h;
        assert(0 <= j < n + 1 && e.branches@[j].header == h);
    }
}

/// Where in the evidence the region and the values of a branch stand.
struct Places {
    region: Option<usize>,
    values: Option<usize>,
}

impl<'a> PlanContext<'a> {
    spec fn places_ok(&self, e: &'a PlanEvidence, b: BranchCandidate, p: &Places) -> bool {
        let now = self.bounded(e, b);
        let at = Self::region_at(e, b.header);
        &&& match p.region {
            Some(k) => at == Some(k as int) && k < e.branch_regions@.len() && e.branch_regions@[k as int].header == b.header && (
            self.new_bounds(e, b) is None || Some(e.branch_regions@[k as int].merge) == now.merge),
            None => !(at is Some && (self.new_bounds(e, b) is None || Some(e.branch_regions@[at->0].merge) == now.merge)),
        }
        &&& match p.values {
            Some(k) => k < e.branch_value_merges@.len() && e.branch_value_merges@[k as int].header == b.header && Self::values_at(e, now)
                == Some(e.branch_value_merges@[k as int]),
            None => Self::values_at(e, now) is None,
        }
    }

    fn find_places(&self, e: &'a PlanEvidence, b: BranchCandidate, changed: Option<BranchCandidate>) -> (r: Places)
        requires
            changed == self.new_bounds(e, b),
        ensures
            self.places_ok(e, b, &r),
    {
        let now = match changed {
            Some(n) => n,
            None => b,
        };
        proof {
            rebounded_keeps_header(self, e, b);
            first_where_least(e.branch_regions@.len(), region_of(e.branch_regions@, b.header));
        }
        let region = match find_region(&e.branch_regions, b.header, e.branch_regions.len()) {
            Some(k) => {
                let same_end = match now.merge {
                    Some(m) => m == e.branch_regions[k].merge,
                    None => false,
                };
                if changed.is_none() || same_end {
                    Some(k)
                } else {
                    None
                }
            },
            None => None,
        };
        let values = match now.merge {
            Some(m) => {
                proof {
                    first_where_least(e.branch_value_merges@.len(), values_of(e.branch_value_merges@, now.header, m));
                }
                find_values(&e.branch_value_merges, now.header, m, e.branch_value_merges.len())
            },
            None => None,
        };
        Places { region, values }
    }
}

proof fn rebounded_keeps_header<'a>(c: &PlanContext<'a>, e: &'a PlanEvidence, b: BranchCandidate)
    ensures
        c.bounded(e, b).header == b.header,
{
}

/// Puts together everything that the final plan is built from. Two regions or two lists of
/// values for the same branch are refused.
pub fn final_plan_input(context: &PlanContext, evidence: PlanEvidence) -> (r: Result<FinalPlanInput, StructureError>)
    requires
        context.wf(&evidence),
    ensures
        match r {
            Ok(f) => PlanContext::fault(&evidence) is None && context.result_ok(&evidence, &f),
            Err(e) => PlanContext::fault(&evidence) == Some(e.fault),
        },
{
    if let Err(e) = unique_branch_regions(&evidence.branch_regions) {
        return Err(e);
    }
    if let Err(e) = unique_branch_value_merges(&evidence.branch_value_merges) {
        return Err(e);
    }
    let ghost whole = &evidence;
    let (conditions, ids) = choose_conditions(context, &evidence);
    let value_decisions = choose_values(context, &evidence);
    let chosen = Chosen { conditions, ids };
    assert(context.chosen_ok(whole, &chosen));
    let (loop_ids, loop_ends, loop_carried) = context.plan_loops(&evidence, &chosen);
    let (bounds, branch_ids) = context.plan_branches(&evidence, &chosen);
    let n = evidence.branches.len();
    let mut places: Vec<Places> = Vec::new();
    let mut i: usize = 0;
    while i < n
        invariant
            n == evidence.branches@.len(),
            bounds@.len() == n,
            forall|k: int| 0 <= k < n ==> #[trigger] bounds@[k] == context.new_bounds(&evidence, evidence.branches@[k]),
            i <= n,
            places@.len() == i,
            forall|k: int| 0 <= k < i ==> context.places_ok(&evidence, evidence.branches@[k], #[trigger] &places@[k]),
        decreases n - i,
    {
        assert(bounds@[i as int] == context.new_bounds(&evidence, evidence.branches@[i as int]));
        places.push(context.find_places(&evidence, evidence.branches[i], bounds[i]));
        i = i + 1;
    }
    let branch_list = evidence.branches;
    let mut region_slots = in_slots(evidence.branch_regions);
    let mut value_slots = in_slots(evidence.branch_value_merges);
    let mut branches: Vec<BranchPlanInput> = Vec::new();
    let mut k: usize = 0;
    while k < n
        invariant
            context.wf(whole),
            n == branch_list@.len(),
            branch_list@ == whole.branches@,
            bounds@.len() == n,
            forall|q: int| 0 <= q < n ==> #[trigger] bounds@[q] == context.new_bounds(whole, whole.branches@[q]),
            branch_ids@.len() == n,
            forall|q: int| 0 <= q < n ==> #[trigger] branch_ids@[q] == context.condition_id(whole, whole.branches@[q].header),
            places@.len() == n,
            forall|q: int| 0 <= q < n ==> context.places_ok(whole, whole.branches@[q], #[trigger] &places@[q]),
            regions_left(whole, k as int, region_slots@),
            values_left(whole, k as int, value_slots@),
            k <= n,
            branches@.len() == k,
            forall|q: int| 0 <= q < k ==> context.branch_ok(whole, whole.branches@[q], #[trigger] &branches@[q]),
        decreases n - k,
    {
        let b = branch_list[k];
        let ghost before = branches@;
        assert(bounds@[k as int] == context.new_bounds(whole, b));
        assert(context.places_ok(whole, whole.branches@[k as int], &places@[k as int]));
        proof {
            assert(branches_wf(context.selection(whole).cfg, context.selection(whole).branches@));
            header_is_new(context.cfg, whole, k as int);
            left_later(whole, k as int, region_slots@, value_slots@);
            rebounded_keeps_header(context, whole, b);
        }
        let now = match bounds[k] {
            Some(x) => x,
            None => b,
        };
        let region = match places[k].region {
            Some(at) => take_region(&mut region_slots, at, Ghost(whole), Ghost(k as int)),
            None => match now.merge {
                Some(m) => Some(BranchRegionFact::new(context.graph, now.header, m, now.kind, None)),
                None => None,
            },
        };
        let value_merge = match places[k].values {
            Some(at) => take_values(&mut value_slots, at, Ghost(whole), Ghost(k as int)),
            None => None,
        };
        let input = BranchPlanInput { branch: now, region, value_merge, condition: branch_ids[k] };
        assert(branch_ids@[k as int] == context.condition_id(whole, whole.branches@[k as int].header));
        assert(context.branch_ok(whole, whole.branches@[k as int], &input));
        branches.push(input);
        proof {
            assert forall|q: int| 0 <= q < k + 1 implies context.branch_ok(whole, whole.branches@[q], #[trigger] &branches@[q]) by {
                if q < k {
                    assert(context.branch_ok(whole, whole.branches@[q], &before[q]));
                }
            }
        }
        k = k + 1;
    }
    let loops = join_loops(context, Ghost(whole), evidence.loops, loop_ids, loop_ends, loop_carried);
    let unstructured = wrap_regions(evidence.regions);
    Ok(
        FinalPlanInput {
            branches,
            loops,
            conditions: chosen.conditions,
            value_decisions,
            scopes: evidence.scopes,
            unstructured,
            residual_transfers: evidence.residual_transfers,
        },
    )
}

fn choose_conditions(context: &PlanContext, e: &PlanEvidence) -> (r: (Vec<ConditionPlanInput>, Vec<Option<ConditionPlanId>>))
    requires
        context.wf(e),
    ensures
        condition_models((r.0)@) == context.selection(e).all_conditions(),
        forall|i: int| 0 <= i < (r.0)@.len() ==> input_known(context.cfg, #[trigger] &(r.0)@[i]),
        (r.1)@.len() == context.cfg.blocks@.len(),
        forall|h: int| 0 <= h < (r.1)@.len() ==> #[trigger] (r.1)@[h] == context.condition_id(e, BlockRef(h as usize)),
{
    let selection = ConditionSelectionInput {
        proto: context.proto,
        cfg: context.cfg,
        dataflow: context.dataflow,
        loops: &e.loops,
        can_continue: context.can_continue,
        branches: &e.branches,
        candidates: &e.condition_candidates,
        closed_control_dags: &e.closed_control_dags,
        residual_transfers: &e.residual_transfers,
    };
    assert(selection == context.selection(e));
    let blocks = context.cfg.blocks.len();
    let r = selection.selected_conditions();
    proof {
        assert forall|h: int| 0 <= h < (r.1)@.len() implies #[trigger] (r.1)@[h] == context.condition_id(e, BlockRef(h as usize)) by {
            assert(context.cfg.has_block(BlockRef(h as usize)));
        }
    }
    r
}

fn choose_values(context: &PlanContext, e: &PlanEvidence) -> (r: Vec<ShortCircuitCandidate>)
    requires
        context.wf(e),
    ensures
        short_models(r@) == context.values(e).values_upto(
            short_models(e.value_candidates@),
            context.dataflow.phi_candidates@.len(),
        ),
{
    let values = ValueDecisionContext {
        proto: context.proto,
        cfg: context.cfg,
        dataflow: context.dataflow,
        loops: &e.loops,
        residual_transfers: &e.residual_transfers,
    };
    assert(values == context.values(e));
    values.selected_value_decisions(&e.value_candidates)
}

fn join_loops<'a>(
    context: &PlanContext<'a>,
    Ghost(e): Ghost<&'a PlanEvidence>,
    loops: Vec<LoopCandidate>,
    ids: Vec<Option<ConditionPlanId>>,
    ends: Vec<Option<BlockRef>>,
    carried: Vec<Vec<LoopValueMerge>>,
) -> (r: Vec<LoopPlanInput>)
    requires
        loops@ == e.loops@,
        ids@.len() == loops@.len(),
        ends@.len() == loops@.len(),
        carried@.len() == loops@.len(),
        forall|i: int| 0 <= i < loops@.len() ==> #[trigger] context.loop_parts_ok(e, i, ids@[i], ends@[i], carried@[i]),
    ensures
        r@.len() == loops@.len(),
        forall|i: int| 0 <= i < r@.len() ==> context.loop_ok(e, e.loops@[i], #[trigger] &r@[i]),
{
    let n = loops.len();
    let mut slots = in_slots(loops);
    let mut lists = in_slots(carried);
    let mut r: Vec<LoopPlanInput> = Vec::new();
    let mut i: usize = 0;
    while i < n
        invariant
            n == e.loops@.len(),
            slots@.len() == n,
            lists@.len() == n,
            ids@.len() == n,
            ends@.len() == n,
            carried@.len() == n,
            forall|k: int| i <= k < n ==> #[trigger] slots@[k] == Some(e.loops@[k]),
            forall|k: int| i <= k < n ==> #[trigger] lists@[k] == Some(carried@[k]),
            forall|k: int| 0 <= k < n ==> #[trigger] context.loop_parts_ok(e, k, ids@[k], ends@[k], carried@[k]),
            i <= n,
            r@.len() == i,
            forall|k: int| 0 <= k < i ==> context.loop_ok(e, e.loops@[k], #[trigger] &r@[k]),
        decreases n - i,
    {
        assert(slots@[i as int] == Some(e.loops@[i as int]));
        assert(lists@[i as int] == Some(carried@[i as int]));
        assert(context.loop_parts_ok(e, i as int, ids@[i as int], ends@[i as int], carried@[i as int]));
        let ghost before = r@;
        let mut slot: Option<LoopCandidate> = None;
        std::mem::swap(&mut slot, &mut slots[i]);
        let mut list: Option<Vec<LoopValueMerge>> = None;
        std::mem::swap(&mut list, &mut lists[i]);
        let input = LoopPlanInput {
            candidate: slot.unwrap(),
            condition: ids[i],
            continuation: ends[i],
            carried_values: list.unwrap(),
            semantic_continue_edges: IdSet::new(),
        };
        assert(context.loop_ok(e, e.loops@[i as int], &input));
        r.push(input);
        proof {
            assert forall|k: int| 0 <= k < i + 1 implies context.loop_ok(e, e.loops@[k], #[trigger] &r@[k]) by {
                if k < i {
                    assert(context.loop_ok(e, e.loops@[k], &before[k]));
                }
            }
        }
        i = i + 1;
    }
    r
}

fn wrap_regions(list: Vec<RegionFact>) -> (r: Vec<UnstructuredPlanData>)
    ensures
        r@.len() == list@.len(),
        forall|i: int| 0 <= i < r@.len() ==> (#[trigger] r@[i]).fact == list@[i] && r@[i].layout is None,
{
    let n = list.len();
    let mut slots = in_slots(list);
    let mut r: Vec<UnstructuredPlanData> = Vec::new();
    let mut i: usize = 0;
    while i < n
        invariant
            n == list@.len(),
            slots@.len() == n,
            forall|k: int| i <= k < n ==> #[trigger] slots@[k] == Some(list@[k]),
            i <= n,
            r@.len() == i,
            forall|k: int| 0 <= k < i ==> (#[trigger] r@[k]).fact == list@[k] && r@[k].layout is None,
        decreases n - i,
    {
        assert(slots@[i as int] == Some(list@[i as int]));
        let mut slot: Option<RegionFact> = None;
        std::mem::swap(&mut slot, &mut slots[i]);
        r.push(UnstructuredPlanData { fact: slot.unwrap(), layout: None });
        i = i + 1;
    }
    r
}

} // verus!
