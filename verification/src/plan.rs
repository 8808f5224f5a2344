//! The final plan: regions, edges, conditions and what they require.

use vstd::prelude::*;

use crate::cfg::InstrRange;
use crate::dataflow::{DefId, PhiId, SsaValue};
use crate::evidence::{
    BranchKind, BranchValueMergeValue, GotoReason, LoopExitAlias, LoopExitValueMergeCandidate, LoopKindHint,
    LoopSourceBindings, LoopValueMerge, PhiEdgeCopy,
};
use crate::ids::{BlockRef, EdgeRef, InstrRef, Ranked, Reg};
use crate::idset::IdSet;
use crate::lists::copy_list;

verus! {

/// A branch of the plan.
#[derive(Debug, Clone, Copy, PartialEq, Eq, PartialOrd, Ord, Hash, Structural)]
pub struct BranchPlanId(pub usize);

impl BranchPlanId {
    pub fn index(self) -> (r: usize)
        ensures
            r == self.0,
    {
        self.0
    }
}

/// A region of the plan that runs once and can be left early.
#[derive(Debug, Clone, Copy, PartialEq, Eq, PartialOrd, Ord, Hash, Structural)]
pub struct SinglePassPlanId(pub usize);

impl SinglePassPlanId {
    pub fn index(self) -> (r: usize)
        ensures
            r == self.0,
    {
        self.0
    }
}

/// A loop of the plan.
#[derive(Debug, Clone, Copy, PartialEq, Eq, PartialOrd, Ord, Hash, Structural)]
pub struct LoopPlanId(pub usize);

impl LoopPlanId {
    pub fn index(self) -> (r: usize)
        ensures
            r == self.0,
    {
        self.0
    }
}

/// A condition of the plan.
#[derive(Debug, Clone, Copy, PartialEq, Eq, PartialOrd, Ord, Hash, Structural)]
pub struct ConditionPlanId(pub usize);

impl ConditionPlanId {
    pub fn index(self) -> (r: usize)
        ensures
            r == self.0,
    {
        self.0
    }
}

/// A short-circuit value of the plan.
#[derive(Debug, Clone, Copy, PartialEq, Eq, PartialOrd, Ord, Hash, Structural)]
pub struct ValueDecisionPlanId(pub usize);

impl ValueDecisionPlanId {
    pub fn index(self) -> (r: usize)
        ensures
            r == self.0,
    {
        self.0
    }
}

/// A label of the plan.
#[derive(Debug, Clone, Copy, PartialEq, Eq, PartialOrd, Ord, Hash, Structural)]
pub struct LabelPlanId(pub usize);

impl LabelPlanId {
    pub fn index(self) -> (r: usize)
        ensures
            r == self.0,
    {
        self.0
    }
}

/// A route that several jumps share.
#[derive(Debug, Clone, Copy, PartialEq, Eq, PartialOrd, Ord, Hash, Structural)]
pub struct ForwardRouteId(pub usize);

impl ForwardRouteId {
    pub fn index(self) -> (r: usize)
        ensures
            r == self.0,
    {
        self.0
    }
}

/// A lexical scope of the plan.
#[derive(Debug, Clone, Copy, PartialEq, Eq, PartialOrd, Ord, Hash, Structural)]
pub struct ScopePlanId(pub usize);

impl ScopePlanId {
    pub fn index(self) -> (r: usize)
        ensures
            r == self.0,
    {
        self.0
    }
}

/// A scope of variables that are closed at its end.
#[derive(Debug, Clone, Copy, PartialEq, Eq, PartialOrd, Ord, Hash, Structural)]
pub struct TbcScopePlanId(pub usize);

impl TbcScopePlanId {
    pub fn index(self) -> (r: usize)
        ensures
            r == self.0,
    {
        self.0
    }
}

/// A region of the plan.
#[derive(Debug, Clone, Copy, PartialEq, Eq, PartialOrd, Ord, Hash, Structural)]
pub struct RegionId(pub usize);

impl RegionId {
    pub fn index(self) -> (r: usize)
        ensures
            r == self.0,
    {
        self.0
    }
}

/// A node of a condition.
#[derive(Debug, Clone, Copy, PartialEq, Eq, PartialOrd, Ord, Hash, Structural)]
pub struct ConditionNodeId(pub usize);

impl ConditionNodeId {
    pub fn index(self) -> (r: usize)
        ensures
            r == self.0,
    {
        self.0
    }
}

/// A node of a short-circuit value.
#[derive(Debug, Clone, Copy, PartialEq, Eq, PartialOrd, Ord, Hash, Structural)]
pub struct ValueDecisionNodeId(pub usize);

impl ValueDecisionNodeId {
    pub fn index(self) -> (r: usize)
        ensures
            r == self.0,
    {
        self.0
    }
}

/// A leaf of a short-circuit value.
#[derive(Debug, Clone, Copy, PartialEq, Eq, PartialOrd, Ord, Hash, Structural)]
pub struct ValueDecisionLeafId(pub usize);

impl ValueDecisionLeafId {
    pub fn index(self) -> (r: usize)
        ensures
            r == self.0,
    {
        self.0
    }
}

/// A requirement of the plan.
#[derive(Debug, Clone, Copy, PartialEq, Eq, PartialOrd, Ord, Hash, Structural)]
pub struct PlanRequirementId(pub usize);

impl PlanRequirementId {
    pub fn index(self) -> (r: usize)
        ensures
            r == self.0,
    {
        self.0
    }
}

/// Variables that are closed at the end of a scope, and where the scope ends.
#[derive(Debug)]
pub struct TbcScopePlan {
    pub origins: Vec<InstrRef>,
    pub boundary: InstrRef,
    pub exits: Vec<InstrRef>,
}

/// How a block is written out: in its place, or not at all because every way in has taken
/// over what it does.
#[derive(Debug, Clone, Copy, PartialEq, Eq, Structural)]
pub enum BlockEmissionPlan {
    Emit,
    ForwardedControl { outgoing: EdgeRef },
}

#[derive(Debug, Clone, Copy, PartialEq, Eq, Structural)]
pub enum UnstructuredLayoutItem {
    Block(BlockRef),
    Region(RegionId),
}

/// A region of the plan.
#[derive(Debug)]
pub enum RegionPlan {
    Block { parent: RegionId, block: BlockRef },
    Sequence { parent: Option<RegionId>, children: Vec<RegionId> },
    Branch {
        parent: RegionId,
        plan: BranchPlanId,
        entry: BlockRef,
        condition: RegionId,
        then_arm: RegionId,
        else_arm: Option<RegionId>,
        continuation: Option<BlockRef>,
    },
    ValueDecision { parent: RegionId, plan: ValueDecisionPlanId, entry: BlockRef, continuation: BlockRef },
    Loop {
        parent: RegionId,
        plan: LoopPlanId,
        entry: BlockRef,
        preheader: Option<RegionId>,
        control: RegionId,
        body: RegionId,
        normal_tail: Option<RegionId>,
    },
    Unstructured {
        parent: RegionId,
        entry: BlockRef,
        entries: Vec<EdgeRef>,
        layout: Vec<UnstructuredLayoutItem>,
        exits: Vec<EdgeRef>,
    },
}

impl RegionPlan {
    /// The region around this one; only a sequence can stand alone.
    pub open spec fn parent_of(&self) -> Option<RegionId> {
        match self {
            RegionPlan::Block { parent, .. } => Some(*parent),
            RegionPlan::Sequence { parent, .. } => *parent,
            RegionPlan::Branch { parent, .. } => Some(*parent),
            RegionPlan::ValueDecision { parent, .. } => Some(*parent),
            RegionPlan::Loop { parent, .. } => Some(*parent),
            RegionPlan::Unstructured { parent, .. } => Some(*parent),
        }
    }

    pub fn parent(&self) -> (r: Option<RegionId>)
        ensures
            r == self.parent_of(),
    {
        match self {
            RegionPlan::Block { parent, .. } => Some(*parent),
            RegionPlan::Sequence { parent, .. } => *parent,
            RegionPlan::Branch { parent, .. } => Some(*parent),
            RegionPlan::ValueDecision { parent, .. } => Some(*parent),
            RegionPlan::Loop { parent, .. } => Some(*parent),
            RegionPlan::Unstructured { parent, .. } => Some(*parent),
        }
    }
}

/// Where a label stands: before a block, before the statement that begins there, or behind a
/// cleanup instruction.
#[derive(Debug, Clone, Copy, PartialEq, Eq, Structural)]
pub enum LabelPlacement {
    BeforeBlock,
    BeforeRegion(RegionId),
    AfterCleanup(InstrRef),
}

#[derive(Debug)]
pub struct LabelPlan {
    pub block: BlockRef,
    pub tbc_barriers: Vec<InstrRef>,
    pub placement: LabelPlacement,
}

/// The values that a branch hands to the block behind it.
#[derive(Debug)]
pub struct BranchValuePlan {
    pub merge: BlockRef,
    pub values: Vec<BranchValueMergeValue>,
}

#[derive(Debug)]
pub struct BranchPlanData {
    pub header: BlockRef,
    pub kind: BranchKind,
    pub condition: ConditionPlanId,
    pub condition_inverted: bool,
    pub then_edge: EdgeRef,
    pub else_edge: EdgeRef,
    pub continuation: Option<BlockRef>,
    pub value_plan: Option<BranchValuePlan>,
}

#[derive(Debug)]
pub struct SinglePassPlan {
    pub region: RegionId,
    pub entry: BlockRef,
    pub tail: BlockRef,
    pub continuation: BlockRef,
    pub escape_edges: Vec<EdgeRef>,
}

/// The edges that the syntax of a loop takes over.
#[derive(Debug)]
pub struct LoopControlEdges {
    pub preheader_body: Option<EdgeRef>,
    pub preheader_exit: Option<EdgeRef>,
    pub body: Vec<EdgeRef>,
    pub exit: Vec<EdgeRef>,
    pub backedges: Vec<EdgeRef>,
    pub continues: Vec<EdgeRef>,
}

/// What follows a `for` loop only when it ends by itself.
#[derive(Debug)]
pub struct LoopNormalTailPlan {
    pub entry: BlockRef,
    pub continuation: BlockRef,
    pub early_exits: Vec<EdgeRef>,
    pub normal_exits: Vec<EdgeRef>,
    pub completion_exits: Vec<EdgeRef>,
}

/// The first instructions of a block that only the regular way out of a loop runs.
#[derive(Debug)]
pub struct LoopExitTailPlan {
    pub normal_exit: EdgeRef,
    pub block: BlockRef,
    pub range: InstrRange,
    pub continuation: BlockRef,
    pub early_exits: Vec<EdgeRef>,
    pub cleanup_block: BlockRef,
    pub cleanup_route: Vec<EdgeRef>,
    pub cleanup: Vec<InstrRef>,
}

/// Where the instructions before a loop's condition run.
#[derive(Debug, Clone, Copy, PartialEq, Eq, Structural)]
pub enum LoopConditionPrefixPlacement {
    BeforeBody,
    AfterBody,
}

#[derive(Debug)]
pub struct LoopPlanData {
    pub kind: LoopKindHint,
    pub header: BlockRef,
    pub preheader_block: Option<BlockRef>,
    pub condition_header: Option<BlockRef>,
    pub condition: Option<ConditionPlanId>,
    pub condition_prefix_placement: Option<LoopConditionPrefixPlacement>,
    pub continuation: Option<BlockRef>,
    pub continue_target: Option<BlockRef>,
    pub source_bindings: Option<LoopSourceBindings>,
    pub control_edges: LoopControlEdges,
    pub break_edges: Vec<EdgeRef>,
    pub normalized_exit_aliases: Vec<LoopExitAlias>,
    pub normal_tail: Option<LoopNormalTailPlan>,
    pub exit_tail: Option<LoopExitTailPlan>,
    /// The loop around this one that every way out leaves as well.
    pub propagated_break: Option<RegionId>,
    pub header_values: Vec<LoopValueMerge>,
    pub exit_values: Vec<LoopExitValueMergeCandidate>,
    pub carried_values: Vec<LoopValueMerge>,
}

/// Where an arc of a condition leads.
#[derive(Debug, Clone, Copy, PartialEq, Eq, Structural)]
pub enum ConditionTarget {
    Node(ConditionNodeId),
    Truthy,
    Falsy,
}

#[derive(Debug, Clone, Copy, PartialEq, Eq, Structural)]
pub enum ConditionArcPolarity {
    BranchTrue,
    BranchFalse,
}

impl ConditionArcPolarity {
    pub open spec fn place(self) -> usize {
        match self {
            ConditionArcPolarity::BranchTrue => 0,
            ConditionArcPolarity::BranchFalse => 1,
        }
    }

    pub fn index(self) -> (r: usize)
        ensures
            r == self.place(),
    {
        match self {
            ConditionArcPolarity::BranchTrue => 0,
            ConditionArcPolarity::BranchFalse => 1,
        }
    }
}

#[derive(Debug)]
pub struct ConditionArcPlan {
    pub source: ConditionNodeId,
    pub polarity: ConditionArcPolarity,
    pub route: Vec<EdgeRef>,
    pub transfer: EdgeRef,
    pub connector_blocks: Vec<BlockRef>,
    pub target: ConditionTarget,
}

/// A condition that is only computed to be used as a value by another one.
#[derive(Debug, Clone, Copy, PartialEq, Eq, Structural)]
pub struct ConditionValuePlan {
    pub phi: PhiId,
    pub consumer: ConditionNodeId,
    pub use_instr: InstrRef,
    pub negated: bool,
    pub forwarded_callee: Option<DefId>,
}

/// A node of a condition; the arc of each direction stands at its index.
#[derive(Debug)]
pub struct ConditionNodePlan {
    pub id: ConditionNodeId,
    pub block: BlockRef,
    pub predicate: InstrRef,
    pub predicate_negated: bool,
    pub arcs: [ConditionArcPlan; 2],
    pub materialized_value: Option<ConditionValuePlan>,
}

impl ConditionNodePlan {
    /// Where the node leads when its condition holds, or does not.
    pub open spec fn leads_to(&self, truthy: bool) -> ConditionTarget {
        self.arcs@[if truthy != self.predicate_negated {
            0
        } else {
            1
        }].target
    }

    pub fn arc(&self, polarity: ConditionArcPolarity) -> (r: &ConditionArcPlan)
        ensures
            *r == self.arcs@[polarity.place() as int],
    {
        &self.arcs[polarity.index()]
    }

    pub fn semantic_target(&self, truthy: bool) -> (r: ConditionTarget)
        ensures
            r == self.leads_to(truthy),
    {
        let polarity = if truthy != self.predicate_negated {
            ConditionArcPolarity::BranchTrue
        } else {
            ConditionArcPolarity::BranchFalse
        };
        self.arc(polarity).target
    }
}

/// The condition of a branch or a loop.
#[derive(Debug)]
pub struct ConditionPlan {
    pub entry: ConditionNodeId,
    pub nodes: Vec<ConditionNodePlan>,
    pub blocks: Vec<BlockRef>,
    pub truthy: EdgeRef,
    pub falsy: EdgeRef,
}

impl ConditionPlan {
    pub fn blocks(&self) -> (r: Vec<BlockRef>)
        ensures
            r@ == self.blocks@,
    {
        copy_list(&self.blocks)
    }

    pub fn header(&self) -> (r: Option<BlockRef>)
        ensures
            r == (if self.entry.0 < self.nodes@.len() {
                Some(self.nodes@[self.entry.0 as int].block)
            } else {
                None
            }),
    {
        if self.entry.0 < self.nodes.len() {
            Some(self.nodes[self.entry.0].block)
        } else {
            None
        }
    }
}

/// Where an arc of a short-circuit value leads; the value just tested can be the result.
#[derive(Debug, Clone, Copy, PartialEq, Eq, Structural)]
pub enum ValueDecisionTarget {
    Node(ValueDecisionNodeId),
    Leaf(ValueDecisionLeafId),
    CurrentValue(ValueDecisionLeafId),
}

#[derive(Debug)]
pub struct ValueDecisionArcPlan {
    pub polarity: ConditionArcPolarity,
    pub route: Vec<EdgeRef>,
    pub target: ValueDecisionTarget,
}

#[derive(Debug)]
pub struct ValueDecisionNodePlan {
    pub id: ValueDecisionNodeId,
    pub block: BlockRef,
    pub predicate: InstrRef,
    pub predicate_negated: bool,
    pub truthy: ValueDecisionArcPlan,
    pub falsy: ValueDecisionArcPlan,
}

#[derive(Debug, Clone, Copy, PartialEq, Eq, Structural)]
pub struct ValueDecisionLeafPlan {
    pub id: ValueDecisionLeafId,
    pub block: BlockRef,
    pub value: SsaValue,
    pub latest_local_def: Option<DefId>,
    pub terminal_edge: EdgeRef,
    pub physical_pred: BlockRef,
    pub physical_value: SsaValue,
}

/// A short-circuit expression that yields a value.
#[derive(Debug)]
pub struct ValueDecisionPlan {
    pub entry: ValueDecisionNodeId,
    pub nodes: Vec<ValueDecisionNodePlan>,
    pub leaves: Vec<ValueDecisionLeafPlan>,
    pub blocks: Vec<BlockRef>,
    pub merge: BlockRef,
    pub shared_exit_action: EdgeRef,
    pub result_phi: PhiId,
    pub absorbed_phis: Vec<PhiId>,
    pub result_reg: Reg,
}

impl ValueDecisionPlan {
    pub fn blocks(&self) -> (r: Vec<BlockRef>)
        ensures
            r@ == self.blocks@,
    {
        copy_list(&self.blocks)
    }

    pub fn header(&self) -> (r: Option<BlockRef>)
        ensures
            r == (if self.entry.0 < self.nodes@.len() {
                Some(self.nodes@[self.entry.0 as int].block)
            } else {
                None
            }),
    {
        if self.entry.0 < self.nodes.len() {
            Some(self.nodes[self.entry.0].block)
        } else {
            None
        }
    }
}

#[derive(Debug, Clone, Copy, PartialEq, Eq, Structural)]
pub enum BranchArm {
    Truthy,
    Falsy,
    LoopBody,
    LoopExit,
}

/// What an edge becomes.
#[derive(Debug, Clone, Copy, PartialEq, Eq, Structural)]
pub enum EdgeTransfer {
    Unreachable,
    Fallthrough,
    BranchArm(BranchArm),
    LoopBack(RegionId),
    Break(RegionId),
    Continue(RegionId),
    Return,
    TailCall,
    Goto(LabelPlanId, GotoReason),
}

#[derive(Debug, Clone, Copy, PartialEq, Eq, Structural)]
pub struct ConditionArcRef {
    pub condition: ConditionPlanId,
    pub node: ConditionNodeId,
    pub polarity: ConditionArcPolarity,
}

#[derive(Debug, Clone, Copy, PartialEq, Eq, Structural)]
pub enum ForwardRouteKind {
    ExclusiveBreak,
    ContinueToTarget,
    ContinueLatch,
    RepeatConditionArc(ConditionArcRef),
}

/// A chain of edges that a single jump replaces.
#[derive(Debug, Clone, Copy, PartialEq, Eq, Structural)]
pub struct ForwardRoutePlan {
    pub kind: ForwardRouteKind,
    pub loop_region: RegionId,
    pub first: EdgeRef,
    pub last: EdgeRef,
    pub start: BlockRef,
    pub target: BlockRef,
    pub len: usize,
}

/// When the copies of an edge run.
#[derive(Debug, Clone, Copy, PartialEq, Eq, Structural)]
pub enum EdgeActionPlacement {
    BeforeTransfer,
    BeforeTrailingCleanup { cleanup: InstrRange },
}

impl Default for EdgeActionPlacement {
    fn default() -> (r: Self)
        ensures
            r == EdgeActionPlacement::BeforeTransfer,
    {
        EdgeActionPlacement::BeforeTransfer
    }
}

/// What becomes of an edge, and the copies that it makes.
#[derive(Debug)]
pub struct EdgePlan {
    pub edge: EdgeRef,
    pub owner: RegionId,
    pub transfer: EdgeTransfer,
    pub action_placement: EdgeActionPlacement,
    pub forward_route: Option<ForwardRouteId>,
    pub phi_copies: Vec<PhiEdgeCopy>,
}

impl EdgePlan {
    pub fn actions_before_trailing_cleanup(&self) -> (r: Option<InstrRange>)
        ensures
            r == (match self.action_placement {
                EdgeActionPlacement::BeforeTransfer => None::<InstrRange>,
                EdgeActionPlacement::BeforeTrailingCleanup { cleanup } => Some(cleanup),
            }),
    {
        match self.action_placement {
            EdgeActionPlacement::BeforeTransfer => None,
            EdgeActionPlacement::BeforeTrailingCleanup { cleanup } => Some(cleanup),
        }
    }
}

/// What the plan needs of the language that it is written in.
#[derive(Debug, Clone, Copy, PartialEq, Eq, Structural)]
pub enum PlanRequirement {
    Goto { edge: EdgeRef, label: LabelPlanId, reason: GotoReason },
    Continue { edge: EdgeRef, loop_region: RegionId },
    MultiEntryIsland { region: RegionId, entry_count: usize },
    UnresolvedValue { phi_id: PhiId, block: BlockRef, reg: Reg },
}

impl PlanRequirement {
    pub open spec fn edge_of(&self) -> Option<EdgeRef> {
        match self {
            PlanRequirement::Goto { edge, .. } => Some(*edge),
            PlanRequirement::Continue { edge, .. } => Some(*edge),
            _ => None,
        }
    }

    pub fn edge(&self) -> (r: Option<EdgeRef>)
        ensures
            r == self.edge_of(),
    {
        match self {
            PlanRequirement::Goto { edge, .. } => Some(*edge),
            PlanRequirement::Continue { edge, .. } => Some(*edge),
            _ => None,
        }
    }
}

#[derive(Debug, Clone, Copy, PartialEq, Eq, PartialOrd, Ord, Hash, Structural)]
pub enum ControlFlowFeature {
    GotoLabel,
    ContinueStatement,
}

impl ControlFlowFeature {
    fn place(self) -> (r: usize)
        ensures
            (r as int, 0int) == self.rank(),
    {
        match self {
            ControlFlowFeature::GotoLabel => 0,
            ControlFlowFeature::ContinueStatement => 1,
        }
    }
}

impl Ranked for ControlFlowFeature {
    open spec fn rank(self) -> (int, int) {
        match self {
            ControlFlowFeature::GotoLabel => (0, 0),
            ControlFlowFeature::ContinueStatement => (1, 0),
        }
    }

    fn before(self, other: Self) -> (r: bool) {
        self.place() < other.place()
    }

    fn same(self, other: Self) -> (r: bool) {
        self == other
    }

    proof fn rank_injective(a: Self, b: Self) {
    }
}

/// The requirements, by number and by edge.
#[derive(Debug)]
pub struct PlanRequirements {
    pub entries: Vec<PlanRequirement>,
    pub by_edge: Vec<Vec<PlanRequirementId>>,
    pub unresolved_by_block: Vec<bool>,
    pub required_features: IdSet<ControlFlowFeature>,
    pub unavailable_features: IdSet<ControlFlowFeature>,
}

impl PlanRequirements {
    pub fn get(&self, id: PlanRequirementId) -> (r: Option<&PlanRequirement>)
        ensures
            match r {
                Some(x) => id.0 < self.entries@.len() && *x == self.entries@[id.0 as int],
                None => id.0 >= self.entries@.len(),
            },
    {
        if id.0 < self.entries.len() {
            Some(&self.entries[id.0])
        } else {
            None
        }
    }

    /// The requirements with their numbers.
    pub fn iter(&self) -> (r: Vec<(PlanRequirementId, PlanRequirement)>)
        ensures
            r@ == Seq::new(self.entries@.len(), |i: int| (PlanRequirementId(i as usize), self.entries@[i])),
    {
        let n = self.entries.len();
        let mut r: Vec<(PlanRequirementId, PlanRequirement)> = Vec::new();
        let mut i: usize = 0;
        while i < n
            invariant
                n == self.entries@.len(),
                i <= n,
                r@.len() == i,
                forall|k: int| 0 <= k < i ==> #[trigger] r@[k] == (PlanRequirementId(k as usize), self.entries@[k]),
            decreases n - i,
        {
            r.push((PlanRequirementId(i), self.entries[i]));
            i = i + 1;
        }
        assert(r@ =~= Seq::new(self.entries@.len(), |i: int| (PlanRequirementId(i as usize), self.entries@[i])));
        r
    }

    pub fn for_edge(&self, edge: EdgeRef) -> (r: &[PlanRequirementId])
        ensures
            r@ == (if edge.0 < self.by_edge@.len() {
                self.by_edge@[edge.0 as int]@
            } else {
                Seq::empty()
            }),
    {
        if edge.0 < self.by_edge.len() {
            self.by_edge[edge.0].as_slice()
        } else {
            let r: &[PlanRequirementId] = &[];
            assert(r@ =~= Seq::empty());
            r
        }
    }

    pub fn has_unresolved_at(&self, block: BlockRef) -> (r: bool)
        ensures
            r == (block.0 < self.unresolved_by_block@.len() && self.unresolved_by_block@[block.0 as int]),
    {
        block.0 < self.unresolved_by_block.len() && self.unresolved_by_block[block.0]
    }

    pub fn required_features(&self) -> (r: &IdSet<ControlFlowFeature>)
        ensures
            *r == self.required_features,
    {
        &self.required_features
    }

    pub fn unavailable_features(&self) -> (r: &IdSet<ControlFlowFeature>)
        ensures
            *r == self.unavailable_features,
    {
        &self.unavailable_features
    }
}

/// What ends a block.
#[derive(Debug, Clone, Copy, PartialEq, Eq, Structural)]
pub enum BlockTerminatorKind {
    SyntheticExit,
    Linear { edge: Option<EdgeRef> },
    Jump { instr: InstrRef, edge: EdgeRef },
    Branch { instr: InstrRef, truthy: EdgeRef, falsy: EdgeRef },
    Return { instr: InstrRef, edge: EdgeRef },
    TailCall { instr: InstrRef, edge: EdgeRef },
    NumericForInit { instr: InstrRef, body: EdgeRef, exit: EdgeRef },
    NumericForLoop { instr: InstrRef, body: EdgeRef, exit: EdgeRef },
    GenericForLoop { instr: InstrRef, body: EdgeRef, exit: EdgeRef },
}

#[derive(Debug, Clone, Copy, PartialEq, Eq, Structural)]
pub struct BlockTerminatorPlan {
    pub block: BlockRef,
    pub instrs: InstrRange,
    pub kind: BlockTerminatorKind,
}

/// Who takes care of a cleanup instruction.
#[derive(Debug, Clone, Copy, PartialEq, Eq, Structural)]
pub enum CleanupDisposition {
    Unreachable,
    ExplicitTbc,
    LoopTbcBoundary(RegionId),
    ExplicitTbcBoundary(TbcScopePlanId),
    ExplicitTbcExit(TbcScopePlanId),
    LexicalScope(ScopePlanId),
}

/// Who takes care of what flows into a phi.
#[derive(Debug, Clone, Copy, PartialEq, Eq, Structural)]
pub enum PhiIncomingDisposition {
    Dead,
    EdgeCopy,
    RegionInput(RegionId),
    RegionResult(RegionId),
    LoopCarried(RegionId),
    DiagnosticUnresolved,
}

impl PhiIncomingDisposition {
    pub open spec fn region_of(self) -> Option<RegionId> {
        match self {
            PhiIncomingDisposition::RegionInput(r) => Some(r),
            PhiIncomingDisposition::RegionResult(r) => Some(r),
            PhiIncomingDisposition::LoopCarried(r) => Some(r),
            _ => None,
        }
    }

    pub fn region(self) -> (r: Option<RegionId>)
        ensures
            r == self.region_of(),
    {
        match self {
            PhiIncomingDisposition::RegionInput(r) => Some(r),
            PhiIncomingDisposition::RegionResult(r) => Some(r),
            PhiIncomingDisposition::LoopCarried(r) => Some(r),
            _ => None,
        }
    }
}

#[derive(Debug, Clone, Copy, PartialEq, Eq, Structural)]
pub struct PhiIncomingPlan {
    pub edge: Option<EdgeRef>,
    pub value: SsaValue,
    pub disposition: PhiIncomingDisposition,
}

#[derive(Debug)]
pub struct PhiPlan {
    pub phi: PhiId,
    pub block: BlockRef,
    pub reg: Reg,
    pub incomings: Vec<PhiIncomingPlan>,
}

/// How the regions of an edge's two ends lie to each other.
#[derive(Debug, Clone, Copy, PartialEq, Eq, Structural)]
pub struct EdgeRegionRelation {
    pub source_owner: Option<RegionId>,
    pub target_owner: Option<RegionId>,
    pub lca: Option<RegionId>,
    pub source_child: Option<RegionId>,
    pub target_child: Option<RegionId>,
}

/// Where the regions lie in each other: the numbers with which a walk enters and leaves them.
#[derive(Debug)]
pub struct RegionNavigation {
    pub enter: Vec<usize>,
    pub exit: Vec<usize>,
    pub relations: Vec<Option<EdgeRegionRelation>>,
    pub postorder: Vec<RegionId>,
}

impl RegionNavigation {
    pub open spec fn holds(&self, outer: RegionId, inner: RegionId) -> bool {
        &&& outer.0 < self.enter@.len()
        &&& outer.0 < self.exit@.len()
        &&& inner.0 < self.enter@.len()
        &&& self.enter@[outer.0 as int] <= self.enter@[inner.0 as int] < self.exit@[outer.0 as int]
    }

    pub fn contains(&self, outer: RegionId, inner: RegionId) -> (r: bool)
        ensures
            r == self.holds(outer, inner),
    {
        outer.0 < self.enter.len() && outer.0 < self.exit.len() && inner.0 < self.enter.len() && self.enter[outer.0]
            <= self.enter[inner.0] && self.enter[inner.0] < self.exit[outer.0]
    }
}

} // verus!
