//! What the structuring passes record of branches, loops and short-circuit expressions.

use vstd::prelude::*;

use crate::dataflow::{DefId, PhiId, SsaValue};
use crate::graph::GraphFacts;
use crate::ids::{BlockRef, EdgeRef, InstrRef, Ranked, Reg, RegRange};
use crate::idset::{ascending, IdSet};
use crate::search::{first_some, first_some_stable};
use crate::tree::{members, Tree};

verus! {

#[derive(Debug, Clone, Copy, PartialEq, Eq, PartialOrd, Ord, Hash, Structural)]
pub enum BranchKind {
    IfThen,
    IfElse,
    Guard,
}

/// A branch with its arms and, where it is known, the block behind it.
#[derive(Debug, Clone, Copy, PartialEq, Eq, Structural)]
pub struct BranchCandidate {
    pub header: BlockRef,
    pub then_entry: BlockRef,
    pub else_entry: Option<BlockRef>,
    pub merge: Option<BlockRef>,
    pub kind: BranchKind,
    pub invert_hint: bool,
}

#[derive(Debug, Clone, Copy, PartialEq, Eq, PartialOrd, Ord, Hash, Structural)]
pub enum LoopKindHint {
    WhileLike,
    WhileTrueLike,
    RepeatLike,
    NumericForLike,
    GenericForLike,
    Unknown,
}

#[derive(Debug, Clone, Copy, PartialEq, Eq, PartialOrd, Ord, Structural)]
pub struct LoopExitAlias {
    pub block: BlockRef,
    pub continuation: BlockRef,
}

/// The registers that hold a source loop's variables.
#[derive(Debug, Clone, Copy, PartialEq, Eq, Structural)]
pub enum LoopSourceBindings {
    Numeric(Reg),
    Generic(RegRange),
}

#[derive(Debug, Clone, Copy, PartialEq, Eq, Structural)]
pub struct LoopValueIncoming {
    pub pred: Option<BlockRef>,
    pub value: SsaValue,
}

/// The incomings of a phi from one side of a loop's boundary.
#[derive(Debug)]
pub struct LoopValueArm {
    pub incomings: Vec<LoopValueIncoming>,
}

impl LoopValueArm {
    pub open spec fn has_pred(&self, pred: BlockRef) -> bool {
        exists|i: int| 0 <= i < self.incomings@.len() && (#[trigger] self.incomings@[i]).pred == Some(pred)
    }

    pub fn is_empty(&self) -> (r: bool)
        ensures
            r == (self.incomings@.len() == 0),
    {
        self.incomings.len() == 0
    }

    pub fn contains_pred(&self, pred: BlockRef) -> (r: bool)
        ensures
            r == self.has_pred(pred),
    {
        let n = self.incomings.len();
        let mut i: usize = 0;
        while i < n
            invariant
                n == self.incomings@.len(),
                i <= n,
                forall|j: int| 0 <= j < i ==> (#[trigger] self.incomings@[j]).pred != Some(pred),
            decreases n - i,
        {
            if self.incomings[i].pred == Some(pred) {
                return true;
            }
            i = i + 1;
        }
        false
    }

    pub fn values(&self) -> (r: Vec<SsaValue>)
        ensures
            r@ == self.incomings@.map_values(|i: LoopValueIncoming| i.value),
    {
        let n = self.incomings.len();
        let mut r: Vec<SsaValue> = Vec::new();
        let mut i: usize = 0;
        while i < n
            invariant
                n == self.incomings@.len(),
                i <= n,
                r@ =~= self.incomings@.subrange(0, i as int).map_values(|i: LoopValueIncoming| i.value),
            decreases n - i,
        {
            r.push(self.incomings[i].value);
            i = i + 1;
        }
        assert(self.incomings@.subrange(0, n as int) =~= self.incomings@);
        r
    }
}

/// A phi at a loop's header or exit, its incomings parted by the loop's boundary.
#[derive(Debug)]
pub struct LoopValueMerge {
    pub phi_id: PhiId,
    pub reg: Reg,
    pub inside_arm: LoopValueArm,
    pub outside_arm: LoopValueArm,
}

#[derive(Debug)]
pub struct LoopExitValueMergeCandidate {
    pub exit: BlockRef,
    pub values: Vec<LoopValueMerge>,
}

/// A loop as far as it has been recognised.
#[derive(Debug)]
pub struct LoopCandidate {
    pub header: BlockRef,
    pub preheader: Option<BlockRef>,
    /// The blocks that lead back to the header.
    pub blocks: IdSet<BlockRef>,
    /// The blocks in the lexical scope of the loop's body.
    pub body_scope_blocks: IdSet<BlockRef>,
    pub control_blocks: IdSet<BlockRef>,
    pub normalized_exit_aliases: Vec<LoopExitAlias>,
    pub backedges: Vec<EdgeRef>,
    pub exits: IdSet<BlockRef>,
    pub continue_target: Option<BlockRef>,
    pub continue_edges: IdSet<EdgeRef>,
    pub condition_header: Option<BlockRef>,
    pub kind_hint: LoopKindHint,
    pub source_bindings: Option<LoopSourceBindings>,
    pub header_value_merges: Vec<LoopValueMerge>,
    pub exit_value_merges: Vec<LoopExitValueMergeCandidate>,
}

/// A cyclic region with more than one entry.
#[derive(Debug)]
pub struct IrreducibleRegion {
    pub entry: BlockRef,
    pub blocks: IdSet<BlockRef>,
    pub entry_edges: Vec<EdgeRef>,
}

/// The values that one arm of a branch hands to a merge.
#[derive(Debug)]
pub struct BranchValueMergeArm {
    pub preds: IdSet<BlockRef>,
    pub values: IdSet<SsaValue>,
    /// Those that carry what the register held before the branch.
    pub entry_values: IdSet<SsaValue>,
    /// Those that the arm computed.
    pub update_values: IdSet<SsaValue>,
}

#[derive(Debug)]
pub struct BranchValueMergeValue {
    pub phi_id: PhiId,
    pub reg: Reg,
    pub then_arm: BranchValueMergeArm,
    pub else_arm: BranchValueMergeArm,
}

#[derive(Debug)]
pub struct BranchValueMergeCandidate {
    pub header: BlockRef,
    pub merge: BlockRef,
    pub values: Vec<BranchValueMergeValue>,
}

#[derive(Debug, Clone, Copy, PartialEq, Eq, Structural)]
pub struct PhiEdgeCopy {
    pub phi_id: PhiId,
    pub value: SsaValue,
}

#[derive(Debug)]
pub struct UnstructuredRegionLayout {
    pub blocks: IdSet<BlockRef>,
    pub continuation: BlockRef,
}

#[derive(Debug)]
pub struct RegionFact {
    pub blocks: IdSet<BlockRef>,
    pub entry: BlockRef,
    pub exits: IdSet<BlockRef>,
}

#[derive(Debug)]
pub struct ScopePlan {
    pub entry: BlockRef,
    pub exit: Option<BlockRef>,
    pub close_points: Vec<InstrRef>,
}

#[derive(Debug, Clone, Copy, PartialEq, Eq, PartialOrd, Ord, Hash, Structural)]
pub struct ShortCircuitNodeRef(pub usize);

impl ShortCircuitNodeRef {
    pub fn index(self) -> (r: usize)
        ensures
            r == self.0,
    {
        self.0
    }
}

/// Where a short-circuit node goes on.
#[derive(Debug, Clone, Copy, PartialEq, Eq, PartialOrd, Ord, Hash, Structural)]
pub enum ShortCircuitTarget {
    Node(ShortCircuitNodeRef),
    Value(BlockRef),
    TruthyExit,
    FalsyExit,
}

#[derive(Debug, Clone, Copy, PartialEq, Eq, PartialOrd, Ord, Structural)]
pub struct ShortCircuitNode {
    pub id: ShortCircuitNodeRef,
    pub header: BlockRef,
    pub truthy: ShortCircuitTarget,
    pub falsy: ShortCircuitTarget,
}

#[derive(Debug, Clone, Copy, PartialEq, Eq, PartialOrd, Ord, Hash, Structural)]
pub enum ShortCircuitExit {
    ValueMerge(BlockRef),
    BranchExit { truthy: BlockRef, falsy: BlockRef },
}

#[derive(Debug, Clone, Copy, PartialEq, Eq, PartialOrd, Ord, Structural)]
pub struct ShortCircuitValueIncoming {
    pub pred: BlockRef,
    pub value: SsaValue,
    pub latest_local_def: Option<DefId>,
}

/// An expression built from `and` and `or`, as a graph of conditions.
#[derive(Debug)]
pub struct ShortCircuitCandidate {
    pub header: BlockRef,
    pub blocks: IdSet<BlockRef>,
    pub entry: ShortCircuitNodeRef,
    pub nodes: Vec<ShortCircuitNode>,
    pub exit: ShortCircuitExit,
    pub result_reg: Option<Reg>,
    pub result_phi_id: Option<PhiId>,
    pub entry_value: Option<SsaValue>,
    pub value_incomings: Vec<ShortCircuitValueIncoming>,
    pub reducible: bool,
}

/// The exit on one side of a condition.
pub open spec fn exit_side(want_truthy: bool) -> ShortCircuitTarget {
    if want_truthy {
        ShortCircuitTarget::TruthyExit
    } else {
        ShortCircuitTarget::FalsyExit
    }
}

impl ShortCircuitCandidate {
    /// A node with header `b` leaves to the wanted side.
    pub open spec fn leaves_from(&self, want_truthy: bool, b: BlockRef) -> bool {
        exists|i: int|
            0 <= i < self.nodes@.len() && (#[trigger] self.nodes@[i]).header == b && (self.nodes@[i].truthy == exit_side(
                want_truthy,
            ) || self.nodes@[i].falsy == exit_side(want_truthy))
    }

    /// The headers of the nodes that leave to one side.
    pub fn branch_exit_leaf_preds(&self, want_truthy: bool) -> (r: IdSet<BlockRef>)
        ensures
            forall|b: BlockRef| #[trigger] r@.contains(b) <==> self.leaves_from(want_truthy, b),
    {
        let side = if want_truthy {
            ShortCircuitTarget::TruthyExit
        } else {
            ShortCircuitTarget::FalsyExit
        };
        let n = self.nodes.len();
        let mut r: IdSet<BlockRef> = IdSet::new();
        let mut i: usize = 0;
        while i < n
            invariant
                n == self.nodes@.len(),
                side == exit_side(want_truthy),
                i <= n,
                forall|b: BlockRef| #[trigger] r@.contains(b) ==> self.leaves_from(want_truthy, b),
                forall|j: int|
                    0 <= j < i && ((#[trigger] self.nodes@[j]).truthy == side || self.nodes@[j].falsy == side) ==> r@.contains(
                        self.nodes@[j].header,
                    ),
            decreases n - i,
        {
            let node = self.nodes[i];
            assert(self.nodes@[i as int] == node);
            if node.truthy == side || node.falsy == side {
                assert(self.leaves_from(want_truthy, node.header));
                r.insert(node.header);
            }
            i = i + 1;
        }
        r
    }
}

/// Why an edge cannot be written as structured control flow.
#[derive(Debug, Clone, Copy, PartialEq, Eq, PartialOrd, Ord, Hash, Structural)]
pub enum GotoReason {
    IrreducibleFlow,
    MultiEntryRegion,
    UnstructuredBreakLike,
    UnstructuredContinueLike,
    CrossLoopContinueLike,
}

/// An edge that needs a goto, with the reason.
#[derive(Debug, Clone, Copy, PartialEq, Eq, PartialOrd, Ord, Hash, Structural)]
pub struct GotoRequirement {
    pub edge: EdgeRef,
    pub reason: GotoReason,
}

impl GotoReason {
    pub open spec fn place(self) -> int {
        match self {
            GotoReason::IrreducibleFlow => 0,
            GotoReason::MultiEntryRegion => 1,
            GotoReason::UnstructuredBreakLike => 2,
            GotoReason::UnstructuredContinueLike => 3,
            GotoReason::CrossLoopContinueLike => 4,
        }
    }

    fn place_of(self) -> (r: u8)
        ensures
            r == self.place(),
    {
        match self {
            GotoReason::IrreducibleFlow => 0,
            GotoReason::MultiEntryRegion => 1,
            GotoReason::UnstructuredBreakLike => 2,
            GotoReason::UnstructuredContinueLike => 3,
            GotoReason::CrossLoopContinueLike => 4,
        }
    }
}

impl Ranked for GotoRequirement {
    open spec fn rank(self) -> (int, int) {
        (self.edge.0 as int, self.reason.place())
    }

    fn before(self, other: Self) -> (r: bool) {
        self.edge.0 < other.edge.0 || (self.edge.0 == other.edge.0 && self.reason.place_of() < other.reason.place_of())
    }

    fn same(self, other: Self) -> (r: bool) {
        self == other
    }

    proof fn rank_injective(a: Self, b: Self) {
    }
}

/// A block and the edges that leave a region which runs once.
#[derive(Debug, Clone)]
pub struct SinglePassFenceFact {
    pub exit: BlockRef,
    pub escape_edges: IdSet<EdgeRef>,
}

/// The part of the dominator tree below `root`, without some subtrees.
#[derive(Debug)]
pub struct BranchRegionSpan {
    pub root: BlockRef,
    pub excluded_subtrees: Vec<BlockRef>,
}

#[derive(Debug)]
pub struct BranchRegionDomain {
    pub spans: Vec<BranchRegionSpan>,
    pub included_blocks: Vec<BlockRef>,
}

impl BranchRegionSpan {
    pub open spec fn has(&self, tree: &Tree, b: BlockRef) -> bool {
        tree.covers(self.root.0, b.0) && forall|i: int|
            0 <= i < self.excluded_subtrees@.len() ==> !tree.covers((#[trigger] self.excluded_subtrees@[i]).0, b.0)
    }

    fn contains(&self, graph_facts: &GraphFacts, block: BlockRef) -> (r: bool)
        ensures
            r == self.has(&graph_facts.dominator_tree.tree, block),
    {
        if !graph_facts.dominates(self.root, block) {
            return false;
        }
        let n = self.excluded_subtrees.len();
        let ghost tree = graph_facts.dominator_tree.tree;
        let mut i: usize = 0;
        while i < n
            invariant
                tree == graph_facts.dominator_tree.tree,
                n == self.excluded_subtrees@.len(),
                i <= n,
                forall|j: int| 0 <= j < i ==> !tree.covers((#[trigger] self.excluded_subtrees@[j]).0, block.0),
            decreases n - i,
        {
            if graph_facts.dominates(self.excluded_subtrees[i], block) {
                return false;
            }
            i = i + 1;
        }
        true
    }
}

impl BranchRegionDomain {
    pub open spec fn has(&self, tree: &Tree, b: BlockRef) -> bool {
        self.included_blocks@.contains(b) || exists|i: int|
            0 <= i < self.spans@.len() && (#[trigger] self.spans@[i]).has(tree, b)
    }

    pub fn from_span(root: BlockRef, excluded_subtrees: Vec<BlockRef>) -> (r: Self)
        ensures
            r.spans@.len() == 1,
            r.spans@[0] == (BranchRegionSpan { root, excluded_subtrees }),
            r.included_blocks@.len() == 0,
    {
        let mut spans: Vec<BranchRegionSpan> = Vec::new();
        spans.push(BranchRegionSpan { root, excluded_subtrees });
        BranchRegionDomain { spans, included_blocks: Vec::new() }
    }

    pub fn is_empty(&self) -> (r: bool)
        ensures
            r == (self.spans@.len() == 0 && self.included_blocks@.len() == 0),
    {
        self.spans.len() == 0 && self.included_blocks.len() == 0
    }

    pub fn contains(&self, graph_facts: &GraphFacts, block: BlockRef) -> (r: bool)
        ensures
            r == self.has(&graph_facts.dominator_tree.tree, block),
    {
        let n = self.included_blocks.len();
        let mut i: usize = 0;
        while i < n
            invariant
                n == self.included_blocks@.len(),
                i <= n,
                forall|j: int| 0 <= j < i ==> self.included_blocks@[j] != block,
            decreases n - i,
        {
            if self.included_blocks[i] == block {
                assert(self.included_blocks@[i as int] == block);
                return true;
            }
            i = i + 1;
        }
        let m = self.spans.len();
        let ghost tree = graph_facts.dominator_tree.tree;
        let mut k: usize = 0;
        while k < m
            invariant
                tree == graph_facts.dominator_tree.tree,
                m == self.spans@.len(),
                k <= m,
                !self.included_blocks@.contains(block),
                forall|j: int| 0 <= j < k ==> !(#[trigger] self.spans@[j]).has(&tree, block),
            decreases m - k,
        {
            if self.spans[k].contains(graph_facts, block) {
                return true;
            }
            k = k + 1;
        }
        false
    }
}

/// A run of preorder positions.
#[derive(Debug, Clone, Copy, PartialEq, Eq, Structural)]
pub struct Run {
    pub start: usize,
    pub end: usize,
}

/// The maximal runs of the positions that satisfy `p`, in ascending order.
pub open spec fn maximal_runs(p: spec_fn(int) -> bool, limit: nat, runs: Seq<Run>) -> bool {
    &&& forall|i: int| 0 <= i < runs.len() ==> (#[trigger] runs[i]).start < runs[i].end <= limit
    &&& forall|i: int, j: int| 0 <= i < j < runs.len() ==> (#[trigger] runs[i]).end < (#[trigger] runs[j]).start
    &&& forall|k: int| 0 <= k < limit ==> (#[trigger] p(k) <==> in_runs(runs, k))
}

pub open spec fn in_runs(runs: Seq<Run>, k: int) -> bool {
    exists|i: int| 0 <= i < runs.len() && (#[trigger] runs[i]).start <= k < runs[i].end
}

/// A branch with a known merge, and the blocks that belong to it.
#[derive(Debug)]
pub struct BranchRegionFact {
    pub header: BlockRef,
    pub merge: BlockRef,
    pub kind: BranchKind,
    pub single_pass_fence: Option<SinglePassFenceFact>,
    pub domain: BranchRegionDomain,
}

/// `b` has no place in the tree.
pub open spec fn misses(tree: &Tree, b: BlockRef) -> Option<BlockRef> {
    if tree.has(b.0) {
        None
    } else {
        Some(b)
    }
}

pub open spec fn missing_in(tree: &Tree, list: Seq<BlockRef>) -> spec_fn(int) -> Option<BlockRef> {
    |i: int| misses(tree, list[i])
}

pub open spec fn span_missing(tree: &Tree, spans: Seq<BranchRegionSpan>) -> spec_fn(int) -> Option<BlockRef> {
    |i: int|
        if tree.has(spans[i].root.0) {
            first_some(spans[i].excluded_subtrees@.len(), missing_in(tree, spans[i].excluded_subtrees@))
        } else {
            Some(spans[i].root)
        }
}

impl BranchRegionDomain {
    /// The first block named by the domain that has no place in the tree.
    pub open spec fn missing(&self, tree: &Tree) -> Option<BlockRef> {
        match first_some(self.spans@.len(), span_missing(tree, self.spans@)) {
            Some(b) => Some(b),
            None => first_some(self.included_blocks@.len(), missing_in(tree, self.included_blocks@)),
        }
    }

    /// Position `k` of the preorder belongs to the domain.
    pub open spec fn holds_position(&self, tree: &Tree) -> spec_fn(int) -> bool {
        |k: int| 0 <= k < tree.order@.len() && self.has(tree, BlockRef(tree.order@[k]))
    }
}

fn find_missing(graph_facts: &GraphFacts, list: &Vec<BlockRef>) -> (r: Option<BlockRef>)
    ensures
        r == first_some(list@.len(), missing_in(&graph_facts.dominator_tree.tree, list@)),
{
    let n = list.len();
    let ghost tree = graph_facts.dominator_tree.tree;
    let ghost f = missing_in(&tree, list@);
    let mut i: usize = 0;
    while i < n
        invariant
            tree == graph_facts.dominator_tree.tree,
            f == missing_in(&tree, list@),
            n == list@.len(),
            i <= n,
            first_some(i as nat, f) is None,
        decreases n - i,
    {
        let b = list[i];
        if b.0 >= graph_facts.dominator_tree.tree.depth.len() || graph_facts.dominator_tree.tree.depth[b.0].is_none() {
            proof {
                assert(f(i as int) == Some(b));
                assert(first_some((i + 1) as nat, f) == Some(b));
                first_some_stable((i + 1) as nat, n as nat, f);
            }
            return Some(b);
        }
        assert(f(i as int) is None);
        i = i + 1;
    }
    None
}

impl BranchRegionFact {
    /// The region below the header, without what lies below the merge (and below the exit of
    /// a fence); a merge above the header cuts nothing off.
    pub fn new(
        graph_facts: &GraphFacts,
        header: BlockRef,
        merge: BlockRef,
        kind: BranchKind,
        single_pass_fence: Option<SinglePassFenceFact>,
    ) -> (r: Self)
        ensures
            r.header == header,
            r.merge == merge,
            r.kind == kind,
            r.single_pass_fence == single_pass_fence,
            r.domain.included_blocks@.len() == 0,
            r.domain.spans@.len() == 1,
            r.domain.spans@[0].root == header,
            r.domain.spans@[0].excluded_subtrees@ == (match single_pass_fence {
                Some(fence) => seq![merge, fence.exit],
                None => if graph_facts.dom(merge, header) {
                    Seq::empty()
                } else {
                    seq![merge]
                },
            }),
    {
        let mut excluded: Vec<BlockRef> = Vec::new();
        match &single_pass_fence {
            Some(fence) => {
                excluded.push(merge);
                excluded.push(fence.exit);
                assert(excluded@ =~= seq![merge, fence.exit]);
            },
            None => {
                if !graph_facts.dominates(merge, header) {
                    excluded.push(merge);
                    assert(excluded@ =~= seq![merge]);
                }
            },
        }
        let domain = BranchRegionDomain::from_span(header, excluded);
        BranchRegionFact { header, merge, kind, single_pass_fence, domain }
    }

    /// Replaces the domain; its extra blocks are kept in ascending order, each once.
    pub fn replace_domain(&mut self, domain: BranchRegionDomain)
        ensures
            final(self).header == old(self).header,
            final(self).merge == old(self).merge,
            final(self).kind == old(self).kind,
            final(self).single_pass_fence == old(self).single_pass_fence,
            final(self).domain.spans == domain.spans,
            ascending(final(self).domain.included_blocks@),
            final(self).domain.included_blocks@.to_set() == domain.included_blocks@.to_set(),
    {
        let n = domain.included_blocks.len();
        let mut set: IdSet<BlockRef> = IdSet::new();
        let mut i: usize = 0;
        while i < n
            invariant
                n == domain.included_blocks@.len(),
                i <= n,
                set@ =~= domain.included_blocks@.subrange(0, i as int).to_set(),
            decreases n - i,
        {
            let b = domain.included_blocks[i];
            proof {
                let pre = domain.included_blocks@.subrange(0, i as int);
                let post = domain.included_blocks@.subrange(0, i as int + 1);
                assert(post =~= pre.push(b));
                assert forall|x: BlockRef| #[trigger] post.contains(x) <==> pre.contains(x) || x == b by {
                    if pre.contains(x) {
                        let j = choose|j: int| 0 <= j < pre.len() && pre[j] == x;
                        assert(post[j] == x);
                    }
                    if x == b {
                        assert(post[i as int] == x);
                    }
                }
            }
            set.insert(b);
            i = i + 1;
        }
        assert(domain.included_blocks@.subrange(0, n as int) =~= domain.included_blocks@);
        self.domain = BranchRegionDomain { spans: domain.spans, included_blocks: set.to_vec() };
    }

    /// The preorder positions of the region's blocks, as maximal runs; or the first block
    /// named by the region that has no position.
    pub fn preorder_intervals(&self, graph_facts: &GraphFacts) -> (r: Result<Vec<Run>, BlockRef>)
        requires
            graph_facts.dominator_tree.tree.wf(),
        ensures
            ({
                let tree = &graph_facts.dominator_tree.tree;
                match r {
                    Ok(runs) => self.domain.missing(tree) is None && maximal_runs(
                        self.domain.holds_position(tree),
                        tree.order@.len(),
                        runs@,
                    ),
                    Err(b) => self.domain.missing(tree) == Some(b),
                }
            }),
    {
        let ghost tree = graph_facts.dominator_tree.tree;
        let n = self.domain.spans.len();
        let ghost f = span_missing(&tree, self.domain.spans@);
        let mut i: usize = 0;
        while i < n
            invariant
                tree == graph_facts.dominator_tree.tree,
                f == span_missing(&tree, self.domain.spans@),
                n == self.domain.spans@.len(),
                i <= n,
                first_some(i as nat, f) is None,
            decreases n - i,
        {
            let root = self.domain.spans[i].root;
            let absent = if root.0 >= graph_facts.dominator_tree.tree.depth.len()
                || graph_facts.dominator_tree.tree.depth[root.0].is_none() {
                Some(root)
            } else {
                find_missing(graph_facts, &self.domain.spans[i].excluded_subtrees)
            };
            assert(f(i as int) == absent);
            if let Some(b) = absent {
                proof {
                    assert(first_some((i + 1) as nat, f) == Some(b));
                    first_some_stable((i + 1) as nat, n as nat, f);
                }
                return Err(b);
            }
            i = i + 1;
        }
        if let Some(b) = find_missing(graph_facts, &self.domain.included_blocks) {
            return Err(b);
        }
        let limit = graph_facts.dominator_tree.tree.order.len();
        let ghost p = self.domain.holds_position(&tree);
        let mut runs: Vec<Run> = Vec::new();
        let mut open: Option<usize> = None;
        let mut k: usize = 0;
        while k < limit
            invariant
                tree == graph_facts.dominator_tree.tree,
                limit == tree.order@.len(),
                p == self.domain.holds_position(&tree),
                k <= limit,
                forall|i: int| 0 <= i < runs@.len() ==> (#[trigger] runs@[i]).start < runs@[i].end <= k,
                forall|i: int, j: int| 0 <= i < j < runs@.len() ==> (#[trigger] runs@[i]).end < (#[trigger] runs@[j]).start,
                match open {
                    Some(s) => s < k && (forall|i: int| 0 <= i < runs@.len() ==> (#[trigger] runs@[i]).end < s),
                    None => forall|i: int| 0 <= i < runs@.len() ==> (#[trigger] runs@[i]).end < k,
                },
                forall|q: int| 0 <= q < k ==> (#[trigger] p(q) <==> in_runs(runs@, q) || (open is Some && open->0 <= q)),
            decreases limit - k,
        {
            let inside = self.domain.contains(graph_facts, BlockRef(graph_facts.dominator_tree.tree.order[k]));
            assert(p(k as int) == inside);
            let ghost runs0 = runs@;
            let ghost open0 = open;
            if inside {
                if open.is_none() {
                    open = Some(k);
                }
            } else if let Some(s) = open {
                runs.push(Run { start: s, end: k });
                open = None;
            }
            proof {
                assert forall|i: int| 0 <= i < runs0.len() implies #[trigger] runs@[i] == runs0[i] by {}
                assert forall|q: int| 0 <= q < k + 1 implies (#[trigger] p(q) <==> in_runs(runs@, q) || (open is Some
                    && open->0 <= q)) by {
                    if in_runs(runs0, q) {
                        let i = choose|i: int| 0 <= i < runs0.len() && (#[trigger] runs0[i]).start <= q < runs0[i].end;
                        assert(runs@[i].start <= q < runs@[i].end);
                    }
                    if in_runs(runs@, q) {
                        let i = choose|i: int| 0 <= i < runs@.len() && (#[trigger] runs@[i]).start <= q < runs@[i].end;
                        if i < runs0.len() {
                            assert(runs0[i].start <= q < runs0[i].end);
                        }
                    }
                    if runs@.len() > runs0.len() && open0->0 <= q && q < k {
                        assert(runs@[runs0.len() as int].start <= q < runs@[runs0.len() as int].end);
                    }
                }
            }
            k = k + 1;
        }
        let ghost runs0 = runs@;
        if let Some(s) = open {
            runs.push(Run { start: s, end: limit });
        }
        proof {
            assert forall|i: int| 0 <= i < runs0.len() implies #[trigger] runs@[i] == runs0[i] by {}
            assert forall|q: int| 0 <= q < limit implies (#[trigger] p(q) <==> in_runs(runs@, q)) by {
                if in_runs(runs0, q) {
                    let i = choose|i: int| 0 <= i < runs0.len() && (#[trigger] runs0[i]).start <= q < runs0[i].end;
                    assert(runs@[i].start <= q < runs@[i].end);
                }
                if in_runs(runs@, q) {
                    let i = choose|i: int| 0 <= i < runs@.len() && (#[trigger] runs@[i]).start <= q < runs@[i].end;
                    if i < runs0.len() {
                        assert(runs0[i].start <= q < runs0[i].end);
                    }
                }
                if open is Some && open->0 <= q {
                    assert(runs@[runs0.len() as int].start <= q < runs@[runs0.len() as int].end);
                }
            }
        }
        Ok(runs)
    }

    /// The blocks of the region in preorder, each once.
    pub fn structured_blocks(&self, graph_facts: &GraphFacts) -> (r: Result<Vec<BlockRef>, BlockRef>)
        requires
            graph_facts.dominator_tree.tree.wf(),
        ensures
            ({
                let tree = &graph_facts.dominator_tree.tree;
                match r {
                    Ok(blocks) => {
                        &&& self.domain.missing(tree) is None
                        &&& forall|b: BlockRef| #[trigger] blocks@.contains(b) <==> tree.has(b.0) && self.domain.has(tree, b)
                        &&& forall|i: int, j: int|
                            0 <= i < j < blocks@.len() ==> tree.preorder_index@[(#[trigger] blocks@[i]).0 as int]->0
                                < tree.preorder_index@[(#[trigger] blocks@[j]).0 as int]->0
                    },
                    Err(b) => self.domain.missing(tree) == Some(b),
                }
            }),
    {
        let runs = match self.preorder_intervals(graph_facts) {
            Ok(runs) => runs,
            Err(b) => {
                return Err(b);
            },
        };
        let ghost tree = graph_facts.dominator_tree.tree;
        let limit = graph_facts.dominator_tree.tree.order.len();
        let ghost p = self.domain.holds_position(&tree);
        let mut blocks: Vec<BlockRef> = Vec::new();
        let n = runs.len();
        let mut i: usize = 0;
        let ghost mut done: int = 0;
        while i < n
            invariant
                tree == graph_facts.dominator_tree.tree,
                tree.wf(),
                limit == tree.order@.len(),
                p == self.domain.holds_position(&tree),
                maximal_runs(p, limit as nat, runs@),
                n == runs@.len(),
                i <= n,
                0 <= done <= limit,
                i < n ==> done <= runs@[i as int].start,
                done == (if i == 0 {
                    0
                } else {
                    runs@[i - 1].end as int
                }),
                blocks_upto(&tree, runs@, blocks@, done),
            decreases n - i,
        {
            let run = runs[i];
            assert(runs@[i as int] == run);
            let mut k: usize = run.start;
            proof {
                assert(blocks_upto(&tree, runs@, blocks@, run.start as int)) by {
                    assert forall|q: int| done <= q < run.start implies !#[trigger] in_runs(runs@, q) by {
                        if in_runs(runs@, q) {
                            let w = choose|w: int| 0 <= w < runs@.len() && (#[trigger] runs@[w]).start <= q < runs@[w].end;
                            if w < i {
                                if w < i - 1 {
                                    assert(runs@[w].end < runs@[i - 1].start);
                                }
                            } else if w > i {
                                assert(runs@[i as int].end < runs@[w].start);
                            }
                        }
                    }
                    extend_gap(&tree, runs@, blocks@, done, run.start as int);
                }
            }
            while k < run.end
                invariant
                    tree == graph_facts.dominator_tree.tree,
                    tree.wf(),
                    limit == tree.order@.len(),
                    i < n,
                    n == runs@.len(),
                    run == runs@[i as int],
                    run.start <= k <= run.end,
                    run.end <= limit,
                    blocks_upto(&tree, runs@, blocks@, k as int),
                decreases run.end - k,
            {
                let b = BlockRef(graph_facts.dominator_tree.tree.order[k]);
                proof {
                    assert(runs@[i as int].start <= k < runs@[i as int].end);
                    assert(in_runs(runs@, k as int));
                    extend_block(&tree, runs@, blocks@, k as int);
                }
                blocks.push(b);
                k = k + 1;
            }
            proof {
                done = run.end as int;
                if i + 1 < n {
                    assert(runs@[i as int].end < runs@[i + 1].start);
                }
            }
            i = i + 1;
        }
        proof {
            assert(blocks_upto(&tree, runs@, blocks@, limit as int)) by {
                assert forall|q: int| done <= q < limit implies !#[trigger] in_runs(runs@, q) by {
                    if in_runs(runs@, q) {
                        let w = choose|w: int| 0 <= w < runs@.len() && (#[trigger] runs@[w]).start <= q < runs@[w].end;
                        if w < n - 1 {
                            assert(runs@[w].end < runs@[n - 1].start);
                        }
                    }
                }
                extend_gap(&tree, runs@, blocks@, done, limit as int);
            }
            let depth_count = graph_facts.dominator_tree.tree.depth.len();
            assert forall|b: BlockRef| #[trigger] blocks@.contains(b) <==> tree.has(b.0) && self.domain.has(&tree, b) by {
                if blocks@.contains(b) {
                    let q = choose|q: int| 0 <= q < blocks@.len() && blocks@[q] == b;
                    let k = tree.preorder_index@[blocks@[q].0 as int]->0 as int;
                    assert(in_runs(runs@, k));
                    assert(p(k));
                    assert(members(tree.depth@)[b.0 as int]);
                }
                if tree.has(b.0) && self.domain.has(&tree, b) {
                    assert(members(tree.depth@)[b.0 as int]);
                    let k = tree.preorder_index@[b.0 as int]->0 as int;
                    assert(tree.preorder_index@[b.0 as int] is Some);
                    assert(tree.order@[k] == b.0);
                    assert(p(k));
                    assert(in_runs(runs@, k));
                    assert(blocks@.contains(BlockRef(tree.order@[k])));
                }
            }
        }
        Ok(blocks)
    }
}

/// `blocks` lists, in preorder, the blocks at the positions below `k` that lie in some run.
spec fn blocks_upto(tree: &Tree, runs: Seq<Run>, blocks: Seq<BlockRef>, k: int) -> bool {
    &&& forall|i: int| 0 <= i < blocks.len() ==> {
        let b = (#[trigger] blocks[i]).0;
        &&& b < tree.preorder_index@.len()
        &&& tree.preorder_index@[b as int] is Some
        &&& tree.preorder_index@[b as int]->0 < k
        &&& in_runs(runs, tree.preorder_index@[b as int]->0 as int)
    }
    &&& forall|i: int, j: int|
        0 <= i < j < blocks.len() ==> tree.preorder_index@[(#[trigger] blocks[i]).0 as int]->0
            < tree.preorder_index@[(#[trigger] blocks[j]).0 as int]->0
    &&& forall|q: int| 0 <= q < k && #[trigger] in_runs(runs, q) ==> blocks.contains(BlockRef(tree.order@[q]))
}

proof fn extend_gap(tree: &Tree, runs: Seq<Run>, blocks: Seq<BlockRef>, k: int, m: int)
    requires
        blocks_upto(tree, runs, blocks, k),
        0 <= k <= m,
        forall|q: int| k <= q < m ==> !#[trigger] in_runs(runs, q),
    ensures
        blocks_upto(tree, runs, blocks, m),
{
}

proof fn extend_block(tree: &Tree, runs: Seq<Run>, blocks: Seq<BlockRef>, k: int)
    requires
        tree.wf(),
        blocks_upto(tree, runs, blocks, k),
        0 <= k < tree.order@.len(),
        in_runs(runs, k),
    ensures
        blocks_upto(tree, runs, blocks.push(BlockRef(tree.order@[k])), k + 1),
{
    let b = BlockRef(tree.order@[k]);
    let next = blocks.push(b);
    let order_count = tree.order.len();
    assert(tree.order@.len() == order_count);
    assert(tree.preorder_index@[b.0 as int] == Some(k as usize));
    assert forall|q: int| 0 <= q < k + 1 && #[trigger] in_runs(runs, q) implies next.contains(BlockRef(tree.order@[q])) by {
        if q < k {
            let x = BlockRef(tree.order@[q]);
            let i = choose|i: int| 0 <= i < blocks.len() && blocks[i] == x;
            assert(next[i] == x);
        } else {
            assert(next[blocks.len() as int] == b);
        }
    }
}

} // verus!
