//! The error of a structuring step.

use vstd::prelude::*;

use crate::dataflow::{DefId, PhiId};
use crate::error_text::{child_text, text_from_outside};
use crate::evidence::PhiEdgeCopy;
use crate::ids::{BlockRef, EdgeRef, Reg};
use crate::plan::{BranchPlanId, EdgeTransfer, LoopPlanId, RegionId};

verus! {

/// What made an input or an intermediate result unusable.
#[derive(Debug, Clone, Copy, PartialEq, Eq, Structural)]
pub enum Fault {
    NoBlocks,
    MissingEntryOrExit,
    EntryIsExit,
    AdjacencyLength,
    OrderMissingBlock(BlockRef),
    OrderInvalidBlock(BlockRef),
    RangeOverflow(BlockRef),
    RangeExceedsProto(BlockRef),
    InstrOwnership(usize),
    BlockNotOrdered(usize),
    InstrsUncovered,
    ExitNotSynthetic,
    EdgeMissingBlock(usize),
    SuccessorMissingEdge(usize, EdgeRef),
    SuccessorWrongSource(EdgeRef),
    PredecessorMissingEdge(usize, EdgeRef),
    PredecessorWrongTarget(EdgeRef),
    EdgeNotIndexedOnce,
    ReachabilityMissingBlock(BlockRef),
    ReachabilityStale,
    /// A register that an instruction names, and the number of registers that there are.
    LivenessRegister(Reg, usize),
    /// Reads are listed for an instruction that is not there.
    UseMissingInstr(usize),
    UseMissingDef(DefId),
    UseMissingPhi(PhiId),
    /// A phi, and the definition that flows into it.
    SourceMissingDef(PhiId, DefId),
    /// A phi, and the phi that flows into it.
    SourceMissingPhi(PhiId, PhiId),
    /// Two regions for one branch.
    BranchRegionTwice(BlockRef),
    /// Two lists of values for one branch and the block behind it.
    BranchValuesTwice(BlockRef, BlockRef),
    MoveMissingDef(DefId),
    MoveNotDense,
    MoveOutsideProto(DefId),
    MoveWithoutSource(DefId),
    MoveCycle,
    RegionRootMissing,
    RegionWithoutParent(RegionId),
    RegionRootHasParent,
    /// A region, and the parent that it names.
    RegionMissingParent(RegionId, RegionId),
    RegionDisconnected(RegionId),
    OwnerMissingPhi(PhiId),
    PredecessorOverflow,
    PhiPredecessorConflict(PhiId),
    LoopArmOutside(PhiId, BlockRef),
    LoopArmForeign(PhiId),
    /// A phi, and the number of the incoming that both sides of a loop claim.
    LoopArmsOverlap(PhiId, usize),
    LoopResultArmsOverlap(PhiId, usize),
    ConditionValueMissing,
    /// A branch region, and the branch that it names.
    BranchPlanMissing(RegionId, BranchPlanId),
    LoopPlanMissing(RegionId, LoopPlanId),
    ValueDecisionMissing(RegionId),
    PhiBlockWithoutRegion(PhiId),
    OwnerRowMissing(PhiId),
    /// A phi, the number of slots for its owners, and the number of its incomings.
    OwnerRowLength(PhiId, usize, usize),
    /// A phi, and the phi that flows into it.
    IncomingMissingPhi(PhiId, PhiId),
    LoopRegisterOverflow,
    LoopHeaderMissingPhi(RegionId, PhiId),
    LoopHeaderTwice(RegionId, Reg),
    LoopExitMissingPhi(RegionId, PhiId),
    CanonicalTargetConflict(PhiId),
    OwnerPlanMissing(PhiId),
    IncomingMissingEdge(PhiId, EdgeRef),
    /// An edge, and the phi that it would write.
    CopyTargetMissing(EdgeRef, PhiId),
    CopyTargetTwice(EdgeRef, PhiId),
    ForwardOrderOutside,
    ForwardOrderTwice,
    EdgePlanMissing(EdgeRef),
    /// An edge that has copies and no plan to hold them.
    EdgePlanAbsent(EdgeRef),
    ForwardedTargetMissing(PhiId),
    ForwardedTargetTwice(PhiId),
    ForwardedPhiMissing(PhiId),
    ForwardedDefMissing(DefId),
    ForwardedUsesMissing(DefId),
    /// A place in the list of phis, and the phi that stands there.
    PhiArenaSlot(usize, PhiId),
    RegionNodeMissing(RegionId),
    RegionCycle(RegionId),
    /// A phi, the number of one of its incomings, and the edge that it names.
    IncomingEdgePlanMissing(PhiId, usize, EdgeRef),
    IncomingEdgeOutsideCfg(PhiId, usize, EdgeRef),
    /// A phi, the number of its owners, and the number of its incomings.
    OwnerCount(PhiId, usize, usize),
    PhiBlockOutside(PhiId),
    PhiOwnerMissing(PhiId, RegionId),
    UnresolvedBlockMissing(PhiId, BlockRef),
    OwnershipArena,
    UnresolvedMissingPhi(PhiId),
    PhiPlanAbsent(PhiId),
    PhiPlanMismatch(PhiId),
    PhiIncomingMismatch(PhiId, usize),
    PhiIncomingOwnerMissing(PhiId, usize, RegionId),
    PhiCarriedNotLoop(PhiId, usize, RegionId),
    PhiCopyWithoutEdge(PhiId, usize),
    PhiLiveDead(PhiId, usize),
    PhiUnresolvedUnstated(PhiId, usize),
    PhiIncomingMissingEdge(PhiId, usize, EdgeRef),
    OwnershipIndexStale,
    ForwardHeadsStale,
    EdgeCopiesStale(EdgeRef),
}

/// Copies on an edge that are not as they should be, and where the edge leads.
#[derive(Debug, Clone, PartialEq, Eq)]
pub struct StaleCopies {
    pub expected: Vec<PhiEdgeCopy>,
    pub actual: Vec<PhiEdgeCopy>,
    pub transfer: EdgeTransfer,
}

/// An invalid structure plan.
#[derive(Debug, Clone, PartialEq, Eq)]
pub struct StructureError {
    pub fault: Fault,
    /// The copies, where they are what is wrong.
    pub stale: Option<StaleCopies>,
}

impl StructureError {
    pub fn invalid(fault: Fault) -> (r: Self)
        ensures
            r.fault == fault,
            r.stale is None,
    {
        StructureError { fault, stale: None }
    }

    /// An edge makes other copies than it should.
    pub fn stale_copies(edge: EdgeRef, copies: StaleCopies) -> (r: Self)
        ensures
            r.fault == Fault::EdgeCopiesStale(edge),
            r.stale == Some(copies),
    {
        StructureError { fault: Fault::EdgeCopiesStale(edge), stale: Some(copies) }
    }
}

/// An error, and the way to the prototype in which it came up: an index into the nested
/// prototypes on each level.
#[derive(Debug)]
pub struct LocatedError {
    pub error: StructureError,
    pub path: Vec<usize>,
}

impl LocatedError {
    /// An error in the prototype itself.
    pub fn here(error: StructureError) -> (r: Self)
        ensures
            r.error == error,
            r.path@ == Seq::<usize>::empty(),
    {
        let path: Vec<usize> = Vec::new();
        assert(path@ =~= Seq::<usize>::empty());
        LocatedError { error, path }
    }

    /// The same error, as it looks from the prototype around.
    pub fn context(self, child: usize) -> (r: Self)
        ensures
            r.error == self.error,
            r.path@ == seq![child] + self.path@,
            r.text() == child_text(child) + self.text(),
    {
        proof {
            text_from_outside(self.path@, self.error, child);
        }
        let mut path: Vec<usize> = Vec::new();
        path.push(child);
        let n = self.path.len();
        assert(path@ =~= seq![child] + self.path@.subrange(0, 0));
        let mut i: usize = 0;
        while i < n
            invariant
                n == self.path@.len(),
                i <= n,
                path@ == seq![child] + self.path@.subrange(0, i as int),
            decreases n - i,
        {
            path.push(self.path[i]);
            assert(path@ =~= seq![child] + self.path@.subrange(0, i + 1));
            i = i + 1;
        }
        assert(self.path@.subrange(0, n as int) =~= self.path@);
        LocatedError { error: self.error, path }
    }
}

} // verus!
