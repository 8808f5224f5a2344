//! Errors as text.

use vstd::prelude::*;

use crate::error::{Fault, LocatedError, StructureError};
use crate::ownership_text::{stale_copies_text, write_stale_copies};
use crate::text::{
    block_text, def_text, edge_text, number, phi_text, put_number, reg_text, write_block, write_def, write_edge,
    write_phi, write_reg,
};

verus! {

/// What went wrong.
pub open spec fn fault_text(t: Seq<char>, f: Fault) -> Seq<char> {
    match f {
        Fault::NoBlocks => t + "CFG has no blocks"@,
        Fault::MissingEntryOrExit => t + "CFG entry or exit block is missing"@,
        Fault::EntryIsExit => t + "CFG entry and exit blocks are identical"@,
        Fault::AdjacencyLength => t + "CFG predecessor/successor index length does not match blocks"@,
        Fault::OrderMissingBlock(b) => block_text(t + "CFG block order references missing "@, b),
        Fault::OrderInvalidBlock(b) => block_text(t + "CFG block order contains invalid or duplicate "@, b),
        Fault::RangeOverflow(b) => {
            let t = block_text(t + "CFG block "@, b);
            t + " instruction range overflows"@
        },
        Fault::RangeExceedsProto(b) => {
            let t = block_text(t + "CFG block "@, b);
            t + " instruction range exceeds the proto"@
        },
        Fault::InstrOwnership(i) => {
            let t = number(t + "CFG instruction @"@, i as nat);
            t + " has conflicting block ownership"@
        },
        Fault::BlockNotOrdered(i) => {
            let t = number(t + "CFG block #"@, i as nat);
            t + " is missing from block order"@
        },
        Fault::InstrsUncovered => t + "CFG instruction ownership does not cover the proto"@,
        Fault::ExitNotSynthetic => t + "CFG exit block is not marked synthetic"@,
        Fault::EdgeMissingBlock(i) => {
            let t = number(t + "CFG edge #"@, i as nat);
            t + " references a missing block"@
        },
        Fault::SuccessorMissingEdge(b, e) => {
            let t = number(t + "CFG successor index for block #"@, b as nat);
            edge_text(t + " references missing "@, e)
        },
        Fault::SuccessorWrongSource(e) => {
            let t = edge_text(t + "CFG successor index assigns "@, e);
            t + " to the wrong source block"@
        },
        Fault::PredecessorMissingEdge(b, e) => {
            let t = number(t + "CFG predecessor index for block #"@, b as nat);
            edge_text(t + " references missing "@, e)
        },
        Fault::PredecessorWrongTarget(e) => {
            let t = edge_text(t + "CFG predecessor index assigns "@, e);
            t + " to the wrong target block"@
        },
        Fault::EdgeNotIndexedOnce => t + "CFG edge is missing from or duplicated in an adjacency index"@,
        Fault::ReachabilityMissingBlock(b) => block_text(t + "CFG reachability references missing "@, b),
        Fault::ReachabilityStale => t + "CFG reachability index is stale"@,
        Fault::LivenessRegister(reg, count) => {
            let t = number(t + "liveness register r"@, reg.0 as nat);
            number(t + " exceeds register arena "@, count as nat)
        },
        Fault::UseMissingInstr(i) => number(t + "SSA use table contains missing instruction @"@, i as nat),
        Fault::UseMissingDef(d) => {
            let t = number(t + "SSA use references missing definition DefId("@, d.0 as nat);
            t + ")"@
        },
        Fault::UseMissingPhi(p) => phi_text(t + "SSA use references missing "@, p),
        Fault::SourceMissingDef(p, d) => {
            let t = phi_text(t, p);
            let t = number(t + " references missing definition DefId("@, d.0 as nat);
            t + ")"@
        },
        Fault::SourceMissingPhi(p, q) => {
            let t = phi_text(t, p);
            phi_text(t + " references missing source "@, q)
        },
        Fault::BranchRegionTwice(b) => {
            let t = block_text(t + "branch "@, b);
            t + " has multiple region facts"@
        },
        Fault::BranchValuesTwice(b, m) => {
            let t = block_text(t + "branch "@, b);
            let t = block_text(t + " -> "@, m);
            t + " has multiple value plans"@
        },
        Fault::MoveMissingDef(d) => def_text(t + "edge action references missing "@, d),
        Fault::MoveNotDense => t + "edge action references a non-dense SSA def"@,
        Fault::MoveOutsideProto(d) => {
            let t = def_text(t + "edge action "@, d);
            t + " references an instruction outside the proto"@
        },
        Fault::MoveWithoutSource(d) => {
            let t = def_text(t + "edge action "@, d);
            t + " Move has no canonical SSA source"@
        },
        Fault::MoveCycle => t + "transparent Move identities form an SSA cycle"@,
        Fault::RegionRootMissing => t + "region owner index requires a valid plan root"@,
        Fault::RegionWithoutParent(r) => {
            let t = number(t + "non-root region "@, r.0 as nat);
            t + " has no containment parent"@
        },
        Fault::RegionRootHasParent => t + "plan root unexpectedly has a containment parent"@,
        Fault::RegionMissingParent(r, p) => {
            let t = number(t + "region "@, r.0 as nat);
            number(t + " references missing parent "@, p.0 as nat)
        },
        Fault::RegionDisconnected(r) => {
            let t = number(t + "region "@, r.0 as nat);
            t + " is disconnected from the plan root"@
        },
        Fault::OwnerMissingPhi(p) => phi_text(t + "selected value owner references missing "@, p),
        Fault::PredecessorOverflow => t + "phi predecessor index overflows its dense arena"@,
        Fault::PhiPredecessorConflict(p) => {
            let t = phi_text(t, p);
            t + " has inconsistent SSA values from one predecessor"@
        },
        Fault::LoopArmOutside(p, b) => {
            let t = phi_text(t, p);
            let t = block_text(t + " loop arm predecessor "@, b);
            t + " is outside the dense block arena"@
        },
        Fault::LoopArmForeign(p) => {
            let t = phi_text(t, p);
            t + " loop arm contains a non-canonical incoming"@
        },
        Fault::LoopArmsOverlap(p, i) => {
            let t = phi_text(t, p);
            let t = number(t + " incoming #"@, i as nat);
            t + " belongs to both loop arms"@
        },
        Fault::LoopResultArmsOverlap(p, i) => {
            let t = phi_text(t, p);
            let t = number(t + " incoming #"@, i as nat);
            t + " belongs to both loop result arms"@
        },
        Fault::ConditionValueMissing => t + "selected region references a missing condition value plan"@,
        Fault::BranchPlanMissing(r, b) => {
            let t = number(t + "branch region "@, r.0 as nat);
            number(t + " references missing plan "@, b.0 as nat)
        },
        Fault::LoopPlanMissing(r, l) => {
            let t = number(t + "loop region "@, r.0 as nat);
            number(t + " references missing plan "@, l.0 as nat)
        },
        Fault::ValueDecisionMissing(r) => {
            let t = number(t + "value decision region "@, r.0 as nat);
            t + " references a missing payload"@
        },
        Fault::PhiBlockWithoutRegion(p) => {
            let t = phi_text(t, p);
            t + " target block has no region"@
        },
        Fault::OwnerRowMissing(p) => {
            let t = phi_text(t, p);
            t + " has no incoming ownership row"@
        },
        Fault::OwnerRowLength(p, n, m) => {
            let t = phi_text(t, p);
            let t = number(t + " has "@, n as nat);
            let t = number(t + " owner slots for "@, m as nat);
            t + " incomings"@
        },
        Fault::IncomingMissingPhi(p, q) => {
            let t = phi_text(t, p);
            phi_text(t + " incoming references missing "@, q)
        },
        Fault::LoopRegisterOverflow => t + "loop value register index overflows its dense arena"@,
        Fault::LoopHeaderMissingPhi(r, p) => {
            let t = number(t + "loop region "@, r.0 as nat);
            phi_text(t + " header references missing "@, p)
        },
        Fault::LoopHeaderTwice(r, reg) => {
            let t = number(t + "loop region "@, r.0 as nat);
            reg_text(t + " has multiple header phis for "@, reg)
        },
        Fault::LoopExitMissingPhi(r, p) => {
            let t = number(t + "loop region "@, r.0 as nat);
            phi_text(t + " exit references missing "@, p)
        },
        Fault::CanonicalTargetConflict(p) => {
            let t = phi_text(t, p);
            t + " has conflicting canonical loop targets"@
        },
        Fault::OwnerPlanMissing(p) => {
            let t = phi_text(t, p);
            t + " has no incoming ownership plan"@
        },
        Fault::IncomingMissingEdge(p, e) => {
            let t = phi_text(t, p);
            edge_text(t + " incoming references missing edge "@, e)
        },
        Fault::CopyTargetMissing(e, p) => {
            let t = edge_text(t + "edge "@, e);
            let t = phi_text(t + " canonical copy target "@, p);
            t + " is outside the phi arena"@
        },
        Fault::CopyTargetTwice(e, p) => {
            let t = edge_text(t + "edge "@, e);
            let t = phi_text(t + " writes "@, p);
            t + " more than once"@
        },
        Fault::ForwardOrderOutside => t + "forward route preorder exceeds its dense arena"@,
        Fault::ForwardOrderTwice => t + "forward route preorder contains duplicate ranks"@,
        Fault::EdgePlanMissing(e) => edge_text(t + "missing edge plan for "@, e),
        Fault::EdgePlanAbsent(e) => edge_text(t + "missing edge plan "@, e),
        Fault::ForwardedTargetMissing(p) => phi_text(t + "forwarded action targets missing "@, p),
        Fault::ForwardedTargetTwice(p) => {
            let t = phi_text(t + "forwarded action batch writes "@, p);
            t + " more than once"@
        },
        Fault::ForwardedPhiMissing(p) => phi_text(t + "forwarded action references missing "@, p),
        Fault::ForwardedDefMissing(d) => def_text(t + "forwarded action references missing "@, d),
        Fault::ForwardedUsesMissing(d) => {
            let t = def_text(t, d);
            t + " has no canonical use-value summary"@
        },
        Fault::PhiArenaSlot(i, p) => {
            let t = number(t + "phi arena slot "@, i as nat);
            phi_text(t + " contains "@, p)
        },
        Fault::RegionNodeMissing(r) => {
            let t = number(t + "region "@, r.0 as nat);
            t + " has a missing containment node"@
        },
        Fault::RegionCycle(r) => number(t + "region containment contains a cycle at "@, r.0 as nat),
        Fault::IncomingEdgePlanMissing(p, i, e) => {
            let t = phi_text(t, p);
            let t = number(t + " incoming #"@, i as nat);
            edge_text(t + " references missing edge "@, e)
        },
        Fault::IncomingEdgeOutsideCfg(p, i, e) => {
            let t = phi_text(t, p);
            let t = number(t + " incoming #"@, i as nat);
            let t = edge_text(t + " references edge "@, e);
            t + " outside CFG"@
        },
        Fault::OwnerCount(p, n, m) => {
            let t = phi_text(t, p);
            let t = number(t + " has "@, n as nat);
            let t = number(t + " owners for "@, m as nat);
            t + " incomings"@
        },
        Fault::PhiBlockOutside(p) => {
            let t = phi_text(t, p);
            t + " target block is outside the CFG arena"@
        },
        Fault::PhiOwnerMissing(p, r) => {
            let t = phi_text(t, p);
            number(t + " refers to missing value owner region "@, r.0 as nat)
        },
        Fault::UnresolvedBlockMissing(p, b) => {
            let t = phi_text(t + "unresolved requirement for "@, p);
            block_text(t + " references missing block "@, b)
        },
        Fault::OwnershipArena => t + "value ownership arena does not match CFG/dataflow"@,
        Fault::UnresolvedMissingPhi(p) => phi_text(t + "unresolved requirement references missing "@, p),
        Fault::PhiPlanAbsent(p) => phi_text(t + "missing value plan for "@, p),
        Fault::PhiPlanMismatch(p) => {
            let t = phi_text(t, p);
            t + " value plan does not match canonical SSA"@
        },
        Fault::PhiIncomingMismatch(p, i) => {
            let t = phi_text(t, p);
            let t = number(t + " incoming #"@, i as nat);
            t + " source does not match canonical SSA"@
        },
        Fault::PhiIncomingOwnerMissing(p, i, r) => {
            let t = phi_text(t, p);
            let t = number(t + " incoming #"@, i as nat);
            number(t + " refers to missing region "@, r.0 as nat)
        },
        Fault::PhiCarriedNotLoop(p, i, r) => {
            let t = phi_text(t, p);
            let t = number(t + " incoming #"@, i as nat);
            number(t + " has non-loop carried owner "@, r.0 as nat)
        },
        Fault::PhiCopyWithoutEdge(p, i) => {
            let t = phi_text(t, p);
            let t = number(t + " synthetic incoming #"@, i as nat);
            t + " is edge-owned"@
        },
        Fault::PhiLiveDead(p, i) => {
            let t = phi_text(t + "live reachable "@, p);
            let t = number(t + " incoming #"@, i as nat);
            t + " is dead"@
        },
        Fault::PhiUnresolvedUnstated(p, i) => {
            let t = phi_text(t, p);
            let t = number(t + " incoming #"@, i as nat);
            t + " has no unresolved requirement"@
        },
        Fault::PhiIncomingMissingEdge(p, i, e) => {
            let t = phi_text(t, p);
            let t = number(t + " incoming #"@, i as nat);
            edge_text(t + " references missing edge "@, e)
        },
        Fault::OwnershipIndexStale => t + "value ownership reverse indexes are inconsistent"@,
        Fault::ForwardHeadsStale => t + "forwarded phi action index is inconsistent"@,
        Fault::EdgeCopiesStale(e) => {
            let t = edge_text(t + "edge "@, e);
            t + " phi copies do not match incoming ownership"@
        },
    }
}

pub fn write_fault(out: &mut String, f: Fault)
    ensures
        final(out)@ == fault_text(old(out)@, f),
{
    match f {
        Fault::NoBlocks => {
            out.append("CFG has no blocks");
        },
        Fault::MissingEntryOrExit => {
            out.append("CFG entry or exit block is missing");
        },
        Fault::EntryIsExit => {
            out.append("CFG entry and exit blocks are identical");
        },
        Fault::AdjacencyLength => {
            out.append("CFG predecessor/successor index length does not match blocks");
        },
        Fault::OrderMissingBlock(b) => {
            out.append("CFG block order references missing ");
            write_block(out, b);
        },
        Fault::OrderInvalidBlock(b) => {
            out.append("CFG block order contains invalid or duplicate ");
            write_block(out, b);
        },
        Fault::RangeOverflow(b) => {
            out.append("CFG block ");
            write_block(out, b);
            out.append(" instruction range overflows");
        },
        Fault::RangeExceedsProto(b) => {
            out.append("CFG block ");
            write_block(out, b);
            out.append(" instruction range exceeds the proto");
        },
        Fault::InstrOwnership(i) => {
            out.append("CFG instruction @");
            put_number(out, i);
            out.append(" has conflicting block ownership");
        },
        Fault::BlockNotOrdered(i) => {
            out.append("CFG block #");
            put_number(out, i);
            out.append(" is missing from block order");
        },
        Fault::InstrsUncovered => {
            out.append("CFG instruction ownership does not cover the proto");
        },
        Fault::ExitNotSynthetic => {
            out.append("CFG exit block is not marked synthetic");
        },
        Fault::EdgeMissingBlock(i) => {
            out.append("CFG edge #");
            put_number(out, i);
            out.append(" references a missing block");
        },
        Fault::SuccessorMissingEdge(b, e) => {
            out.append("CFG successor index for block #");
            put_number(out, b);
            out.append(" references missing ");
            write_edge(out, e);
        },
        Fault::SuccessorWrongSource(e) => {
            out.append("CFG successor index assigns ");
            write_edge(out, e);
            out.append(" to the wrong source block");
        },
        Fault::PredecessorMissingEdge(b, e) => {
            out.append("CFG predecessor index for block #");
            put_number(out, b);
            out.append(" references missing ");
            write_edge(out, e);
        },
        Fault::PredecessorWrongTarget(e) => {
            out.append("CFG predecessor index assigns ");
            write_edge(out, e);
            out.append(" to the wrong target block");
        },
        Fault::EdgeNotIndexedOnce => {
            out.append("CFG edge is missing from or duplicated in an adjacency index");
        },
        Fault::ReachabilityMissingBlock(b) => {
            out.append("CFG reachability references missing ");
            write_block(out, b);
        },
        Fault::ReachabilityStale => {
            out.append("CFG reachability index is stale");
        },
        Fault::LivenessRegister(reg, count) => {
            out.append("liveness register r");
            put_number(out, reg.0);
            out.append(" exceeds register arena ");
            put_number(out, count);
        },
        Fault::UseMissingInstr(i) => {
            out.append("SSA use table contains missing instruction @");
            put_number(out, i);
        },
        Fault::UseMissingDef(d) => {
            out.append("SSA use references missing definition DefId(");
            put_number(out, d.0);
            out.append(")");
        },
        Fault::UseMissingPhi(p) => {
            out.append("SSA use references missing ");
            write_phi(out, p);
        },
        Fault::SourceMissingDef(p, d) => {
            write_phi(out, p);
            out.append(" references missing definition DefId(");
            put_number(out, d.0);
            out.append(")");
        },
        Fault::SourceMissingPhi(p, q) => {
            write_phi(out, p);
            out.append(" references missing source ");
            write_phi(out, q);
        },
        Fault::BranchRegionTwice(b) => {
            out.append("branch ");
            write_block(out, b);
            out.append(" has multiple region facts");
        },
        Fault::BranchValuesTwice(b, m) => {
            out.append("branch ");
            write_block(out, b);
            out.append(" -> ");
            write_block(out, m);
            out.append(" has multiple value plans");
        },
        Fault::MoveMissingDef(d) => {
            out.append("edge action references missing ");
            write_def(out, d);
        },
        Fault::MoveNotDense => {
            out.append("edge action references a non-dense SSA def");
        },
        Fault::MoveOutsideProto(d) => {
            out.append("edge action ");
            write_def(out, d);
            out.append(" references an instruction outside the proto");
        },
        Fault::MoveWithoutSource(d) => {
            out.append("edge action ");
            write_def(out, d);
            out.append(" Move has no canonical SSA source");
        },
        Fault::MoveCycle => {
            out.append("transparent Move identities form an SSA cycle");
        },
        Fault::RegionRootMissing => {
            out.append("region owner index requires a valid plan root");
        },
        Fault::RegionWithoutParent(r) => {
            out.append("non-root region ");
            put_number(out, r.0);
            out.append(" has no containment parent");
        },
        Fault::RegionRootHasParent => {
            out.append("plan root unexpectedly has a containment parent");
        },
        Fault::RegionMissingParent(r, p) => {
            out.append("region ");
            put_number(out, r.0);
            out.append(" references missing parent ");
            put_number(out, p.0);
        },
        Fault::RegionDisconnected(r) => {
            out.append("region ");
            put_number(out, r.0);
            out.append(" is disconnected from the plan root");
        },
        Fault::OwnerMissingPhi(p) => {
            out.append("selected value owner references missing ");
            write_phi(out, p);
        },
        Fault::PredecessorOverflow => {
            out.append("phi predecessor index overflows its dense arena");
        },
        Fault::PhiPredecessorConflict(p) => {
            write_phi(out, p);
            out.append(" has inconsistent SSA values from one predecessor");
        },
        Fault::LoopArmOutside(p, b) => {
            write_phi(out, p);
            out.append(" loop arm predecessor ");
            write_block(out, b);
            out.append(" is outside the dense block arena");
        },
        Fault::LoopArmForeign(p) => {
            write_phi(out, p);
            out.append(" loop arm contains a non-canonical incoming");
        },
        Fault::LoopArmsOverlap(p, i) => {
            write_phi(out, p);
            out.append(" incoming #");
            put_number(out, i);
            out.append(" belongs to both loop arms");
        },
        Fault::LoopResultArmsOverlap(p, i) => {
            write_phi(out, p);
            out.append(" incoming #");
            put_number(out, i);
            out.append(" belongs to both loop result arms");
        },
        Fault::ConditionValueMissing => {
            out.append("selected region references a missing condition value plan");
        },
        Fault::BranchPlanMissing(r, b) => {
            out.append("branch region ");
            put_number(out, r.0);
            out.append(" references missing plan ");
            put_number(out, b.0);
        },
        Fault::LoopPlanMissing(r, l) => {
            out.append("loop region ");
            put_number(out, r.0);
            out.append(" references missing plan ");
            put_number(out, l.0);
        },
        Fault::ValueDecisionMissing(r) => {
            out.append("value decision region ");
            put_number(out, r.0);
            out.append(" references a missing payload");
        },
        Fault::PhiBlockWithoutRegion(p) => {
            write_phi(out, p);
            out.append(" target block has no region");
        },
        Fault::OwnerRowMissing(p) => {
            write_phi(out, p);
            out.append(" has no incoming ownership row");
        },
        Fault::OwnerRowLength(p, n, m) => {
            write_phi(out, p);
            out.append(" has ");
            put_number(out, n);
            out.append(" owner slots for ");
            put_number(out, m);
            out.append(" incomings");
        },
        Fault::IncomingMissingPhi(p, q) => {
            write_phi(out, p);
            out.append(" incoming references missing ");
            write_phi(out, q);
        },
        Fault::LoopRegisterOverflow => {
            out.append("loop value register index overflows its dense arena");
        },
        Fault::LoopHeaderMissingPhi(r, p) => {
            out.append("loop region ");
            put_number(out, r.0);
            out.append(" header references missing ");
            write_phi(out, p);
        },
        Fault::LoopHeaderTwice(r, reg) => {
            out.append("loop region ");
            put_number(out, r.0);
            out.append(" has multiple header phis for ");
            write_reg(out, reg);
        },
        Fault::LoopExitMissingPhi(r, p) => {
            out.append("loop region ");
            put_number(out, r.0);
            out.append(" exit references missing ");
            write_phi(out, p);
        },
        Fault::CanonicalTargetConflict(p) => {
            write_phi(out, p);
            out.append(" has conflicting canonical loop targets");
        },
        Fault::OwnerPlanMissing(p) => {
            write_phi(out, p);
            out.append(" has no incoming ownership plan");
        },
        Fault::IncomingMissingEdge(p, e) => {
            write_phi(out, p);
            out.append(" incoming references missing edge ");
            write_edge(out, e);
        },
        Fault::CopyTargetMissing(e, p) => {
            out.append("edge ");
            write_edge(out, e);
            out.append(" canonical copy target ");
            write_phi(out, p);
            out.append(" is outside the phi arena");
        },
        Fault::CopyTargetTwice(e, p) => {
            out.append("edge ");
            write_edge(out, e);
            out.append(" writes ");
            write_phi(out, p);
            out.append(" more than once");
        },
        Fault::ForwardOrderOutside => {
            out.append("forward route preorder exceeds its dense arena");
        },
        Fault::ForwardOrderTwice => {
            out.append("forward route preorder contains duplicate ranks");
        },
        Fault::EdgePlanMissing(e) => {
            out.append("missing edge plan for ");
            write_edge(out, e);
        },
        Fault::EdgePlanAbsent(e) => {
            out.append("missing edge plan ");
            write_edge(out, e);
        },
        Fault::ForwardedTargetMissing(p) => {
            out.append("forwarded action targets missing ");
            write_phi(out, p);
        },
        Fault::ForwardedTargetTwice(p) => {
            out.append("forwarded action batch writes ");
            write_phi(out, p);
            out.append(" more than once");
        },
        Fault::ForwardedPhiMissing(p) => {
            out.append("forwarded action references missing ");
            write_phi(out, p);
        },
        Fault::ForwardedDefMissing(d) => {
            out.append("forwarded action references missing ");
            write_def(out, d);
        },
        Fault::ForwardedUsesMissing(d) => {
            write_def(out, d);
            out.append(" has no canonical use-value summary");
        },
        Fault::PhiArenaSlot(i, p) => {
            out.append("phi arena slot ");
            put_number(out, i);
            out.append(" contains ");
            write_phi(out, p);
        },
        Fault::RegionNodeMissing(r) => {
            out.append("region ");
            put_number(out, r.0);
            out.append(" has a missing containment node");
        },
        Fault::RegionCycle(r) => {
            out.append("region containment contains a cycle at ");
            put_number(out, r.0);
        },
        Fault::IncomingEdgePlanMissing(p, i, e) => {
            write_phi(out, p);
            out.append(" incoming #");
            put_number(out, i);
            out.append(" references missing edge ");
            write_edge(out, e);
        },
        Fault::IncomingEdgeOutsideCfg(p, i, e) => {
            write_phi(out, p);
            out.append(" incoming #");
            put_number(out, i);
            out.append(" references edge ");
            write_edge(out, e);
            out.append(" outside CFG");
        },
        Fault::OwnerCount(p, n, m) => {
            write_phi(out, p);
            out.append(" has ");
            put_number(out, n);
            out.append(" owners for ");
            put_number(out, m);
            out.append(" incomings");
        },
        Fault::PhiBlockOutside(p) => {
            write_phi(out, p);
            out.append(" target block is outside the CFG arena");
        },
        Fault::PhiOwnerMissing(p, r) => {
            write_phi(out, p);
            out.append(" refers to missing value owner region ");
            put_number(out, r.0);
        },
        Fault::UnresolvedBlockMissing(p, b) => {
            out.append("unresolved requirement for ");
            write_phi(out, p);
            out.append(" references missing block ");
            write_block(out, b);
        },
        Fault::OwnershipArena => {
            out.append("value ownership arena does not match CFG/dataflow");
        },
        Fault::UnresolvedMissingPhi(p) => {
            out.append("unresolved requirement references missing ");
            write_phi(out, p);
        },
        Fault::PhiPlanAbsent(p) => {
            out.append("missing value plan for ");
            write_phi(out, p);
        },
        Fault::PhiPlanMismatch(p) => {
            write_phi(out, p);
            out.append(" value plan does not match canonical SSA");
        },
        Fault::PhiIncomingMismatch(p, i) => {
            write_phi(out, p);
            out.append(" incoming #");
            put_number(out, i);
            out.append(" source does not match canonical SSA");
        },
        Fault::PhiIncomingOwnerMissing(p, i, r) => {
            write_phi(out, p);
            out.append(" incoming #");
            put_number(out, i);
            out.append(" refers to missing region ");
            put_number(out, r.0);
        },
        Fault::PhiCarriedNotLoop(p, i, r) => {
            write_phi(out, p);
            out.append(" incoming #");
            put_number(out, i);
            out.append(" has non-loop carried owner ");
            put_number(out, r.0);
        },
        Fault::PhiCopyWithoutEdge(p, i) => {
            write_phi(out, p);
            out.append(" synthetic incoming #");
            put_number(out, i);
            out.append(" is edge-owned");
        },
        Fault::PhiLiveDead(p, i) => {
            out.append("live reachable ");
            write_phi(out, p);
            out.append(" incoming #");
            put_number(out, i);
            out.append(" is dead");
        },
        Fault::PhiUnresolvedUnstated(p, i) => {
            write_phi(out, p);
            out.append(" incoming #");
            put_number(out, i);
            out.append(" has no unresolved requirement");
        },
        Fault::PhiIncomingMissingEdge(p, i, e) => {
            write_phi(out, p);
            out.append(" incoming #");
            put_number(out, i);
            out.append(" references missing edge ");
            write_edge(out, e);
        },
        Fault::OwnershipIndexStale => {
            out.append("value ownership reverse indexes are inconsistent");
        },
        Fault::ForwardHeadsStale => {
            out.append("forwarded phi action index is inconsistent");
        },
        Fault::EdgeCopiesStale(e) => {
            out.append("edge ");
            write_edge(out, e);
            out.append(" phi copies do not match incoming ownership");
        },
    }
}

/// What comes in front of an error in a nested prototype.
pub open spec fn child_text(child: usize) -> Seq<char> {
    number("child proto #"@, child as nat) + ": "@
}

/// The way to a nested prototype.
pub open spec fn path_text(path: Seq<usize>) -> Seq<char>
    decreases path.len(),
{
    if path.len() == 0 {
        Seq::empty()
    } else {
        child_text(path[0]) + path_text(path.drop_first())
    }
}

fn write_path(path: &Vec<usize>) -> (out: String)
    ensures
        out@ == path_text(path@),
{
    let n = path.len();
    let mut out = String::new();
    let mut i: usize = 0;
    assert(path@.subrange(0, n as int) =~= path@);
    assert(out@ + path_text(path@) =~= path_text(path@));
    while i < n
        invariant
            n == path@.len(),
            i <= n,
            out@ + path_text(path@.subrange(i as int, n as int)) == path_text(path@),
        decreases n - i,
    {
        let ghost rest = path@.subrange(i as int, n as int);
        let ghost before = out@;
        let mut step = String::new();
        step.append("child proto #");
        assert(step@ =~= "child proto #"@);
        put_number(&mut step, path[i]);
        step.append(": ");
        out.append(step.as_str());
        proof {
            assert(rest.drop_first() =~= path@.subrange(i + 1, n as int));
            assert(out@ =~= before + child_text(path@[i as int]));
            assert(out@ + path_text(rest.drop_first()) =~= before + path_text(rest));
        }
        i = i + 1;
    }
    assert(path@.subrange(n as int, n as int) =~= Seq::empty());
    assert(out@ =~= out@ + path_text(Seq::empty()));
    out
}

impl StructureError {
    /// What went wrong; of copies that are not as they should be, also what they should be,
    /// what they are, and where the edge leads.
    pub open spec fn text(&self) -> Seq<char> {
        match (self.fault, self.stale) {
            (Fault::EdgeCopiesStale(e), Some(s)) => stale_copies_text(
                Seq::empty(),
                e,
                s.expected@,
                s.actual@,
                s.transfer,
            ),
            _ => fault_text(Seq::empty(), self.fault),
        }
    }

    /// What went wrong, as text.
    pub fn detail(&self) -> (r: String)
        ensures
            r@ == self.text(),
    {
        let mut out = String::new();
        if let Fault::EdgeCopiesStale(e) = self.fault {
            if let Some(s) = &self.stale {
                write_stale_copies(&mut out, e, &s.expected, &s.actual, s.transfer);
                return out;
            }
        }
        write_fault(&mut out, self.fault);
        out
    }
}

/// The text of an error in the prototype at the end of a path.
pub open spec fn located_text(path: Seq<usize>, error: StructureError) -> Seq<char> {
    path_text(path) + error.text()
}

impl LocatedError {
    pub open spec fn text(&self) -> Seq<char> {
        located_text(self.path@, self.error)
    }

    /// Where something went wrong, and what, as text.
    pub fn detail(&self) -> (r: String)
        ensures
            r@ == self.text(),
    {
        let mut out = write_path(&self.path);
        let what = self.error.detail();
        out.append(what.as_str());
        out
    }
}

/// Seen from the prototype around, an error reads as before, behind the number of the nested
/// prototype.
pub proof fn text_from_outside(path: Seq<usize>, error: StructureError, child: usize)
    ensures
        located_text(seq![child] + path, error) == child_text(child) + located_text(path, error),
{
    let outer = seq![child] + path;
    assert(outer.drop_first() =~= path);
    assert(outer[0] == child);
    assert(located_text(outer, error) =~= child_text(child) + located_text(path, error));
}

} // verus!
