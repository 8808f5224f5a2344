//! Copies and what their edges lead to as text, with their types.

use vstd::prelude::*;

use crate::diagnostic::{value_ref_text, write_value_ref};
use crate::error::Fault;
use crate::error_text::{fault_text, write_fault};
use crate::evidence::{GotoReason, PhiEdgeCopy};
use crate::ids::EdgeRef;
use crate::plan::EdgeTransfer;
use crate::plan_text::{branch_arm_text, write_branch_arm};
use crate::text::{number, put_number};

verus! {

/// The first `n` copies with their types, with commas between them.
pub open spec fn copy_refs_text(t: Seq<char>, list: Seq<PhiEdgeCopy>, n: nat) -> Seq<char>
    decreases n,
{
    if n == 0 {
        t
    } else {
        let t = copy_refs_text(t, list, (n - 1) as nat);
        let t = if n > 1 {
            t + ", "@
        } else {
            t
        };
        let x = list[n - 1];
        let t = number(t + "PhiEdgeCopy { phi_id: PhiId("@, x.phi_id.0 as nat);
        let t = value_ref_text(t + "), value: "@, x.value);
        t + " }"@
    }
}

fn write_copy_refs(out: &mut String, list: &Vec<PhiEdgeCopy>)
    ensures
        final(out)@ == copy_refs_text(old(out)@, list@, list@.len()),
{
    let n = list.len();
    let ghost t = out@;
    let mut i: usize = 0;
    while i < n
        invariant
            n == list@.len(),
            i <= n,
            out@ == copy_refs_text(t, list@, i as nat),
        decreases n - i,
    {
        if i > 0 {
            out.append(", ");
        }
        let x = list[i];
        out.append("PhiEdgeCopy { phi_id: PhiId(");
        put_number(out, x.phi_id.0);
        out.append("), value: ");
        write_value_ref(out, x.value);
        out.append(" }");
        i = i + 1;
    }
}

pub open spec fn reason_ref_text(t: Seq<char>, r: GotoReason) -> Seq<char> {
    match r {
        GotoReason::IrreducibleFlow => t + "IrreducibleFlow"@,
        GotoReason::MultiEntryRegion => t + "MultiEntryRegion"@,
        GotoReason::UnstructuredBreakLike => t + "UnstructuredBreakLike"@,
        GotoReason::UnstructuredContinueLike => t + "UnstructuredContinueLike"@,
        GotoReason::CrossLoopContinueLike => t + "CrossLoopContinueLike"@,
    }
}

fn write_reason_ref(out: &mut String, r: GotoReason)
    ensures
        final(out)@ == reason_ref_text(old(out)@, r),
{
    match r {
        GotoReason::IrreducibleFlow => {
            out.append("IrreducibleFlow");
        },
        GotoReason::MultiEntryRegion => {
            out.append("MultiEntryRegion");
        },
        GotoReason::UnstructuredBreakLike => {
            out.append("UnstructuredBreakLike");
        },
        GotoReason::UnstructuredContinueLike => {
            out.append("UnstructuredContinueLike");
        },
        GotoReason::CrossLoopContinueLike => {
            out.append("CrossLoopContinueLike");
        },
    }
}

pub open spec fn transfer_ref_text(t: Seq<char>, t0: EdgeTransfer) -> Seq<char> {
    match t0 {
        EdgeTransfer::Unreachable => t + "Unreachable"@,
        EdgeTransfer::Fallthrough => t + "Fallthrough"@,
        EdgeTransfer::BranchArm(a) => {
            let t = branch_arm_text(t + "BranchArm("@, a);
            t + ")"@
        },
        EdgeTransfer::LoopBack(r) => {
            let t = number(t + "LoopBack(RegionId("@, r.0 as nat);
            t + "))"@
        },
        EdgeTransfer::Break(r) => {
            let t = number(t + "Break(RegionId("@, r.0 as nat);
            t + "))"@
        },
        EdgeTransfer::Continue(r) => {
            let t = number(t + "Continue(RegionId("@, r.0 as nat);
            t + "))"@
        },
        EdgeTransfer::Return => t + "Return"@,
        EdgeTransfer::TailCall => t + "TailCall"@,
        EdgeTransfer::Goto(l, r) => {
            let t = number(t + "Goto(LabelPlanId("@, l.0 as nat);
            let t = reason_ref_text(t + "), "@, r);
            t + ")"@
        },
    }
}

fn write_transfer_ref(out: &mut String, t0: EdgeTransfer)
    ensures
        final(out)@ == transfer_ref_text(old(out)@, t0),
{
    match t0 {
        EdgeTransfer::Unreachable => {
            out.append("Unreachable");
        },
        EdgeTransfer::Fallthrough => {
            out.append("Fallthrough");
        },
        EdgeTransfer::BranchArm(a) => {
            out.append("BranchArm(");
            write_branch_arm(out, a);
            out.append(")");
        },
        EdgeTransfer::LoopBack(r) => {
            out.append("LoopBack(RegionId(");
            put_number(out, r.0);
            out.append("))");
        },
        EdgeTransfer::Break(r) => {
            out.append("Break(RegionId(");
            put_number(out, r.0);
            out.append("))");
        },
        EdgeTransfer::Continue(r) => {
            out.append("Continue(RegionId(");
            put_number(out, r.0);
            out.append("))");
        },
        EdgeTransfer::Return => {
            out.append("Return");
        },
        EdgeTransfer::TailCall => {
            out.append("TailCall");
        },
        EdgeTransfer::Goto(l, r) => {
            out.append("Goto(LabelPlanId(");
            put_number(out, l.0);
            out.append("), ");
            write_reason_ref(out, r);
            out.append(")");
        },
    }
}

/// An edge that makes other copies than it should.
pub open spec fn stale_copies_text(
    t: Seq<char>,
    e: EdgeRef,
    expected: Seq<PhiEdgeCopy>,
    actual: Seq<PhiEdgeCopy>,
    transfer: EdgeTransfer,
) -> Seq<char> {
    let t = fault_text(t, Fault::EdgeCopiesStale(e));
    let t = copy_refs_text(t + ": expected=["@, expected, expected.len());
    let t = copy_refs_text(t + "] actual=["@, actual, actual.len());
    transfer_ref_text(t + "] transfer="@, transfer)
}

pub fn write_stale_copies(
    out: &mut String,
    e: EdgeRef,
    expected: &Vec<PhiEdgeCopy>,
    actual: &Vec<PhiEdgeCopy>,
    transfer: EdgeTransfer,
)
    ensures
        final(out)@ == stale_copies_text(old(out)@, e, expected@, actual@, transfer),
{
    write_fault(out, Fault::EdgeCopiesStale(e));
    out.append(": expected=[");
    write_copy_refs(out, expected);
    out.append("] actual=[");
    write_copy_refs(out, actual);
    out.append("] transfer=");
    write_transfer_ref(out, transfer);
}

} // verus!
