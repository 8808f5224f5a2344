//! Loops as mathematical values, and the phis at their headers and exits.

use vstd::prelude::*;

use crate::dataflow::{DataflowFacts, PhiCandidate, PhiId, PhiIncoming};
use crate::evidence::{
    LoopCandidate, LoopExitAlias, LoopExitValueMergeCandidate, LoopKindHint, LoopSourceBindings,
    LoopValueArm, LoopValueIncoming, LoopValueMerge,
};
use crate::ids::{BlockRef, EdgeRef, Reg};
use crate::idset::IdSet;

verus! {

pub struct MergeModel {
    pub phi_id: PhiId,
    pub reg: Reg,
    pub inside: Seq<LoopValueIncoming>,
    pub outside: Seq<LoopValueIncoming>,
}

pub struct ExitModel {
    pub exit: BlockRef,
    pub values: Seq<MergeModel>,
}

/// A loop candidate by its contents.
pub struct LoopModel {
    pub header: BlockRef,
    pub preheader: Option<BlockRef>,
    pub blocks: Set<BlockRef>,
    pub scope: Set<BlockRef>,
    pub control: Set<BlockRef>,
    pub aliases: Seq<LoopExitAlias>,
    pub backedges: Seq<EdgeRef>,
    pub exits: Set<BlockRef>,
    pub continue_target: Option<BlockRef>,
    pub continue_edges: Set<EdgeRef>,
    pub condition_header: Option<BlockRef>,
    pub kind: LoopKindHint,
    pub bindings: Option<LoopSourceBindings>,
    pub header_values: Seq<MergeModel>,
    pub exit_values: Seq<ExitModel>,
}

impl View for LoopValueMerge {
    type V = MergeModel;

    open spec fn view(&self) -> MergeModel {
        MergeModel {
            phi_id: self.phi_id,
            reg: self.reg,
            inside: self.inside_arm.incomings@,
            outside: self.outside_arm.incomings@,
        }
    }
}

/// The contents of a list of merges.
pub open spec fn merge_models(list: Seq<LoopValueMerge>) -> Seq<MergeModel> {
    Seq::new(list.len(), |i: int| list[i]@)
}

impl View for LoopExitValueMergeCandidate {
    type V = ExitModel;

    open spec fn view(&self) -> ExitModel {
        ExitModel { exit: self.exit, values: merge_models(self.values@) }
    }
}

pub open spec fn exit_models(list: Seq<LoopExitValueMergeCandidate>) -> Seq<ExitModel> {
    Seq::new(list.len(), |i: int| list[i]@)
}

impl View for LoopCandidate {
    type V = LoopModel;

    open spec fn view(&self) -> LoopModel {
        LoopModel {
            header: self.header,
            preheader: self.preheader,
            blocks: self.blocks@,
            scope: self.body_scope_blocks@,
            control: self.control_blocks@,
            aliases: self.normalized_exit_aliases@,
            backedges: self.backedges@,
            exits: self.exits@,
            continue_target: self.continue_target,
            continue_edges: self.continue_edges@,
            condition_header: self.condition_header,
            kind: self.kind_hint,
            bindings: self.source_bindings,
            header_values: merge_models(self.header_value_merges@),
            exit_values: exit_models(self.exit_value_merges@),
        }
    }
}

/// The contents of a list of loops.
pub open spec fn loop_models(list: Seq<LoopCandidate>) -> Seq<LoopModel> {
    Seq::new(list.len(), |i: int| list[i]@)
}

/// The incomings on one side of the boundary of `blocks`, in order; what enters from nowhere
/// is outside.
pub open spec fn side_of(incoming: Seq<PhiIncoming>, blocks: Set<BlockRef>, inside: bool, n: nat) -> Seq<LoopValueIncoming>
    decreases n,
{
    if n == 0 {
        Seq::empty()
    } else {
        let rest = side_of(incoming, blocks, inside, (n - 1) as nat);
        let i = incoming[n - 1];
        if (i.pred is Some && blocks.contains(i.pred->0)) == inside {
            rest.push(LoopValueIncoming { pred: i.pred, value: i.value })
        } else {
            rest
        }
    }
}

/// A phi parted by the boundary of `blocks`.
pub open spec fn parted(phi: &PhiCandidate, blocks: Set<BlockRef>) -> MergeModel {
    MergeModel {
        phi_id: phi.id,
        reg: phi.reg,
        inside: side_of(phi.incoming@, blocks, true, phi.incoming@.len()),
        outside: side_of(phi.incoming@, blocks, false, phi.incoming@.len()),
    }
}

/// The merge counts: something flows in from inside and, where `both` is set, from outside.
pub open spec fn counts(m: MergeModel, both: bool) -> bool {
    m.inside.len() > 0 && (both ==> m.outside.len() > 0)
}

/// The first `n` of the block's phis, parted; those that count.
pub open spec fn block_merges(phis: Seq<PhiCandidate>, blocks: Set<BlockRef>, both: bool, n: nat) -> Seq<MergeModel>
    decreases n,
{
    if n == 0 {
        Seq::empty()
    } else {
        let rest = block_merges(phis, blocks, both, (n - 1) as nat);
        let m = parted(&phis[n - 1], blocks);
        if counts(m, both) {
            rest.push(m)
        } else {
            rest
        }
    }
}

/// The merges at a block for a loop with `blocks`.
pub open spec fn merges_at(dataflow: &DataflowFacts, block: BlockRef, blocks: Set<BlockRef>, both: bool) -> Seq<MergeModel> {
    block_merges(dataflow.phis_in(block), blocks, both, dataflow.phis_in(block).len())
}

/// Parts one phi.
pub fn loop_value_merge_from_phi(phi: &PhiCandidate, loop_blocks: &IdSet<BlockRef>) -> (r: LoopValueMerge)
    ensures
        r@ == parted(phi, loop_blocks@),
{
    let n = phi.incoming.len();
    let mut inside: Vec<LoopValueIncoming> = Vec::new();
    let mut outside: Vec<LoopValueIncoming> = Vec::new();
    let mut i: usize = 0;
    while i < n
        invariant
            n == phi.incoming@.len(),
            i <= n,
            inside@ == side_of(phi.incoming@, loop_blocks@, true, i as nat),
            outside@ == side_of(phi.incoming@, loop_blocks@, false, i as nat),
        decreases n - i,
    {
        let incoming = phi.incoming[i];
        let within = match incoming.pred {
            Some(p) => loop_blocks.contains(p),
            None => false,
        };
        let entry = LoopValueIncoming { pred: incoming.pred, value: incoming.value };
        if within {
            inside.push(entry);
        } else {
            outside.push(entry);
        }
        i = i + 1;
    }
    LoopValueMerge {
        phi_id: phi.id,
        reg: phi.reg,
        inside_arm: LoopValueArm { incomings: inside },
        outside_arm: LoopValueArm { incomings: outside },
    }
}

/// Parts the phis of a block and keeps those that count.
pub fn loop_value_merges_in_block(
    dataflow: &DataflowFacts,
    block: BlockRef,
    loop_blocks: &IdSet<BlockRef>,
    both: bool,
) -> (r: Vec<LoopValueMerge>)
    requires
        dataflow.ranges_wf(),
    ensures
        merge_models(r@) == merges_at(dataflow, block, loop_blocks@, both),
{
    let phis = dataflow.phi_candidates_in_block(block);
    let n = phis.len();
    let mut r: Vec<LoopValueMerge> = Vec::new();
    let mut i: usize = 0;
    assert(merge_models(r@) =~= block_merges(phis@, loop_blocks@, both, 0));
    while i < n
        invariant
            phis@ == dataflow.phis_in(block),
            n == phis@.len(),
            i <= n,
            merge_models(r@) == block_merges(phis@, loop_blocks@, both, i as nat),
        decreases n - i,
    {
        let m = loop_value_merge_from_phi(&phis[i], loop_blocks);
        let ghost before = r@;
        let keep = !m.inside_arm.is_empty() && (!both || !m.outside_arm.is_empty());
        assert(keep == counts(parted(&phis@[i as int], loop_blocks@), both));
        if keep {
            r.push(m);
            assert(merge_models(r@) =~= merge_models(before).push(m@));
        }
        i = i + 1;
    }
    r
}

/// The phis at a loop's header that carry a value from one iteration to the next.
pub fn analyze_loop_header_value_merges(
    dataflow: &DataflowFacts,
    header: BlockRef,
    loop_blocks: &IdSet<BlockRef>,
) -> (r: Vec<LoopValueMerge>)
    requires
        dataflow.ranges_wf(),
    ensures
        merge_models(r@) == merges_at(dataflow, header, loop_blocks@, true),
{
    loop_value_merges_in_block(dataflow, header, loop_blocks, true)
}

/// The phis at an exit that take a value from inside, if there are any.
pub open spec fn exit_merge(dataflow: &DataflowFacts, exit: BlockRef, owned: Set<BlockRef>) -> Option<ExitModel> {
    let values = merges_at(dataflow, exit, owned, false);
    if values.len() > 0 {
        Some(ExitModel { exit, values })
    } else {
        None
    }
}

pub fn loop_exit_value_merge_in_block(
    dataflow: &DataflowFacts,
    exit: BlockRef,
    owned: &IdSet<BlockRef>,
) -> (r: Option<LoopExitValueMergeCandidate>)
    requires
        dataflow.ranges_wf(),
    ensures
        match r {
            Some(c) => exit_merge(dataflow, exit, owned@) == Some(c@),
            None => exit_merge(dataflow, exit, owned@) is None,
        },
{
    let values = loop_value_merges_in_block(dataflow, exit, owned, false);
    assert(merge_models(values@).len() == values@.len());
    if values.len() == 0 {
        return None;
    }
    Some(LoopExitValueMergeCandidate { exit, values })
}

} // verus!
