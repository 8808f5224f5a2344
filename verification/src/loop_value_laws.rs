//! What the merges at a loop's header and exits say of the phis there.

use vstd::prelude::*;

use crate::dataflow::{DataflowFacts, PhiCandidate, PhiIncoming};
use crate::evidence::LoopValueIncoming;
use crate::ids::BlockRef;
use crate::loop_exits::{exit_value_at, exit_values, SharedExit};
use crate::loop_values::{block_merges, counts, exit_merge, merges_at, parted, side_of, MergeModel};

verus! {

/// The incoming comes from one of `blocks`.
pub open spec fn from_within(i: PhiIncoming, blocks: Set<BlockRef>) -> bool {
    exists|b: BlockRef| #[trigger] blocks.contains(b) && i.pred == Some(b)
}

/// The incoming as an arm holds it.
pub open spec fn as_entry(i: PhiIncoming) -> LoopValueIncoming {
    LoopValueIncoming { pred: i.pred, value: i.value }
}

/// A phi is parted at the loop's boundary and nothing is lost: what comes from a block of the
/// loop stands in the inside arm, what comes from elsewhere or from nowhere in the outside
/// arm, each with its own predecessor and value, in the order of the phi.
pub proof fn phis_are_parted_at_the_boundary(phi: &PhiCandidate, blocks: Set<BlockRef>)
    ensures
        ({
            let m = parted(phi, blocks);
            &&& m.phi_id == phi.id && m.reg == phi.reg
            &&& forall|k: int| 0 <= k < m.inside.len() ==> (#[trigger] m.inside[k]).pred is Some && blocks.contains(m.inside[k].pred->0)
            &&& forall|k: int|
                0 <= k < m.outside.len() ==> (#[trigger] m.outside[k]).pred is None || !blocks.contains(m.outside[k].pred->0)
            &&& forall|j: int| 0 <= j < phi.incoming@.len() ==> if from_within(#[trigger] phi.incoming@[j], blocks) {
                m.inside.contains(as_entry(phi.incoming@[j]))
            } else {
                m.outside.contains(as_entry(phi.incoming@[j]))
            }
            &&& m.inside.len() + m.outside.len() == phi.incoming@.len()
            &&& m.inside == phi.incoming@.filter(|i: PhiIncoming| from_within(i, blocks)).map_values(|i: PhiIncoming| as_entry(i))
            &&& m.outside == phi.incoming@.filter(|i: PhiIncoming| !from_within(i, blocks)).map_values(
                |i: PhiIncoming| as_entry(i),
            )
        }),
{
    let incoming = phi.incoming@;
    let m = parted(phi, blocks);
    let within = |i: PhiIncoming| from_within(i, blocks);
    let beyond = |i: PhiIncoming| !from_within(i, blocks);
    let entry = |i: PhiIncoming| as_entry(i);
    side_is_filter(incoming, blocks, true, incoming.len());
    side_is_filter(incoming, blocks, false, incoming.len());
    assert(incoming.subrange(0, incoming.len() as int) =~= incoming);
    sides_add_up(incoming, blocks, incoming.len());
    assert(incoming.filter(|i: PhiIncoming| from_within(i, blocks) == true) =~= incoming.filter(within)) by {
        assert((|i: PhiIncoming| from_within(i, blocks) == true) =~= within);
    }
    assert(incoming.filter(|i: PhiIncoming| from_within(i, blocks) == false) =~= incoming.filter(beyond)) by {
        assert((|i: PhiIncoming| from_within(i, blocks) == false) =~= beyond);
    }
    assert forall|k: int| 0 <= k < m.inside.len() implies (#[trigger] m.inside[k]).pred is Some && blocks.contains(
        m.inside[k].pred->0,
    ) by {
        incoming.lemma_filter_pred(within, k);
    }
    assert forall|k: int| 0 <= k < m.outside.len() implies (#[trigger] m.outside[k]).pred is None || !blocks.contains(
        m.outside[k].pred->0,
    ) by {
        incoming.lemma_filter_pred(beyond, k);
        let i = incoming.filter(beyond)[k];
        if i.pred is Some && blocks.contains(i.pred->0) {
            assert(from_within(i, blocks));
        }
    }
    assert forall|j: int| 0 <= j < incoming.len() implies if from_within(#[trigger] incoming[j], blocks) {
        m.inside.contains(as_entry(incoming[j]))
    } else {
        m.outside.contains(as_entry(incoming[j]))
    } by {
        if from_within(incoming[j], blocks) {
            incoming.lemma_filter_contains(within, j);
            let k = choose|k: int| 0 <= k < incoming.filter(within).len() && incoming.filter(within)[k] == incoming[j];
            assert(m.inside[k] == as_entry(incoming[j]));
        } else {
            incoming.lemma_filter_contains(beyond, j);
            let k = choose|k: int| 0 <= k < incoming.filter(beyond).len() && incoming.filter(beyond)[k] == incoming[j];
            assert(m.outside[k] == as_entry(incoming[j]));
        }
    }
}

proof fn side_is_filter(incoming: Seq<PhiIncoming>, blocks: Set<BlockRef>, inside: bool, n: nat)
    requires
        n <= incoming.len(),
    ensures
        side_of(incoming, blocks, inside, n) == incoming.subrange(0, n as int).filter(
            |i: PhiIncoming| from_within(i, blocks) == inside,
        ).map_values(|i: PhiIncoming| as_entry(i)),
    decreases n,
{
    reveal(Seq::filter);
    let p = |i: PhiIncoming| from_within(i, blocks) == inside;
    let entry = |i: PhiIncoming| as_entry(i);
    if n == 0 {
        assert(side_of(incoming, blocks, inside, n) =~= incoming.subrange(0, 0).filter(p).map_values(entry));
    } else {
        let m = (n - 1) as nat;
        side_is_filter(incoming, blocks, inside, m);
        let whole = incoming.subrange(0, n as int);
        assert(whole.drop_last() =~= incoming.subrange(0, m as int));
        let i = incoming[m as int];
        assert(whole.last() == i);
        if i.pred is Some && blocks.contains(i.pred->0) {
            assert(from_within(i, blocks));
        }
        assert(from_within(i, blocks) == (i.pred is Some && blocks.contains(i.pred->0)));
        assert(side_of(incoming, blocks, inside, n) =~= whole.filter(p).map_values(entry));
    }
}

proof fn sides_add_up(incoming: Seq<PhiIncoming>, blocks: Set<BlockRef>, n: nat)
    ensures
        side_of(incoming, blocks, true, n).len() + side_of(incoming, blocks, false, n).len() == n,
    decreases n,
{
    if n > 0 {
        sides_add_up(incoming, blocks, (n - 1) as nat);
    }
}

/// Some incoming of the phi comes from within `blocks` and, with `both`, some other does not.
pub open spec fn crosses(phi: &PhiCandidate, blocks: Set<BlockRef>, both: bool) -> bool {
    &&& exists|j: int| 0 <= j < phi.incoming@.len() && from_within(#[trigger] phi.incoming@[j], blocks)
    &&& both ==> exists|j: int| 0 <= j < phi.incoming@.len() && !from_within(#[trigger] phi.incoming@[j], blocks)
}

/// `m` is one of the phis that cross the boundary, parted.
pub open spec fn parts_one_of(phis: Seq<PhiCandidate>, blocks: Set<BlockRef>, both: bool, m: MergeModel) -> bool {
    exists|k: int| 0 <= k < phis.len() && crosses(&#[trigger] phis[k], blocks, both) && m == parted(&phis[k], blocks)
}

/// The merges at a block are those of its phis that take a value from within the loop and,
/// at a header, one from outside too; there are no others.
pub proof fn merges_are_of_crossing_phis(dataflow: &DataflowFacts, block: BlockRef, blocks: Set<BlockRef>, both: bool)
    ensures
        forall|k: int|
            0 <= k < dataflow.phis_in(block).len() && crosses(&#[trigger] dataflow.phis_in(block)[k], blocks, both)
                ==> merges_at(dataflow, block, blocks, both).contains(parted(&dataflow.phis_in(block)[k], blocks)),
        forall|i: int|
            0 <= i < merges_at(dataflow, block, blocks, both).len() ==> parts_one_of(
                dataflow.phis_in(block),
                blocks,
                both,
                #[trigger] merges_at(dataflow, block, blocks, both)[i],
            ),
{
    let phis = dataflow.phis_in(block);
    block_merges_cross(phis, blocks, both, phis.len());
}

proof fn counts_when_crossing(phi: &PhiCandidate, blocks: Set<BlockRef>, both: bool)
    ensures
        counts(parted(phi, blocks), both) == crosses(phi, blocks, both),
{
    phis_are_parted_at_the_boundary(phi, blocks);
    let m = parted(phi, blocks);
    let incoming = phi.incoming@;
    if m.inside.len() > 0 {
        let within = |i: PhiIncoming| from_within(i, blocks);
        incoming.lemma_filter_pred(within, 0);
        let x = incoming.filter(within)[0];
        filter_keeps_members(incoming, within, 0);
        let j = choose|j: int| 0 <= j < incoming.len() && incoming[j] == x;
        assert(from_within(incoming[j], blocks));
    }
    if m.outside.len() > 0 {
        let beyond = |i: PhiIncoming| !from_within(i, blocks);
        incoming.lemma_filter_pred(beyond, 0);
        let x = incoming.filter(beyond)[0];
        filter_keeps_members(incoming, beyond, 0);
        let j = choose|j: int| 0 <= j < incoming.len() && incoming[j] == x;
        assert(!from_within(incoming[j], blocks));
    }
    if crosses(phi, blocks, both) {
        let j = choose|j: int| 0 <= j < incoming.len() && from_within(#[trigger] incoming[j], blocks);
        assert(m.inside.contains(as_entry(incoming[j])));
        if both {
            let i = choose|i: int| 0 <= i < incoming.len() && !from_within(#[trigger] incoming[i], blocks);
            assert(m.outside.contains(as_entry(incoming[i])));
        }
    }
}

proof fn filter_keeps_members(s: Seq<PhiIncoming>, p: spec_fn(PhiIncoming) -> bool, k: int)
    requires
        0 <= k < s.filter(p).len(),
    ensures
        s.contains(s.filter(p)[k]),
    decreases s.len(),
{
    reveal(Seq::filter);
    if s.len() > 0 {
        let rest = s.drop_last();
        if k < rest.filter(p).len() {
            filter_keeps_members(rest, p, k);
            let j = choose|j: int| 0 <= j < rest.len() && rest[j] == rest.filter(p)[k];
            assert(s[j] == s.filter(p)[k]);
        } else {
            assert(s[s.len() - 1] == s.filter(p)[k]);
        }
    }
}

proof fn block_merges_cross(phis: Seq<PhiCandidate>, blocks: Set<BlockRef>, both: bool, n: nat)
    requires
        n <= phis.len(),
    ensures
        forall|k: int|
            0 <= k < n && crosses(&#[trigger] phis[k], blocks, both) ==> block_merges(phis, blocks, both, n).contains(
                parted(&phis[k], blocks),
            ),
        forall|i: int|
            0 <= i < block_merges(phis, blocks, both, n).len() ==> parts_one_of(
                phis,
                blocks,
                both,
                #[trigger] block_merges(phis, blocks, both, n)[i],
            ),
    decreases n,
{
    if n > 0 {
        let m = (n - 1) as nat;
        block_merges_cross(phis, blocks, both, m);
        let before = block_merges(phis, blocks, both, m);
        let after = block_merges(phis, blocks, both, n);
        counts_when_crossing(&phis[m as int], blocks, both);
        assert forall|k: int| 0 <= k < n && crosses(&#[trigger] phis[k], blocks, both) implies after.contains(
            parted(&phis[k], blocks),
        ) by {
            if k < m {
                let i = choose|i: int| 0 <= i < before.len() && before[i] == parted(&phis[k], blocks);
                assert(after[i] == parted(&phis[k], blocks));
            } else {
                assert(after[before.len() as int] == parted(&phis[k], blocks));
            }
        }
        assert forall|i: int| 0 <= i < after.len() implies parts_one_of(phis, blocks, both, #[trigger] after[i]) by {
            if i < before.len() {
                assert(after[i] == before[i]);
                assert(parts_one_of(phis, blocks, both, before[i]));
            } else {
                assert(crosses(&phis[m as int], blocks, both));
            }
        }
    }
}

/// At an exit the values are listed that a phi there takes from within the loop, and an exit
/// without such a phi is not listed. The exits stand in ascending order; besides them only
/// the block stands in the list at which the ways out of the loop meet, where the blocks on
/// these ways count as the loop's own.
pub proof fn exit_values_come_from_within(
    dataflow: &DataflowFacts,
    exits: Set<BlockRef>,
    meeting: Option<SharedExit>,
    inside: Set<BlockRef>,
    n: nat,
)
    requires
        n <= usize::MAX,
    ensures
        ({
            let list = exit_values(dataflow, exits, meeting, inside, n);
            &&& forall|i: int, j: int| 0 <= i < j < list.len() ==> (#[trigger] list[i]).exit.0 < (#[trigger] list[j]).exit.0
            &&& forall|i: int| #![trigger list[i]]
                0 <= i < list.len() ==> {
                    let x = list[i].exit;
                    &&& x.0 < n
                    &&& exits.contains(x) || (meeting is Some && (meeting->0).merge == x)
                    &&& list[i].values.len() > 0
                    &&& forall|k: int|
                        0 <= k < list[i].values.len() ==> parts_one_of(
                            dataflow.phis_in(x),
                            owned_at(meeting, inside, x),
                            false,
                            #[trigger] list[i].values[k],
                        )
                }
            &&& forall|x: BlockRef, k: int| #![trigger exits.contains(x), dataflow.phis_in(x)[k]]
                exits.contains(x) && x.0 < n && 0 <= k < dataflow.phis_in(x).len() && crosses(
                    &dataflow.phis_in(x)[k],
                    owned_at(meeting, inside, x),
                    false,
                ) ==> exists|i: int|
                    0 <= i < list.len() && (#[trigger] list[i]).exit == x && list[i].values.contains(
                        parted(&dataflow.phis_in(x)[k], owned_at(meeting, inside, x)),
                    )
        }),
    decreases n,
{
    if n > 0 {
        let m = (n - 1) as nat;
        exit_values_come_from_within(dataflow, exits, meeting, inside, m);
        let before = exit_values(dataflow, exits, meeting, inside, m);
        let list = exit_values(dataflow, exits, meeting, inside, n);
        let b = BlockRef(m as usize);
        let owned = owned_at(meeting, inside, b);
        let found = exit_value_at(dataflow, exits, meeting, inside, b);
        merges_are_of_crossing_phis(dataflow, b, owned, false);
        assert(found is Some ==> found == exit_merge(dataflow, b, owned));
        assert forall|x: BlockRef, k: int| #![trigger exits.contains(x), dataflow.phis_in(x)[k]]
            exits.contains(x) && x.0 < n && 0 <= k < dataflow.phis_in(x).len() && crosses(
                &dataflow.phis_in(x)[k],
                owned_at(meeting, inside, x),
                false,
            ) implies exists|i: int|
            0 <= i < list.len() && (#[trigger] list[i]).exit == x && list[i].values.contains(
                parted(&dataflow.phis_in(x)[k], owned_at(meeting, inside, x)),
            ) by {
            let want = parted(&dataflow.phis_in(x)[k], owned_at(meeting, inside, x));
            if x.0 < m {
                let i = choose|i: int|
                    0 <= i < before.len() && (#[trigger] before[i]).exit == x && before[i].values.contains(want);
                assert(list[i] == before[i]);
            } else {
                assert(x == b);
                assert(merges_at(dataflow, b, owned, false).contains(want));
                assert(found is Some);
                assert(list[before.len() as int] == found->0);
            }
        }
    }
}

/// The blocks whose values a loop hands on at block `x`: its own and, where the ways out of
/// it meet, those on the ways.
pub open spec fn owned_at(meeting: Option<SharedExit>, inside: Set<BlockRef>, x: BlockRef) -> Set<BlockRef> {
    if meeting is Some && (meeting->0).merge == x {
        inside.union((meeting->0).path_blocks)
    } else {
        inside
    }
}

} // verus!
