//! Phis read as merges of the two arms of a branch.

use vstd::prelude::*;

use crate::dataflow::{carries, flows_in, DataflowFacts, DefId, PhiCandidate, SsaValue};
use crate::evidence::{BranchValueMergeArm, BranchValueMergeValue};
use crate::graph::GraphFacts;
use crate::ids::BlockRef;
use crate::idset::IdSet;

verus! {

/// A branch header with the facts needed to tell its arms' values apart.
pub struct BranchValueMergeContext<'a> {
    pub header: BlockRef,
    pub graph_facts: &'a GraphFacts,
    pub dataflow: &'a DataflowFacts,
}

/// Where the incomings of a merge may come from.
pub struct ArmPreds {
    pub then_preds: Set<BlockRef>,
    pub else_preds: Set<BlockRef>,
    pub ignored: Set<BlockRef>,
}

/// Every definition that flows into a phi is recorded.
pub open spec fn defs_known(dataflow: &DataflowFacts) -> bool {
    &&& dataflow.ranges_wf()
    &&& forall|p: usize, d: DefId| #[trigger] flows_in(dataflow.phi_candidates@, p, SsaValue::Def(d)) ==> d.0 < dataflow.defs@.len()
}

/// An incoming of the phi comes from `arm` with value `v`.
pub open spec fn arm_has(phi: &PhiCandidate, arm: Set<BlockRef>, v: SsaValue) -> bool {
    exists|k: int|
        0 <= k < phi.incoming@.len() && (#[trigger] phi.incoming@[k]).pred is Some && arm.contains(phi.incoming@[k].pred->0)
            && phi.incoming@[k].value == v
}

pub open spec fn arm_from(phi: &PhiCandidate, arm: Set<BlockRef>, b: BlockRef) -> bool {
    arm.contains(b) && exists|k: int| 0 <= k < phi.incoming@.len() && (#[trigger] phi.incoming@[k]).pred == Some(b)
}

impl<'a> BranchValueMergeContext<'a> {
    pub fn new(header: BlockRef, graph_facts: &'a GraphFacts, dataflow: &'a DataflowFacts) -> (r: Self)
        ensures
            r.header == header,
            r.graph_facts == graph_facts,
            r.dataflow == dataflow,
    {
        BranchValueMergeContext { header, graph_facts, dataflow }
    }

    /// What the phi's register held at the end of the header.
    pub open spec fn before(&self, phi: &PhiCandidate) -> SsaValue {
        self.dataflow.exit_value(self.header, phi.reg)
    }

    pub open spec fn keeps_entry(&self, phi: &PhiCandidate, v: SsaValue) -> bool {
        carries(self.dataflow.phi_candidates@, v, self.before(phi))
    }

    /// A definition below the header flows into `v`.
    pub open spec fn updated_below(&self, v: SsaValue) -> bool {
        exists|d: DefId| #[trigger]
            carries(self.dataflow.phi_candidates@, v, SsaValue::Def(d)) && {
                let b = self.dataflow.defs@[d.0 as int].block;
                b != self.header && self.graph_facts.dom(self.header, b)
            }
    }

    /// `v` is new in the arm: it does not carry the old value, or it mixes the old value with
    /// a definition below the header.
    pub open spec fn is_update(&self, phi: &PhiCandidate, v: SsaValue) -> bool {
        !self.keeps_entry(phi, v) || ((v != self.before(phi) || self.graph_facts.loop_headers@.contains(self.header))
            && self.updated_below(v))
    }

    /// The arm holds the phi's incomings from `from`, sorted by what they carry.
    pub open spec fn arm_of(&self, phi: &PhiCandidate, from: Set<BlockRef>, a: &BranchValueMergeArm) -> bool {
        &&& forall|b: BlockRef| #[trigger] a.preds@.contains(b) <==> arm_from(phi, from, b)
        &&& forall|v: SsaValue| #[trigger] a.values@.contains(v) <==> arm_has(phi, from, v)
        &&& forall|v: SsaValue| #[trigger] a.entry_values@.contains(v) <==> arm_has(phi, from, v) && self.keeps_entry(phi, v)
        &&& forall|v: SsaValue| #[trigger] a.update_values@.contains(v) <==> arm_has(phi, from, v) && self.is_update(phi, v)
    }

    /// Every incoming comes from one of the arms or from a block that does not matter.
    pub open spec fn covered(&self, phi: &PhiCandidate, preds: ArmPreds) -> bool {
        forall|k: int|
            0 <= k < phi.incoming@.len() ==> (#[trigger] phi.incoming@[k]).pred is Some && (preds.then_preds.contains(
                phi.incoming@[k].pred->0,
            ) || preds.else_preds.contains(phi.incoming@[k].pred->0) || preds.ignored.contains(phi.incoming@[k].pred->0))
    }

    /// The phi merges the two arms: both flow in, and they differ or one of them updates.
    pub open spec fn merges(&self, phi: &PhiCandidate, preds: ArmPreds) -> bool {
        let els = preds.else_preds.difference(preds.then_preds);
        &&& self.covered(phi, preds)
        &&& exists|v: SsaValue| #[trigger] arm_has(phi, preds.then_preds, v)
        &&& exists|v: SsaValue| #[trigger] arm_has(phi, els, v)
        &&& !(forall|v: SsaValue| arm_has(phi, preds.then_preds, v) <==> arm_has(phi, els, v)) || (exists|v: SsaValue|
            arm_has(phi, preds.then_preds, v) && self.is_update(phi, v)) || (exists|v: SsaValue|
            arm_has(phi, els, v) && self.is_update(phi, v))
    }

    pub open spec fn merge_of(&self, phi: &PhiCandidate, preds: ArmPreds, m: &BranchValueMergeValue) -> bool {
        &&& m.phi_id == phi.id
        &&& m.reg == phi.reg
        &&& self.arm_of(phi, preds.then_preds, &m.then_arm)
        &&& self.arm_of(phi, preds.else_preds.difference(preds.then_preds), &m.else_arm)
    }

    fn value_is_update(&self, entry: SsaValue, v: SsaValue, keeps: bool) -> (r: bool)
        requires
            defs_known(self.dataflow),
            exists|p: usize| #[trigger] flows_in(self.dataflow.phi_candidates@, p, v),
        ensures
            keeps ==> r == ((v != entry || self.graph_facts.loop_headers@.contains(self.header)) && self.updated_below(v)),
            !keeps ==> r,
    {
        if !keeps {
            return true;
        }
        if v == entry && !self.graph_facts.loop_headers.contains(self.header) {
            return false;
        }
        let defs = self.dataflow.leaf_defs(v);
        let n = defs.len();
        let ghost phis = self.dataflow.phi_candidates@;
        let mut i: usize = 0;
        while i < n
            invariant
                defs_known(self.dataflow),
                exists|p: usize| #[trigger] flows_in(self.dataflow.phi_candidates@, p, v),
                v != entry || self.graph_facts.loop_headers@.contains(self.header),
                phis == self.dataflow.phi_candidates@,
                n == defs.seq().len(),
                i <= n,
                forall|d: DefId| #[trigger] defs@.contains(d) <==> carries(phis, v, SsaValue::Def(d)),
                forall|j: int| 0 <= j < i ==> {
                    let b = self.dataflow.defs@[(#[trigger] defs.seq()[j]).0 as int].block;
                    b == self.header || !self.graph_facts.dom(self.header, b)
                },
            decreases n - i,
        {
            let d = defs.at(i);
            proof {
                assert(carries(phis, v, SsaValue::Def(d)));
                if v == SsaValue::Def(d) {
                    let p = choose|p: usize| #[trigger] flows_in(phis, p, v);
                    assert(flows_in(phis, p, SsaValue::Def(d)));
                }
                assert(d.0 < self.dataflow.defs@.len());
            }
            let b = self.dataflow.def_block(d);
            if b != self.header && self.graph_facts.dominates(self.header, b) {
                assert(self.updated_below(v));
                return true;
            }
            i = i + 1;
        }
        proof {
            if self.updated_below(v) {
                let d = choose|d: DefId| #[trigger]
                    carries(phis, v, SsaValue::Def(d)) && {
                        let b = self.dataflow.defs@[d.0 as int].block;
                        b != self.header && self.graph_facts.dom(self.header, b)
                    };
                assert(defs@.contains(d));
                let j = choose|j: int| 0 <= j < defs.seq().len() && defs.seq()[j] == d;
                assert(defs.seq()[j] == d);
            }
        }
        false
    }

    /// Collects the phi's incomings from the blocks `from`, but not from those in `except`.
    fn collect_arm(&self, at: usize, from: &IdSet<BlockRef>, except: Option<&IdSet<BlockRef>>) -> (a: BranchValueMergeArm)
        requires
            defs_known(self.dataflow),
            at < self.dataflow.phi_candidates@.len(),
        ensures
            self.arm_of(
                &self.dataflow.phi_candidates@[at as int],
                match except {
                    Some(e) => from@.difference(e@),
                    None => from@,
                },
                &a,
            ),
    {
        let phi = &self.dataflow.phi_candidates[at];
        let ghost side = match except {
            Some(e) => from@.difference(e@),
            None => from@,
        };
        let entry = self.dataflow.block_exit_value(self.header, phi.reg);
        let mut a = BranchValueMergeArm {
            preds: IdSet::new(),
            values: IdSet::new(),
            entry_values: IdSet::new(),
            update_values: IdSet::new(),
        };
        let n = phi.incoming.len();
        let mut k: usize = 0;
        while k < n
            invariant
                defs_known(self.dataflow),
                at < self.dataflow.phi_candidates@.len(),
                *phi == self.dataflow.phi_candidates@[at as int],
                side == (match except {
                    Some(e) => from@.difference(e@),
                    None => from@,
                }),
                entry == self.before(phi),
                n == phi.incoming@.len(),
                k <= n,
                forall|b: BlockRef| #[trigger] a.preds@.contains(b) ==> arm_from(phi, side, b),
                forall|v: SsaValue| #[trigger] a.values@.contains(v) ==> arm_has(phi, side, v),
                forall|v: SsaValue| #[trigger] a.entry_values@.contains(v) ==> arm_has(phi, side, v) && self.keeps_entry(phi, v),
                forall|v: SsaValue| #[trigger] a.update_values@.contains(v) ==> arm_has(phi, side, v) && self.is_update(phi, v),
                forall|j: int|
                    0 <= j < k && (#[trigger] phi.incoming@[j]).pred is Some && side.contains(phi.incoming@[j].pred->0) ==> {
                        let v = phi.incoming@[j].value;
                        &&& a.preds@.contains(phi.incoming@[j].pred->0)
                        &&& a.values@.contains(v)
                        &&& self.keeps_entry(phi, v) ==> a.entry_values@.contains(v)
                        &&& self.is_update(phi, v) ==> a.update_values@.contains(v)
                    },
            decreases n - k,
        {
            let incoming = phi.incoming[k];
            assert(phi.incoming@[k as int] == incoming);
            if let Some(pred) = incoming.pred {
                let excepted = match except {
                    Some(e) => e.contains(pred),
                    None => false,
                };
                if from.contains(pred) && !excepted {
                    let v = incoming.value;
                    proof {
                        assert(side.contains(pred));
                        assert(arm_has(phi, side, v));
                        assert(arm_from(phi, side, pred));
                        assert(flows_in(self.dataflow.phi_candidates@, at, v));
                    }
                    let keeps = self.dataflow.value_contains(v, entry);
                    let update = self.value_is_update(entry, v, keeps);
                    a.preds.insert(pred);
                    a.values.insert(v);
                    if keeps {
                        a.entry_values.insert(v);
                    }
                    if update {
                        a.update_values.insert(v);
                    }
                }
            }
            k = k + 1;
        }
        proof {
            assert forall|b: BlockRef| arm_from(phi, side, b) implies #[trigger] a.preds@.contains(b) by {
                let j = choose|j: int| 0 <= j < phi.incoming@.len() && (#[trigger] phi.incoming@[j]).pred == Some(b);
                assert(phi.incoming@[j].pred == Some(b));
            }
            assert forall|v: SsaValue| #[trigger] arm_has(phi, side, v) implies a.values@.contains(v) && (self.keeps_entry(phi, v)
                ==> a.entry_values@.contains(v)) && (self.is_update(phi, v) ==> a.update_values@.contains(v)) by {
                let j = choose|j: int|
                    0 <= j < phi.incoming@.len() && (#[trigger] phi.incoming@[j]).pred is Some && side.contains(
                        phi.incoming@[j].pred->0,
                    ) && phi.incoming@[j].value == v;
                assert(phi.incoming@[j].value == v);
            }
        }
        a
    }

    /// Reads phi `at` as a merge of the two arms.
    pub fn merge_from_phi(
        &self,
        at: usize,
        then_preds: &IdSet<BlockRef>,
        else_preds: &IdSet<BlockRef>,
        ignored: &IdSet<BlockRef>,
    ) -> (r: Option<BranchValueMergeValue>)
        requires
            defs_known(self.dataflow),
            at < self.dataflow.phi_candidates@.len(),
        ensures
            ({
                let phi = &self.dataflow.phi_candidates@[at as int];
                let preds = ArmPreds { then_preds: then_preds@, else_preds: else_preds@, ignored: ignored@ };
                match r {
                    Some(m) => self.merges(phi, preds) && self.merge_of(phi, preds, &m),
                    None => !self.merges(phi, preds),
                }
            }),
    {
        let phi = &self.dataflow.phi_candidates[at];
        let ghost preds = ArmPreds { then_preds: then_preds@, else_preds: else_preds@, ignored: ignored@ };
        let n = phi.incoming.len();
        let mut k: usize = 0;
        while k < n
            invariant
                n == phi.incoming@.len(),
                k <= n,
                preds == (ArmPreds { then_preds: then_preds@, else_preds: else_preds@, ignored: ignored@ }),
                *phi == self.dataflow.phi_candidates@[at as int],
                forall|j: int|
                    0 <= j < k ==> (#[trigger] phi.incoming@[j]).pred is Some && (preds.then_preds.contains(
                        phi.incoming@[j].pred->0,
                    ) || preds.else_preds.contains(phi.incoming@[j].pred->0) || preds.ignored.contains(
                        phi.incoming@[j].pred->0,
                    )),
            decreases n - k,
        {
            let incoming = phi.incoming[k];
            assert(phi.incoming@[k as int] == incoming);
            match incoming.pred {
                None => {
                    assert(!self.covered(phi, preds));
                    return None;
                },
                Some(pred) => {
                    if !then_preds.contains(pred) && !else_preds.contains(pred) && !ignored.contains(pred) {
                        assert(!self.covered(phi, preds));
                        return None;
                    }
                },
            }
            k = k + 1;
        }
        let then_arm = self.collect_arm(at, then_preds, None);
        let else_arm = self.collect_arm(at, else_preds, Some(then_preds));
        let ghost els = else_preds@.difference(then_preds@);
        proof {
            arm_presence(phi, preds.then_preds, &then_arm);
            arm_presence(phi, els, &else_arm);
            assert(self.arm_of(phi, preds.then_preds, &then_arm));
            assert(self.arm_of(phi, els, &else_arm));
        }
        let same = then_arm.values.same_members(&else_arm.values);
        let quiet = then_arm.update_values.is_empty() && else_arm.update_values.is_empty();
        proof {
            assert(same == (forall|v: SsaValue| arm_has(phi, preds.then_preds, v) <==> arm_has(phi, els, v))) by {
                if forall|v: SsaValue| arm_has(phi, preds.then_preds, v) <==> arm_has(phi, els, v) {
                    assert forall|v: SsaValue| then_arm.values@.contains(v) <==> else_arm.values@.contains(v) by {
                        assert(then_arm.values@.contains(v) <==> arm_has(phi, preds.then_preds, v));
                        assert(else_arm.values@.contains(v) <==> arm_has(phi, els, v));
                    }
                    assert(then_arm.values@ =~= else_arm.values@);
                }
                if same {
                    assert forall|v: SsaValue| arm_has(phi, preds.then_preds, v) <==> arm_has(phi, els, v) by {
                        assert(then_arm.values@.contains(v) <==> arm_has(phi, preds.then_preds, v));
                        assert(else_arm.values@.contains(v) <==> arm_has(phi, els, v));
                    }
                }
            }
            updates_empty(self, phi, preds.then_preds, &then_arm);
            updates_empty(self, phi, els, &else_arm);
        }
        if then_arm.preds.is_empty() || else_arm.preds.is_empty() || (same && quiet) {
            return None;
        }
        Some(BranchValueMergeValue { phi_id: phi.id, reg: phi.reg, then_arm, else_arm })
    }
}

proof fn arm_presence(phi: &PhiCandidate, side: Set<BlockRef>, a: &BranchValueMergeArm)
    requires
        forall|b: BlockRef| #[trigger] a.preds@.contains(b) <==> arm_from(phi, side, b),
    ensures
        a.preds@ != Set::<BlockRef>::empty() <==> exists|v: SsaValue| #[trigger] arm_has(phi, side, v),
{
    if a.preds@ != Set::<BlockRef>::empty() {
        if forall|b: BlockRef| !a.preds@.contains(b) {
            assert(a.preds@ =~= Set::empty());
        }
        let b = choose|b: BlockRef| a.preds@.contains(b);
        let k = choose|k: int| 0 <= k < phi.incoming@.len() && (#[trigger] phi.incoming@[k]).pred == Some(b);
        assert(arm_has(phi, side, phi.incoming@[k].value));
    }
    if exists|v: SsaValue| #[trigger] arm_has(phi, side, v) {
        let v = choose|v: SsaValue| #[trigger] arm_has(phi, side, v);
        let k = choose|k: int|
            0 <= k < phi.incoming@.len() && (#[trigger] phi.incoming@[k]).pred is Some && side.contains(
                phi.incoming@[k].pred->0,
            ) && phi.incoming@[k].value == v;
        assert(arm_from(phi, side, phi.incoming@[k].pred->0));
        assert(a.preds@.contains(phi.incoming@[k].pred->0));
    }
}

proof fn updates_empty(ctx: &BranchValueMergeContext, phi: &PhiCandidate, side: Set<BlockRef>, a: &BranchValueMergeArm)
    requires
        forall|v: SsaValue| #[trigger] a.update_values@.contains(v) <==> arm_has(phi, side, v) && ctx.is_update(phi, v),
    ensures
        a.update_values@ != Set::<SsaValue>::empty() <==> exists|v: SsaValue| arm_has(phi, side, v) && ctx.is_update(phi, v),
{
    if a.update_values@ != Set::<SsaValue>::empty() {
        if forall|v: SsaValue| !a.update_values@.contains(v) {
            assert(a.update_values@ =~= Set::empty());
        }
        let v = choose|v: SsaValue| a.update_values@.contains(v);
        assert(arm_has(phi, side, v) && ctx.is_update(phi, v));
    }
    if exists|v: SsaValue| arm_has(phi, side, v) && ctx.is_update(phi, v) {
        let v = choose|v: SsaValue| arm_has(phi, side, v) && ctx.is_update(phi, v);
        assert(a.update_values@.contains(v));
    }
}

} // verus!
