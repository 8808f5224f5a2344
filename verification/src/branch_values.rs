//! The values that branches merge.

use vstd::prelude::*;

use crate::branches::{
    for_body_entry, for_exit_owner, for_loop_body_entry, for_loop_exit_owner, loops_wf,
    scope_size,
};
use crate::cfg::Cfg;
use crate::classify::heads_loop;
use crate::dataflow::DataflowFacts;
use crate::evidence::{
    BranchCandidate, BranchKind, BranchValueMergeCandidate, BranchValueMergeValue, LoopCandidate,
    ShortCircuitCandidate, ShortCircuitExit,
};
use crate::flood::{reachable_in_range, searches_everywhere};
use crate::graph::GraphFacts;
use crate::helpers::{collect_merge_arm_preds, merge_arm_preds};
use crate::ids::{BlockRef, Reg};
use crate::idset::IdSet;
use crate::phi_arms::{defs_known, ArmPreds, BranchValueMergeContext};
use crate::search::{count_where, least_where};
use crate::walk::reaches;

verus! {

/// Phi `k` of the block merges the arms, and its register is not one of `skipped`.
pub open spec fn merge_kept(
    ctx: &BranchValueMergeContext,
    block: BlockRef,
    preds: ArmPreds,
    skipped: Set<Reg>,
) -> spec_fn(int) -> bool {
    |k: int|
        {
            let phi = &ctx.dataflow.phis_in(block)[k];
            ctx.merges(phi, preds) && !skipped.contains(phi.reg)
        }
}

/// The number of merges that are kept.
pub open spec fn merge_count(ctx: &BranchValueMergeContext, block: BlockRef, preds: ArmPreds, skipped: Set<Reg>) -> nat {
    count_where(ctx.dataflow.phis_in(block).len(), merge_kept(ctx, block, preds, skipped))
}

/// The list holds the kept merges, in the order of the block's phis.
pub open spec fn is_merge_list(
    ctx: &BranchValueMergeContext,
    block: BlockRef,
    preds: ArmPreds,
    skipped: Set<Reg>,
    list: Seq<BranchValueMergeValue>,
) -> bool {
    let p = merge_kept(ctx, block, preds, skipped);
    &&& list.len() == merge_count(ctx, block, preds, skipped)
    &&& forall|k: int|
        0 <= k < ctx.dataflow.phis_in(block).len() && #[trigger] p(k) ==> count_where(k as nat, p) < list.len() && ctx.merge_of(
            &ctx.dataflow.phis_in(block)[k],
            preds,
            &list[count_where(k as nat, p) as int],
        )
}

/// Reads the phis of a block as merges of two arms.
pub fn branch_value_merges_in_block(
    ctx: &BranchValueMergeContext,
    block: BlockRef,
    then_preds: &IdSet<BlockRef>,
    else_preds: &IdSet<BlockRef>,
    ignored: &IdSet<BlockRef>,
    skipped: &IdSet<Reg>,
) -> (r: Vec<BranchValueMergeValue>)
    requires
        defs_known(ctx.dataflow),
    ensures
        is_merge_list(
            ctx,
            block,
            (ArmPreds { then_preds: then_preds@, else_preds: else_preds@, ignored: ignored@ }),
            skipped@,
            r@,
        ),
{
    let ghost preds = ArmPreds { then_preds: then_preds@, else_preds: else_preds@, ignored: ignored@ };
    let ghost p = merge_kept(ctx, block, preds, skipped@);
    let mut r: Vec<BranchValueMergeValue> = Vec::new();
    if block.0 >= ctx.dataflow.phi_block_ranges.len() {
        return r;
    }
    let range = ctx.dataflow.phi_block_ranges[block.0];
    let ghost phis = ctx.dataflow.phis_in(block);
    let n: usize = range.end - range.start;
    let mut k: usize = 0;
    while k < n
        invariant
            defs_known(ctx.dataflow),
            block.0 < ctx.dataflow.phi_block_ranges@.len(),
            range == ctx.dataflow.phi_block_ranges@[block.0 as int],
            range.start <= range.end <= ctx.dataflow.phi_candidates@.len(),
            phis == ctx.dataflow.phis_in(block),
            n == phis.len(),
            n == range.end - range.start,
            preds == (ArmPreds { then_preds: then_preds@, else_preds: else_preds@, ignored: ignored@ }),
            p == merge_kept(ctx, block, preds, skipped@),
            k <= n,
            r@.len() == count_where(k as nat, p),
            forall|j: int|
                0 <= j < k && #[trigger] p(j) ==> count_where(j as nat, p) < r@.len() && ctx.merge_of(
                    &phis[j],
                    preds,
                    &r@[count_where(j as nat, p) as int],
                ),
        decreases n - k,
    {
        let at: usize = range.start + k;
        let ghost before = r@;
        proof {
            assert(phis[k as int] == ctx.dataflow.phi_candidates@[at as int]);
        }
        if let Some(m) = ctx.merge_from_phi(at, then_preds, else_preds, ignored) {
            if !skipped.contains(ctx.dataflow.phi_candidates[at].reg) {
                r.push(m);
            }
        }
        proof {
            assert forall|j: int| 0 <= j < k + 1 && #[trigger] p(j) implies count_where(j as nat, p) < r@.len() && ctx.merge_of(
                &phis[j],
                preds,
                &r@[count_where(j as nat, p) as int],
            ) by {
                if j < k {
                    assert(r@[count_where(j as nat, p) as int] == before[count_where(j as nat, p) as int]);
                }
            }
        }
        k = k + 1;
    }
    r
}

/// Some loop has header `b` and block `x`.
pub open spec fn loop_holds_at(loops: Seq<LoopCandidate>, b: BlockRef, x: BlockRef) -> bool {
    exists|i: int| 0 <= i < loops.len() && (#[trigger] loops[i]).header == b && loops[i].blocks@.contains(x)
}

/// The blocks of the loops with header `b`.
pub open spec fn header_blocks(loops: Seq<LoopCandidate>, b: BlockRef) -> Set<BlockRef> {
    Set::new(|x: BlockRef| loop_holds_at(loops, b, x))
}

/// Collects the blocks of the loops with header `b`, and whether there is such a loop.
fn collect_header_blocks(loops: &Vec<LoopCandidate>, b: BlockRef) -> (r: (IdSet<BlockRef>, bool))
    ensures
        r.0@ == header_blocks(loops@, b),
        r.1 == heads_loop(loops@, b),
{
    let n = loops.len();
    let mut set: IdSet<BlockRef> = IdSet::new();
    let mut any = false;
    let mut i: usize = 0;
    while i < n
        invariant
            n == loops@.len(),
            i <= n,
            forall|x: BlockRef| #[trigger] set@.contains(x) <==> exists|j: int|
                0 <= j < i && (#[trigger] loops@[j]).header == b && loops@[j].blocks@.contains(x),
            any == exists|j: int| 0 <= j < i && (#[trigger] loops@[j]).header == b,
        decreases n - i,
    {
        let ghost before = set@;
        if loops[i].header == b {
            assert(loops@[i as int].header == b);
            set.extend(&loops[i].blocks);
            any = true;
        }
        proof {
            assert forall|x: BlockRef| #[trigger] set@.contains(x) <==> exists|j: int|
                0 <= j < i + 1 && (#[trigger] loops@[j]).header == b && loops@[j].blocks@.contains(x) by {
                if before.contains(x) {
                    let j = choose|j: int| 0 <= j < i && (#[trigger] loops@[j]).header == b && loops@[j].blocks@.contains(x);
                    assert(loops@[j].blocks@.contains(x));
                }
                if exists|j: int| 0 <= j < i + 1 && (#[trigger] loops@[j]).header == b && loops@[j].blocks@.contains(x) {
                    let j = choose|j: int| 0 <= j < i + 1 && (#[trigger] loops@[j]).header == b && loops@[j].blocks@.contains(x);
                    if j < i {
                        assert(before.contains(x));
                    }
                }
                if set@.contains(x) && !before.contains(x) {
                    assert(loops@[i as int].blocks@.contains(x));
                }
            }
        }
        i = i + 1;
    }
    assert(set@ =~= header_blocks(loops@, b));
    (set, any)
}

/// Registers whose merge at `merge` a short-circuit expression with this header already has.
pub open spec fn claimed_regs(shorts: Seq<ShortCircuitCandidate>, header: BlockRef, merge: BlockRef) -> Set<Reg> {
    Set::new(
        |r: Reg|
            exists|i: int|
                0 <= i < shorts.len() && (#[trigger] shorts[i]).header == header && shorts[i].exit
                    == ShortCircuitExit::ValueMerge(merge) && shorts[i].result_reg == Some(r),
    )
}

fn collect_claimed_regs(shorts: &Vec<ShortCircuitCandidate>, header: BlockRef, merge: BlockRef) -> (r: IdSet<Reg>)
    ensures
        r@ == claimed_regs(shorts@, header, merge),
{
    let n = shorts.len();
    let mut set: IdSet<Reg> = IdSet::new();
    let mut i: usize = 0;
    while i < n
        invariant
            n == shorts@.len(),
            i <= n,
            forall|x: Reg| #[trigger] set@.contains(x) <==> exists|j: int|
                0 <= j < i && (#[trigger] shorts@[j]).header == header && shorts@[j].exit == ShortCircuitExit::ValueMerge(
                    merge,
                ) && shorts@[j].result_reg == Some(x),
        decreases n - i,
    {
        let ghost before = set@;
        let s = &shorts[i];
        assert(shorts@[i as int] == *s);
        let hit = s.header == header && match s.exit {
            ShortCircuitExit::ValueMerge(m) => m == merge,
            _ => false,
        };
        if hit {
            if let Some(reg) = s.result_reg {
                set.insert(reg);
            }
        }
        proof {
            assert forall|x: Reg| #[trigger] set@.contains(x) <==> exists|j: int|
                0 <= j < i + 1 && (#[trigger] shorts@[j]).header == header && shorts@[j].exit
                    == ShortCircuitExit::ValueMerge(merge) && shorts@[j].result_reg == Some(x) by {
                if before.contains(x) {
                    let j = choose|j: int|
                        0 <= j < i && (#[trigger] shorts@[j]).header == header && shorts@[j].exit
                            == ShortCircuitExit::ValueMerge(merge) && shorts@[j].result_reg == Some(x);
                    assert(shorts@[j].result_reg == Some(x));
                }
                if exists|j: int|
                    0 <= j < i + 1 && (#[trigger] shorts@[j]).header == header && shorts@[j].exit
                        == ShortCircuitExit::ValueMerge(merge) && shorts@[j].result_reg == Some(x) {
                    let j = choose|j: int|
                        0 <= j < i + 1 && (#[trigger] shorts@[j]).header == header && shorts@[j].exit
                            == ShortCircuitExit::ValueMerge(merge) && shorts@[j].result_reg == Some(x);
                    if j < i {
                        assert(before.contains(x));
                    }
                }
                if set@.contains(x) && !before.contains(x) {
                    assert(shorts@[i as int].result_reg == Some(x));
                }
            }
        }
        i = i + 1;
    }
    assert(set@ =~= claimed_regs(shorts@, header, merge));
    set
}

/// What the search for merged values reads.
pub struct ValueMergeInput<'a> {
    pub cfg: &'a Cfg,
    pub graph: &'a GraphFacts,
    pub dataflow: &'a DataflowFacts,
    pub branches: &'a Vec<BranchCandidate>,
    pub shorts: &'a Vec<ShortCircuitCandidate>,
    pub loops: &'a Vec<LoopCandidate>,
}

pub open spec fn branch_wf(cfg: &Cfg, b: &BranchCandidate) -> bool {
    &&& cfg.has_block(b.header)
    &&& cfg.has_block(b.then_entry)
    &&& b.else_entry is Some ==> cfg.has_block(b.else_entry->0)
    &&& b.merge is Some ==> cfg.has_block(b.merge->0)
}

pub open spec fn short_wf(cfg: &Cfg, s: &ShortCircuitCandidate) -> bool {
    match s.exit {
        ShortCircuitExit::BranchExit { truthy, falsy } => cfg.has_block(truthy) && cfg.has_block(falsy),
        ShortCircuitExit::ValueMerge(m) => cfg.has_block(m),
    }
}

/// Where a candidate for merged values comes from: its header, its merge, its arms, and the
/// registers that are left to others.
pub struct ArmSplit {
    pub header: BlockRef,
    pub merge: BlockRef,
    pub preds: ArmPreds,
    pub skipped: Set<Reg>,
}

impl<'a> ValueMergeInput<'a> {
    pub open spec fn wf(&self) -> bool {
        &&& self.cfg.wf()
        &&& self.graph.sized(self.cfg)
        &&& defs_known(self.dataflow)
        &&& loops_wf(self.cfg, self.loops@)
        &&& forall|i: int| 0 <= i < self.branches@.len() ==> branch_wf(self.cfg, &(#[trigger] self.branches@[i]))
        &&& forall|i: int| 0 <= i < self.shorts@.len() ==> short_wf(self.cfg, &(#[trigger] self.shorts@[i]))
    }

    /// At the head of a `for` body whose arms share blocks, the strict merge lies outside of
    /// the loop: shared blocks are then told apart by dominance.
    pub open spec fn parts_overlap(&self, b: &BranchCandidate, merge: BlockRef) -> bool {
        b.else_entry is Some && match self.graph.common_postdom(b.then_entry, b.else_entry->0) {
            Some(strict) => strict != merge && match least_where(
                self.loops@.len(),
                for_exit_owner(self.cfg, self.loops@, b.header, b.then_entry, b.else_entry->0, strict),
                scope_size(self.loops@),
            ) {
                Some(i) => {
                    let c = &self.loops@[i];
                    for_body_entry(self.cfg, c) == Some(b.header) && c.blocks@.contains(b.then_entry) && c.blocks@.contains(
                        b.else_entry->0,
                    )
                },
                None => false,
            },
            None => false,
        }
    }

    /// A shared predecessor that only the other entry dominates belongs to the other arm.
    pub open spec fn own_side(
        &self,
        own: BlockRef,
        other: BlockRef,
        preds: Set<BlockRef>,
        others: Set<BlockRef>,
    ) -> Set<BlockRef> {
        Set::new(
            |x: BlockRef|
                preds.contains(x) && !(others.contains(x) && self.graph.dom(other, x) && !self.graph.dom(own, x)),
        )
    }

    pub open spec fn then_preds(&self, b: &BranchCandidate, merge: BlockRef) -> Set<BlockRef> {
        let t = merge_arm_preds(self.cfg, b.then_entry, merge);
        if self.parts_overlap(b, merge) {
            self.own_side(b.then_entry, b.else_entry->0, t, merge_arm_preds(self.cfg, b.else_entry->0, merge))
        } else {
            t
        }
    }

    /// The other side: the else arm, or the header itself where there is none.
    pub open spec fn else_preds(&self, b: &BranchCandidate, merge: BlockRef) -> Set<BlockRef> {
        if b.kind == BranchKind::IfThen {
            Set::empty().insert(b.header)
        } else if b.else_entry is None {
            Set::empty()
        } else {
            let e = merge_arm_preds(self.cfg, b.else_entry->0, merge);
            if self.parts_overlap(b, merge) {
                self.own_side(b.else_entry->0, b.then_entry, e, merge_arm_preds(self.cfg, b.then_entry, merge))
            } else {
                e
            }
        }
    }

    /// How branch `b` splits the values at its merge.
    pub open spec fn branch_split(&self, b: &BranchCandidate) -> Option<ArmSplit> {
        match b.merge {
            Some(merge) => {
                let t = self.then_preds(b, merge);
                let e = self.else_preds(b, merge);
                if self.dataflow.phis_in(merge).len() > 0 && (self.graph.dom(b.header, merge) || heads_loop(
                    self.loops@,
                    merge,
                )) && b.kind != BranchKind::Guard && t != Set::<BlockRef>::empty() && e != Set::<BlockRef>::empty()
                    && t.disjoint(e) {
                    Some(
                        ArmSplit {
                            header: b.header,
                            merge,
                            preds: ArmPreds { then_preds: t, else_preds: e, ignored: header_blocks(self.loops@, merge) },
                            skipped: claimed_regs(self.shorts@, b.header, merge),
                        },
                    )
                } else {
                    None
                }
            },
            None => None,
        }
    }

    /// Where the two exits of a condition meet.
    pub open spec fn exits_meet(&self, truthy: BlockRef, falsy: BlockRef) -> Option<BlockRef> {
        let there = truthy == falsy || (self.cfg.is_reachable(truthy) && reaches(self.cfg.step(), truthy, falsy));
        let back = falsy == truthy || (self.cfg.is_reachable(falsy) && reaches(self.cfg.step(), falsy, truthy));
        if self.graph.postdom(falsy, truthy) {
            Some(falsy)
        } else if self.graph.postdom(truthy, falsy) {
            Some(truthy)
        } else if there && !back {
            Some(falsy)
        } else if !there && back {
            Some(truthy)
        } else {
            self.graph.common_postdom(truthy, falsy)
        }
    }

    /// The blocks from which one side of the condition flows into the merge.
    pub open spec fn exit_preds(
        &self,
        s: &ShortCircuitCandidate,
        side: bool,
        target: BlockRef,
        merge: BlockRef,
    ) -> Set<BlockRef> {
        if target == merge {
            Set::new(|x: BlockRef| s.leaves_from(side, x))
        } else {
            merge_arm_preds(self.cfg, target, merge)
        }
    }

    /// How a condition splits the values where its exits meet.
    pub open spec fn short_split(&self, s: &ShortCircuitCandidate) -> Option<ArmSplit> {
        match s.exit {
            ShortCircuitExit::BranchExit { truthy, falsy } => match self.exits_meet(truthy, falsy) {
                Some(merge) => {
                    let t = self.exit_preds(s, true, truthy, merge);
                    let e = self.exit_preds(s, false, falsy, merge);
                    if merge != self.cfg.exit_block && self.dataflow.phis_in(merge).len() > 0 && t
                        != Set::<BlockRef>::empty() && e != Set::<BlockRef>::empty() && t.disjoint(e) {
                        Some(
                            ArmSplit {
                                header: s.header,
                                merge,
                                preds: ArmPreds {
                                    then_preds: t,
                                    else_preds: e,
                                    ignored: header_blocks(self.loops@, merge),
                                },
                                skipped: Set::empty(),
                            },
                        )
                    } else {
                        None
                    }
                },
                None => None,
            },
            ShortCircuitExit::ValueMerge(_) => None,
        }
    }

    pub open spec fn ctx(&self, header: BlockRef) -> BranchValueMergeContext<'a> {
        BranchValueMergeContext { header, graph_facts: self.graph, dataflow: self.dataflow }
    }

    /// Source `s`: the branches come first, then the conditions.
    #[verifier::opaque]
    pub open spec fn split(&self, s: int) -> Option<ArmSplit> {
        if s < self.branches@.len() {
            self.branch_split(&self.branches@[s])
        } else {
            self.short_split(&self.shorts@[s - self.branches@.len()])
        }
    }

    /// How many values source `s` merges.
    #[verifier::opaque]
    pub open spec fn weight(&self, s: int) -> nat {
        match self.split(s) {
            Some(a) => merge_count(&self.ctx(a.header), a.merge, a.preds, a.skipped),
            None => 0,
        }
    }

    /// Source `s` merges something at `merge` for `header`.
    pub open spec fn offers(&self, s: int, header: BlockRef, merge: BlockRef) -> bool {
        &&& 0 <= s < self.branches@.len() + self.shorts@.len()
        &&& self.split(s) is Some
        &&& (self.split(s)->0).header == header
        &&& (self.split(s)->0).merge == merge
        &&& self.weight(s) > 0
    }

    /// Source `a` is preferred to source `b`: it merges more values, or as many as a condition
    /// where `b` is a branch.
    pub open spec fn outranks(&self, a: int, b: int) -> bool {
        self.weight(a) > self.weight(b) || (self.weight(a) == self.weight(b) && a >= self.branches@.len() && b
            < self.branches@.len())
    }

    /// Of the first `n` sources, `s` is the first that none outranks.
    pub open spec fn wins(&self, s: int, header: BlockRef, merge: BlockRef, n: int) -> bool {
        &&& s < n
        &&& self.offers(s, header, merge)
        &&& forall|o: int| 0 <= o < n && #[trigger] self.offers(o, header, merge) ==> !self.outranks(o, s) && (o < s
            ==> self.outranks(s, o))
    }

    #[verifier::opaque]
    pub open spec fn describes(&self, s: int, c: &BranchValueMergeCandidate) -> bool {
        match self.split(s) {
            Some(a) => {
                &&& c.header == a.header
                &&& c.merge == a.merge
                &&& is_merge_list(&self.ctx(a.header), a.merge, a.preds, a.skipped, c.values@)
            },
            None => false,
        }
    }
}

impl<'a> ValueMergeInput<'a> {
    fn overlap_parts(&self, b: &BranchCandidate, merge: BlockRef) -> (r: bool)
        requires
            self.wf(),
            branch_wf(self.cfg, b),
        ensures
            r == self.parts_overlap(b, merge),
    {
        let other = match b.else_entry {
            None => {
                return false;
            },
            Some(e) => e,
        };
        let strict = match self.graph.nearest_common_postdom(b.then_entry, other) {
            None => {
                return false;
            },
            Some(s) => s,
        };
        if strict == merge {
            return false;
        }
        match for_loop_exit_owner(self.cfg, self.loops, b.header, b.then_entry, other, strict) {
            None => false,
            Some(i) => {
                let c = &self.loops[i];
                assert(self.loops@[i as int].wf(self.cfg));
                for_loop_body_entry(self.cfg, c) == Some(b.header) && c.blocks.contains(b.then_entry) && c.blocks.contains(other)
            },
        }
    }

    fn keep_own_side(
        &self,
        own: BlockRef,
        other: BlockRef,
        preds: &IdSet<BlockRef>,
        others: &IdSet<BlockRef>,
    ) -> (r: IdSet<BlockRef>)
        ensures
            r@ == self.own_side(own, other, preds@, others@),
    {
        let n = preds.len();
        let mut r: IdSet<BlockRef> = IdSet::new();
        let mut i: usize = 0;
        while i < n
            invariant
                n == preds.seq().len(),
                i <= n,
                forall|x: BlockRef| #[trigger] r@.contains(x) ==> self.own_side(own, other, preds@, others@).contains(x),
                forall|j: int| 0 <= j < i && self.own_side(own, other, preds@, others@).contains(#[trigger] preds.seq()[j])
                    ==> r@.contains(preds.seq()[j]),
            decreases n - i,
        {
            let x = preds.at(i);
            if !(others.contains(x) && self.graph.dominates(other, x) && !self.graph.dominates(own, x)) {
                r.insert(x);
            }
            i = i + 1;
        }
        proof {
            let want = self.own_side(own, other, preds@, others@);
            assert forall|x: BlockRef| r@.contains(x) <==> want.contains(x) by {
                if want.contains(x) {
                    assert(preds@.contains(x));
                    let j = choose|j: int| 0 <= j < preds.seq().len() && preds.seq()[j] == x;
                    assert(want.contains(preds.seq()[j]));
                }
            }
            assert(r@ =~= want);
        }
        r
    }

    /// The predecessors of the merge on the two sides of a branch that is no guard.
    fn branch_merge_preds(&self, b: &BranchCandidate, merge: BlockRef) -> (r: (IdSet<BlockRef>, IdSet<BlockRef>))
        requires
            self.wf(),
            branch_wf(self.cfg, b),
        ensures
            r.0@ == self.then_preds(b, merge),
            r.1@ == self.else_preds(b, merge),
    {
        let t = collect_merge_arm_preds(self.cfg, b.then_entry, merge);
        let parts = self.overlap_parts(b, merge);
        let e = match b.else_entry {
            Some(other) => collect_merge_arm_preds(self.cfg, other, merge),
            None => IdSet::new(),
        };
        let then_side = match b.else_entry {
            Some(other) => if parts {
                self.keep_own_side(b.then_entry, other, &t, &e)
            } else {
                t.clone()
            },
            None => t.clone(),
        };
        let is_if_then = match b.kind {
            BranchKind::IfThen => true,
            _ => false,
        };
        let else_side = if is_if_then {
            IdSet::singleton(b.header)
        } else {
            match b.else_entry {
                Some(other) => if parts {
                    self.keep_own_side(other, b.then_entry, &e, &t)
                } else {
                    e
                },
                None => e,
            }
        };
        (then_side, else_side)
    }

    /// The values that branch `i` merges.
    fn branch_source(&self, i: usize) -> (r: Option<BranchValueMergeCandidate>)
        requires
            self.wf(),
            i < self.branches@.len(),
        ensures
            match r {
                Some(c) => self.describes(i as int, &c) && self.weight(i as int) == c.values@.len() && c.values@.len() > 0,
                None => self.weight(i as int) == 0,
            },
    {
        proof {
            reveal(ValueMergeInput::split);
            reveal(ValueMergeInput::weight);
            reveal(ValueMergeInput::describes);
        }
        let b = &self.branches[i];
        assert(branch_wf(self.cfg, &self.branches@[i as int]));
        let merge = match b.merge {
            None => {
                return None;
            },
            Some(m) => m,
        };
        let (ignored, heads) = collect_header_blocks(self.loops, merge);
        if self.dataflow.phi_candidates_in_block(merge).len() == 0 || !(self.graph.dominates(b.header, merge) || heads) {
            return None;
        }
        let is_guard = match b.kind {
            BranchKind::Guard => true,
            _ => false,
        };
        if is_guard {
            return None;
        }
        let (then_side, else_side) = self.branch_merge_preds(b, merge);
        if then_side.is_empty() || else_side.is_empty() || !then_side.is_disjoint(&else_side) {
            return None;
        }
        let skipped = collect_claimed_regs(self.shorts, b.header, merge);
        let ctx = BranchValueMergeContext::new(b.header, self.graph, self.dataflow);
        let values = branch_value_merges_in_block(&ctx, merge, &then_side, &else_side, &ignored, &skipped);
        assert(ctx == self.ctx(b.header));
        if values.len() == 0 {
            return None;
        }
        Some(BranchValueMergeCandidate { header: b.header, merge, values })
    }

    fn meet(&self, truthy: BlockRef, falsy: BlockRef) -> (r: Option<BlockRef>)
        requires
            self.wf(),
        ensures
            r == self.exits_meet(truthy, falsy),
    {
        if self.graph.post_dominates(falsy, truthy) {
            return Some(falsy);
        }
        if self.graph.post_dominates(truthy, falsy) {
            return Some(truthy);
        }
        proof {
            reachable_in_range(self.cfg);
            searches_everywhere(self.cfg, truthy, self.cfg.reachable_blocks@);
            searches_everywhere(self.cfg, falsy, self.cfg.reachable_blocks@);
        }
        let there = self.cfg.can_reach(truthy, falsy);
        let back = self.cfg.can_reach(falsy, truthy);
        if there && !back {
            Some(falsy)
        } else if !there && back {
            Some(truthy)
        } else {
            self.graph.nearest_common_postdom(truthy, falsy)
        }
    }

    fn side_preds(&self, s: &ShortCircuitCandidate, side: bool, target: BlockRef, merge: BlockRef) -> (r: IdSet<BlockRef>)
        requires
            self.wf(),
            self.cfg.has_block(target),
        ensures
            r@ == self.exit_preds(s, side, target, merge),
    {
        if target == merge {
            let r = s.branch_exit_leaf_preds(side);
            assert(r@ =~= self.exit_preds(s, side, target, merge));
            r
        } else {
            collect_merge_arm_preds(self.cfg, target, merge)
        }
    }

    /// The values that condition `i` merges.
    fn short_source(&self, i: usize) -> (r: Option<BranchValueMergeCandidate>)
        requires
            self.wf(),
            i < self.shorts@.len(),
        ensures
            ({
                let s = self.branches@.len() + i;
                match r {
                    Some(c) => self.describes(s, &c) && self.weight(s) == c.values@.len() && c.values@.len() > 0,
                    None => self.weight(s) == 0,
                }
            }),
    {
        proof {
            reveal(ValueMergeInput::split);
            reveal(ValueMergeInput::weight);
            reveal(ValueMergeInput::describes);
        }
        let s = &self.shorts[i];
        assert(short_wf(self.cfg, &self.shorts@[i as int]));
        let (truthy, falsy) = match s.exit {
            ShortCircuitExit::BranchExit { truthy, falsy } => (truthy, falsy),
            ShortCircuitExit::ValueMerge(_) => {
                return None;
            },
        };
        let merge = match self.meet(truthy, falsy) {
            None => {
                return None;
            },
            Some(m) => m,
        };
        if merge == self.cfg.exit_block || self.dataflow.phi_candidates_in_block(merge).len() == 0 {
            return None;
        }
        let then_side = self.side_preds(s, true, truthy, merge);
        let else_side = self.side_preds(s, false, falsy, merge);
        if then_side.is_empty() || else_side.is_empty() || !then_side.is_disjoint(&else_side) {
            return None;
        }
        let (ignored, heads) = collect_header_blocks(self.loops, merge);
        let skipped: IdSet<Reg> = IdSet::new();
        let ctx = BranchValueMergeContext::new(s.header, self.graph, self.dataflow);
        let values = branch_value_merges_in_block(&ctx, merge, &then_side, &else_side, &ignored, &skipped);
        assert(ctx == self.ctx(s.header));
        if values.len() == 0 {
            return None;
        }
        Some(BranchValueMergeCandidate { header: s.header, merge, values })
    }

    /// The values of source `s`.
    fn source(&self, s: usize) -> (r: Option<BranchValueMergeCandidate>)
        requires
            self.wf(),
            s < self.branches@.len() + self.shorts@.len(),
        ensures
            match r {
                Some(c) => self.describes(s as int, &c) && self.weight(s as int) == c.values@.len() && self.offers(
                    s as int,
                    c.header,
                    c.merge,
                ),
                None => self.weight(s as int) == 0,
            },
    {
        proof {
            reveal(ValueMergeInput::describes);
        }
        if s < self.branches.len() {
            self.branch_source(s)
        } else {
            self.short_source(s - self.branches.len())
        }
    }
}

/// A region's key comes before another's.
pub open spec fn key_less(a: &BranchValueMergeCandidate, b: &BranchValueMergeCandidate) -> bool {
    a.header.0 < b.header.0 || (a.header.0 == b.header.0 && a.merge.0 < b.merge.0)
}

/// The candidate is that of source `s`, the best of the first `n` for its region.
pub open spec fn is_winner(input: &ValueMergeInput, n: int, c: &BranchValueMergeCandidate, s: int) -> bool {
    input.wins(s, c.header, c.merge, n) && input.describes(s, c) && input.weight(s) == c.values@.len()
}

/// The first `n` sources' best candidates: one for each pair of header and merge, by
/// ascending pair.
pub open spec fn best_candidates(
    input: &ValueMergeInput,
    n: int,
    list: Seq<BranchValueMergeCandidate>,
    from: Seq<int>,
) -> bool {
    &&& from.len() == list.len()
    &&& forall|i: int, j: int| 0 <= i < j < list.len() ==> key_less(&(#[trigger] list[i]), &(#[trigger] list[j]))
    &&& forall|i: int| 0 <= i < list.len() ==> is_winner(input, n, &(#[trigger] list[i]), from[i])
    &&& forall|s: int, h: BlockRef, m: BlockRef| s < n && #[trigger] input.offers(s, h, m) ==> has_key(list, h, m)
}

pub open spec fn has_key(list: Seq<BranchValueMergeCandidate>, h: BlockRef, m: BlockRef) -> bool {
    exists|i: int| 0 <= i < list.len() && (#[trigger] list[i]).header == h && list[i].merge == m
}

/// Another source does not disturb the winner of other regions, nor one that it does not
/// outrank.
proof fn wins_later(input: &ValueMergeInput, s: int, h: BlockRef, m: BlockRef, n: int)
    requires
        input.wins(s, h, m, n),
        input.offers(n, h, m) ==> !input.outranks(n, s),
    ensures
        input.wins(s, h, m, n + 1),
{
}

/// A source without values changes nothing.
proof fn best_without(input: &ValueMergeInput, s: int, list: Seq<BranchValueMergeCandidate>, from: Seq<int>)
    requires
        best_candidates(input, s, list, from),
        input.weight(s) == 0,
    ensures
        best_candidates(input, s + 1, list, from),
{
    assert forall|i: int| 0 <= i < list.len() implies is_winner(input, s + 1, &(#[trigger] list[i]), from[i]) by {
        wins_later(input, from[i], list[i].header, list[i].merge, s);
    }
}

/// A source that does not outrank the winner of its region changes nothing.
proof fn best_kept(
    input: &ValueMergeInput,
    s: int,
    list: Seq<BranchValueMergeCandidate>,
    from: Seq<int>,
    c: &BranchValueMergeCandidate,
    at: int,
)
    requires
        best_candidates(input, s, list, from),
        input.offers(s, c.header, c.merge),
        0 <= at < list.len(),
        list[at].header == c.header,
        list[at].merge == c.merge,
        !input.outranks(s, from[at]),
    ensures
        best_candidates(input, s + 1, list, from),
{
    assert forall|i: int| 0 <= i < list.len() implies is_winner(input, s + 1, &(#[trigger] list[i]), from[i]) by {
        if i < at {
            assert(key_less(&list[i], &list[at]));
        } else if i > at {
            assert(key_less(&list[at], &list[i]));
        }
        wins_later(input, from[i], list[i].header, list[i].merge, s);
    }
    assert forall|q: int, h: BlockRef, m: BlockRef| q < s + 1 && #[trigger] input.offers(q, h, m) implies has_key(list, h, m) by {
        if q == s {
            assert(list[at].header == h && list[at].merge == m);
        }
    }
}

/// A source that outranks the winner of its region takes its place.
proof fn best_replaced(
    input: &ValueMergeInput,
    s: int,
    list: Seq<BranchValueMergeCandidate>,
    from: Seq<int>,
    c: BranchValueMergeCandidate,
    at: int,
)
    requires
        best_candidates(input, s, list, from),
        input.offers(s, c.header, c.merge),
        input.describes(s, &c),
        input.weight(s) == c.values@.len(),
        0 <= at < list.len(),
        list[at].header == c.header,
        list[at].merge == c.merge,
        input.outranks(s, from[at]),
    ensures
        best_candidates(input, s + 1, list.update(at, c), from.update(at, s)),
{
    let list1 = list.update(at, c);
    let from1 = from.update(at, s);
    assert forall|i: int| 0 <= i < list1.len() implies is_winner(input, s + 1, &(#[trigger] list1[i]), from1[i]) by {
        if i == at {
            assert(is_winner(input, s, &list[at], from[at]));
            assert forall|o: int| 0 <= o < s + 1 && #[trigger] input.offers(o, c.header, c.merge) implies !input.outranks(o, s)
                && (o < s ==> input.outranks(s, o)) by {
                if o < s {
                    assert(!input.outranks(o, from[at]));
                }
            }
        } else {
            assert(list1[i] == list[i]);
            assert(is_winner(input, s, &list[i], from[i]));
            if i < at {
                assert(key_less(&list[i], &list[at]));
            } else {
                assert(key_less(&list[at], &list[i]));
            }
            wins_later(input, from[i], list[i].header, list[i].merge, s);
        }
    }
    assert forall|q: int, h: BlockRef, m: BlockRef| q < s + 1 && #[trigger] input.offers(q, h, m) implies has_key(list1, h, m) by {
        if q < s {
            assert(has_key(list, h, m));
            let i = choose|i: int| 0 <= i < list.len() && (#[trigger] list[i]).header == h && list[i].merge == m;
            assert(list1[i].header == h && list1[i].merge == m);
        } else {
            assert(list1[at].header == h);
        }
    }
    assert forall|i: int, j: int| 0 <= i < j < list1.len() implies key_less(&(#[trigger] list1[i]), &(#[trigger] list1[j])) by {
        assert(key_less(&list[i], &list[j]));
    }
}

/// A source of a new region is put in its place.
proof fn best_inserted(
    input: &ValueMergeInput,
    s: int,
    list: Seq<BranchValueMergeCandidate>,
    from: Seq<int>,
    c: BranchValueMergeCandidate,
    at: int,
)
    requires
        best_candidates(input, s, list, from),
        input.offers(s, c.header, c.merge),
        input.describes(s, &c),
        input.weight(s) == c.values@.len(),
        0 <= at <= list.len(),
        forall|i: int| 0 <= i < at ==> key_less(&(#[trigger] list[i]), &c),
        forall|i: int| at <= i < list.len() ==> key_less(&c, &(#[trigger] list[i])),
    ensures
        best_candidates(input, s + 1, list.insert(at, c), from.insert(at, s)),
{
    let list1 = list.insert(at, c);
    let from1 = from.insert(at, s);
    assert forall|o: int| 0 <= o < s implies !#[trigger] input.offers(o, c.header, c.merge) by {
        if input.offers(o, c.header, c.merge) {
            assert(has_key(list, c.header, c.merge));
            let i = choose|i: int| 0 <= i < list.len() && (#[trigger] list[i]).header == c.header && list[i].merge == c.merge;
            if i < at {
                assert(key_less(&list[i], &c));
            } else {
                assert(key_less(&c, &list[i]));
            }
        }
    }
    assert(input.wins(s, c.header, c.merge, s + 1));
    assert forall|i: int| 0 <= i < list1.len() implies is_winner(input, s + 1, &(#[trigger] list1[i]), from1[i]) by {
        if i == at {
            assert(list1[i] == c && from1[i] == s);
        } else {
            let j = if i < at {
                i
            } else {
                i - 1
            };
            assert(list1[i] == list[j] && from1[i] == from[j]);
            assert(is_winner(input, s, &list[j], from[j]));
            if j < at {
                assert(key_less(&list[j], &c));
            } else {
                assert(key_less(&c, &list[j]));
            }
            wins_later(input, from[j], list[j].header, list[j].merge, s);
        }
    }
    assert forall|i: int, j: int| 0 <= i < j < list1.len() implies key_less(&(#[trigger] list1[i]), &(#[trigger] list1[j])) by {
        if j < at {
            assert(key_less(&list[i], &list[j]));
        } else if i < at && j > at {
            assert(key_less(&list[i], &list[j - 1]));
        } else if i > at {
            assert(key_less(&list[i - 1], &list[j - 1]));
        } else if i == at {
            assert(key_less(&c, &list[j - 1]));
        } else {
            assert(key_less(&list[i], &c));
        }
    }
    assert forall|q: int, h: BlockRef, m: BlockRef| q < s + 1 && #[trigger] input.offers(q, h, m) implies has_key(list1, h, m) by {
        if q < s {
            assert(has_key(list, h, m));
            let i = choose|i: int| 0 <= i < list.len() && (#[trigger] list[i]).header == h && list[i].merge == m;
            if i < at {
                assert(list1[i] == list[i]);
            } else {
                assert(list1[i + 1] == list[i]);
            }
        } else {
            assert(list1[at].header == h && list1[at].merge == m);
        }
    }
}

/// Chooses, for every pair of header and merge, the source that merges most values.
pub fn analyze_branch_value_merges(input: &ValueMergeInput) -> (r: Vec<BranchValueMergeCandidate>)
    requires
        input.wf(),
        input.branches@.len() + input.shorts@.len() <= usize::MAX,
    ensures
        exists|from: Seq<int>| #[trigger] best_candidates(
            input,
            (input.branches@.len() + input.shorts@.len()) as int,
            r@,
            from,
        ),
{
    let total: usize = input.branches.len() + input.shorts.len();
    let nb: usize = input.branches.len();
    let mut list: Vec<BranchValueMergeCandidate> = Vec::new();
    let mut ranks: Vec<usize> = Vec::new();
    let ghost mut from: Seq<int> = Seq::empty();
    let mut s: usize = 0;
    while s < total
        invariant
            input.wf(),
            total == input.branches@.len() + input.shorts@.len(),
            nb == input.branches@.len(),
            s <= total,
            best_candidates(input, s as int, list@, from),
            ranks@.len() == list@.len(),
            forall|i: int| 0 <= i < ranks@.len() ==> #[trigger] ranks@[i] == from[i],
        decreases total - s,
    {
        match input.source(s) {
            None => {
                proof {
                    best_without(input, s as int, list@, from);
                }
            },
            Some(c) => {
                let n = list.len();
                let mut at: usize = 0;
                while at < n && (list[at].header.0 < c.header.0 || (list[at].header.0 == c.header.0 && list[at].merge.0
                    < c.merge.0))
                    invariant
                        n == list@.len(),
                        at <= n,
                        forall|i: int| 0 <= i < at ==> key_less(&(#[trigger] list@[i]), &c),
                    decreases n - at,
                {
                    at = at + 1;
                }
                if at < n && list[at].header == c.header && list[at].merge == c.merge {
                    assert(is_winner(input, s as int, &list@[at as int], from[at as int]));
                    let w0 = list[at].values.len();
                    let w1 = c.values.len();
                    let outranks = w1 > w0 || (w1 == w0 && s >= nb && ranks[at] < nb);
                    assert(outranks == input.outranks(s as int, from[at as int]));
                    if outranks {
                        proof {
                            best_replaced(input, s as int, list@, from, c, at as int);
                            from = from.update(at as int, s as int);
                        }
                        ranks[at] = s;
                        list[at] = c;
                    } else {
                        proof {
                            best_kept(input, s as int, list@, from, &c, at as int);
                        }
                    }
                } else {
                    proof {
                        assert forall|i: int| at <= i < n implies key_less(&c, &(#[trigger] list@[i])) by {
                            if i > at {
                                assert(key_less(&list@[at as int], &list@[i]));
                            }
                        }
                        best_inserted(input, s as int, list@, from, c, at as int);
                        from = from.insert(at as int, s as int);
                    }
                    list.insert(at, c);
                    ranks.insert(at, s);
                }
            },
        }
        s = s + 1;
    }
    list
}

} // verus!
