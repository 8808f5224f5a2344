//! Branch merges inside loops that are left early, and regions that run exactly once.

use vstd::prelude::*;

use crate::branch_values::{branch_value_merges_in_block, branch_wf, merge_count};
use crate::branches::{
    branch_has_loop_escape_arm, continues_at, core_size, escapes_loop, find_soft_merge, is_soft_merge,
    loop_iteration_escape_entry, scope_size, soft_merge,
};
use crate::cfg::Cfg;
use crate::classify::{heads_loop, BranchIndex, Fork};
use crate::dataflow::{DataflowFacts, PhiCandidate};
use crate::evidence::{BranchCandidate, BranchKind, IrreducibleRegion, LoopCandidate, SinglePassFenceFact};
use crate::forest::up;
use crate::ids::{BlockRef, EdgeRef, Reg};
use crate::idset::IdSet;
use crate::phi_arms::{defs_known, ArmPreds, BranchValueMergeContext};
use crate::refine::{branch_at, branches_wf, find_branch, fork_of, find_fork, headed_by};
use crate::search::{
    count_where, count_where_monotone, first_where, first_where_least, first_where_stable, least_where,
    least_where_least, only_where,
};
use crate::tree::{nearest_common, up_node};

verus! {

impl<'a> BranchIndex<'a> {
    /// Loop `i` is left from the strict merge of the outer branch, has the branch in its body
    /// and the soft merge in it.
    pub open spec fn escape_owner(
        &self,
        list: Seq<BranchCandidate>,
        outer: &BranchCandidate,
        strict: BlockRef,
        soft: BlockRef,
    ) -> spec_fn(int) -> bool {
        |i: int|
            {
                let c = &self.loops@[i];
                &&& c.exits@.contains(strict) || continues_at(self.proto, self.cfg, c, strict) || match branch_at(list, strict) {
                    Some(b) => escapes_loop(self.proto, self.cfg, c, &b),
                    None => false,
                }
                &&& c.body_scope_blocks@.contains(outer.header)
                &&& c.body_scope_blocks@.contains(outer.then_entry)
                &&& c.body_scope_blocks@.contains(outer.else_entry->0)
                &&& c.body_scope_blocks@.contains(soft) || c.blocks@.contains(soft) || c.control_blocks@.contains(soft)
                    || c.continue_target == Some(soft)
            }
    }

    /// A branch with one arm that touches the way out of loop `c`, or meets the soft merge.
    pub open spec fn touches_exit(&self, c: &LoopCandidate, b: &BranchCandidate, soft: BlockRef) -> bool {
        b.kind != BranchKind::IfElse && b.else_entry is None && b.merge is Some && (c.exits@.contains(b.merge->0)
            || c.exits@.contains(b.then_entry) || (self.cfg.unique_successor(b.then_entry) is Some && c.exits@.contains(
            self.cfg.unique_successor(b.then_entry)->0,
        )) || b.merge == Some(soft))
    }

    /// Candidate `b` lies in one arm of the outer branch and leaves loop `c`, or meets the
    /// soft merge.
    pub open spec fn nested_in(
        &self,
        c: &LoopCandidate,
        outer: &BranchCandidate,
        b: &BranchCandidate,
        soft: BlockRef,
    ) -> bool {
        let leaves = escapes_loop(self.proto, self.cfg, c, b);
        b.header != soft && ((self.touches_exit(c, b, soft) && self.graph.dom(outer.then_entry, b.header) != self.graph.dom(
            outer.else_entry->0,
            b.header,
        ) && (b.merge == Some(soft) || leaves)) || ((b.header == outer.then_entry || Some(b.header) == outer.else_entry)
            && leaves))
    }

    /// The soft merge of an outer branch and the innermost loop that is left from its strict
    /// merge.
    pub open spec fn escape_site(&self, list: Seq<BranchCandidate>, outer: &BranchCandidate) -> Option<(int, BlockRef)> {
        if outer.kind == BranchKind::IfElse && outer.merge is Some && outer.else_entry is Some && outer.merge
            != Some(self.cfg.exit_block) {
            match soft_merge(self.cfg, self.graph, outer.header, outer.then_entry, outer.else_entry->0) {
                Some(soft) => match least_where(
                    self.loops@.len(),
                    self.escape_owner(list, outer, outer.merge->0, soft),
                    scope_size(self.loops@),
                ) {
                    Some(i) => Some((i, soft)),
                    None => None,
                },
                None => None,
            }
        } else {
            None
        }
    }

    /// The outer branch can be closed at its soft merge: some candidate is nested in it, and
    /// every one that is has a merge.
    pub open spec fn closes_softly(&self, list: Seq<BranchCandidate>, outer: &BranchCandidate) -> bool {
        match self.escape_site(list, outer) {
            Some((i, soft)) => {
                &&& exists|j: int| 0 <= j < list.len() && self.nested_in(&self.loops@[i], outer, &(#[trigger] list[j]), soft)
                &&& forall|j: int|
                    0 <= j < list.len() && self.nested_in(&self.loops@[i], outer, &(#[trigger] list[j]), soft)
                        ==> list[j].merge is Some
            },
            None => false,
        }
    }

    /// What closing the outer branch `k` softly makes of candidate `j`.
    pub open spec fn soft_rewrite(&self, list: Seq<BranchCandidate>, k: int, j: int) -> Option<BranchCandidate> {
        let outer = &list[k];
        if self.closes_softly(list, outer) {
            let (i, soft) = self.escape_site(list, outer)->0;
            if self.nested_in(&self.loops@[i], outer, &list[j], soft) && list[j].merge != Some(soft) {
                Some(
                    BranchCandidate {
                        else_entry: list[j].merge,
                        merge: Some(soft),
                        kind: BranchKind::IfElse,
                        ..list[j]
                    },
                )
            } else if j == k {
                Some(BranchCandidate { merge: Some(soft), ..list[j] })
            } else {
                None
            }
        } else {
            None
        }
    }

    /// Candidate `j` after the first `n` outer branches; the last one that concerns it counts.
    pub open spec fn softly_closed(&self, list: Seq<BranchCandidate>, n: nat, j: int) -> BranchCandidate
        decreases n,
    {
        if n == 0 {
            list[j]
        } else {
            match self.soft_rewrite(list, n - 1, j) {
                Some(r) => r,
                None => self.softly_closed(list, (n - 1) as nat, j),
            }
        }
    }

    pub open spec fn all_softly_closed(&self, list: Seq<BranchCandidate>) -> Seq<BranchCandidate> {
        Seq::new(list.len(), |j: int| self.softly_closed(list, list.len(), j))
    }

    fn find_escape_site(&self, list: &Vec<BranchCandidate>, outer: &BranchCandidate) -> (r: Option<(usize, BlockRef)>)
        requires
            self.wf(),
            branches_wf(self.cfg, list@),
            branch_wf(self.cfg, outer),
        ensures
            match self.escape_site(list@, outer) {
                Some((i, soft)) => 0 <= i < self.loops@.len() && r is Some && (r->0).0 as int == i && (r->0).1 == soft
                    && self.cfg.has_block(soft),
                None => r is None,
            },
    {
        let is_if_else = match outer.kind {
            BranchKind::IfElse => true,
            _ => false,
        };
        if !is_if_else || outer.merge == Some(self.cfg.exit_block) {
            return None;
        }
        let (strict, other) = match (outer.merge, outer.else_entry) {
            (Some(s), Some(o)) => (s, o),
            _ => {
                return None;
            },
        };
        let soft = match find_soft_merge(self.cfg, self.graph, outer.header, outer.then_entry, other) {
            None => {
                return None;
            },
            Some(s) => s,
        };
        let strict_branch = find_branch(list, strict);
        proof {
            if strict_branch is Some {
                let i = choose|i: int| 0 <= i < list@.len() && list@[i] == strict_branch->0;
                assert(branch_wf(self.cfg, &list@[i]));
            }
        }
        let total = self.loops.len();
        let ghost p = self.escape_owner(list@, outer, strict, soft);
        let ghost key = scope_size(self.loops@);
        let mut best: Option<usize> = None;
        let mut i: usize = 0;
        while i < total
            invariant
                self.wf(),
                branch_wf(self.cfg, outer),
                outer.else_entry == Some(other),
                outer.merge == Some(strict),
                strict_branch == branch_at(list@, strict),
                strict_branch is Some ==> branch_wf(self.cfg, &(strict_branch->0)),
                total == self.loops@.len(),
                p == self.escape_owner(list@, outer, strict, soft),
                key == scope_size(self.loops@),
                i <= total,
                match least_where(i as nat, p, key) {
                    Some(k) => 0 <= k < i && best == Some(k as usize),
                    None => best is None,
                },
            decreases total - i,
        {
            let c = &self.loops[i];
            assert(self.loops@[i as int].wf(self.cfg));
            let left = c.exits.contains(strict) || loop_iteration_escape_entry(self.proto, self.cfg, c, strict)
                || match &strict_branch {
                Some(b) => branch_has_loop_escape_arm(self.proto, self.cfg, c, b),
                None => false,
            };
            let takes = left && c.body_scope_blocks.contains(outer.header) && c.body_scope_blocks.contains(outer.then_entry)
                && c.body_scope_blocks.contains(other) && (c.body_scope_blocks.contains(soft) || c.blocks.contains(soft)
                || c.control_blocks.contains(soft) || c.continue_target == Some(soft));
            assert(p(i as int) == takes);
            if takes {
                let better = match best {
                    None => true,
                    Some(b) => c.body_scope_blocks.len() < self.loops[b].body_scope_blocks.len(),
                };
                if better {
                    best = Some(i);
                }
            }
            i = i + 1;
        }
        match best {
            None => None,
            Some(b) => Some((b, soft)),
        }
    }

    fn is_nested(
        &self,
        c: &LoopCandidate,
        outer: &BranchCandidate,
        other: BlockRef,
        b: &BranchCandidate,
        soft: BlockRef,
    ) -> (r: bool)
        requires
            self.wf(),
            c.wf(self.cfg),
            branch_wf(self.cfg, b),
            outer.else_entry == Some(other),
        ensures
            r == self.nested_in(c, outer, b, soft),
    {
        if b.header == soft {
            return false;
        }
        let leaves = branch_has_loop_escape_arm(self.proto, self.cfg, c, b);
        if leaves && (b.header == outer.then_entry || b.header == other) {
            return true;
        }
        let is_if_else = match b.kind {
            BranchKind::IfElse => true,
            _ => false,
        };
        let merge = match b.merge {
            None => {
                return false;
            },
            Some(m) => m,
        };
        if is_if_else || b.else_entry.is_some() {
            return false;
        }
        let onward = match self.cfg.unique_reachable_successor(b.then_entry) {
            Some(x) => c.exits.contains(x),
            None => false,
        };
        (c.exits.contains(merge) || c.exits.contains(b.then_entry) || onward || merge == soft) && self.graph.dominates(
            outer.then_entry,
            b.header,
        ) != self.graph.dominates(other, b.header) && (merge == soft || leaves)
    }

    /// Closes branches of an iteration at their soft merge where a loop is left from the
    /// strict one.
    pub fn refine_enclosing_loop_escape_merges(&self, list: &Vec<BranchCandidate>) -> (r: Vec<BranchCandidate>)
        requires
            self.wf(),
            branches_wf(self.cfg, list@),
        ensures
            r@ == self.all_softly_closed(list@),
            branches_wf(self.cfg, r@),
            forall|i: int| 0 <= i < r@.len() ==> (#[trigger] r@[i]).header == list@[i].header,
    {
        let n = list.len();
        let mut r: Vec<BranchCandidate> = Vec::new();
        let mut i: usize = 0;
        while i < n
            invariant
                n == list@.len(),
                i <= n,
                r@ =~= list@.subrange(0, i as int),
            decreases n - i,
        {
            r.push(list[i]);
            i = i + 1;
        }
        let mut k: usize = 0;
        while k < n
            invariant
                self.wf(),
                branches_wf(self.cfg, list@),
                n == list@.len(),
                k <= n,
                r@.len() == n,
                forall|j: int| 0 <= j < n ==> #[trigger] r@[j] == self.softly_closed(list@, k as nat, j),
                forall|j: int| 0 <= j < n ==> (#[trigger] r@[j]).header == list@[j].header && branch_wf(self.cfg, &r@[j]),
            decreases n - k,
        {
            let outer = list[k];
            assert(branch_wf(self.cfg, &list@[k as int]));
            let ghost before = r@;
            let site = self.find_escape_site(list, &outer);
            if let Some((l, soft)) = site {
                let c = &self.loops[l];
                assert(self.loops@[l as int].wf(self.cfg));
                let other = outer.else_entry.unwrap();
                let mut any = false;
                let mut closed = true;
                let mut j: usize = 0;
                while j < n
                    invariant
                        self.wf(),
                        branches_wf(self.cfg, list@),
                        n == list@.len(),
                        c.wf(self.cfg),
                        outer.else_entry == Some(other),
                        j <= n,
                        any == (exists|q: int| 0 <= q < j && self.nested_in(c, &outer, &(#[trigger] list@[q]), soft)),
                        closed == (forall|q: int|
                            0 <= q < j && self.nested_in(c, &outer, &(#[trigger] list@[q]), soft) ==> list@[q].merge is Some),
                    decreases n - j,
                {
                    assert(branch_wf(self.cfg, &list@[j as int]));
                    if self.is_nested(c, &outer, other, &list[j], soft) {
                        any = true;
                        if list[j].merge.is_none() {
                            closed = false;
                            assert(self.nested_in(c, &outer, &list@[j as int], soft));
                        }
                        assert(self.nested_in(c, &outer, &list@[j as int], soft));
                    }
                    j = j + 1;
                }
                assert((any && closed) == self.closes_softly(list@, &list@[k as int]));
                if any && closed {
                    let mut j: usize = 0;
                    while j < n
                        invariant
                            self.wf(),
                            branches_wf(self.cfg, list@),
                            n == list@.len(),
                            k < n,
                            outer == list@[k as int],
                            c.wf(self.cfg),
                            0 <= l < self.loops@.len(),
                            *c == self.loops@[l as int],
                            outer.else_entry == Some(other),
                            self.cfg.has_block(soft),
                            self.escape_site(list@, &list@[k as int]) == Some((l as int, soft)),
                            self.closes_softly(list@, &list@[k as int]),
                            j <= n,
                            r@.len() == n,
                            forall|q: int| 0 <= q < j ==> #[trigger] r@[q] == self.softly_closed(list@, (k + 1) as nat, q),
                            forall|q: int| j <= q < n ==> #[trigger] r@[q] == self.softly_closed(list@, k as nat, q),
                            forall|q: int| 0 <= q < n ==> (#[trigger] r@[q]).header == list@[q].header && branch_wf(self.cfg, &r@[q]),
                        decreases n - j,
                    {
                        let b = list[j];
                        assert(branch_wf(self.cfg, &list@[j as int]));
                        if self.is_nested(c, &outer, other, &b, soft) && b.merge != Some(soft) {
                            r[j] = BranchCandidate {
                                header: b.header,
                                then_entry: b.then_entry,
                                else_entry: b.merge,
                                merge: Some(soft),
                                kind: BranchKind::IfElse,
                                invert_hint: b.invert_hint,
                            };
                        } else if j == k {
                            r[j] = BranchCandidate {
                                header: b.header,
                                then_entry: b.then_entry,
                                else_entry: b.else_entry,
                                merge: Some(soft),
                                kind: b.kind,
                                invert_hint: b.invert_hint,
                            };
                        }
                        j = j + 1;
                    }
                } else {
                    assert forall|j: int| 0 <= j < n implies #[trigger] r@[j] == self.softly_closed(list@, (k + 1) as nat, j) by {
                        assert(self.soft_rewrite(list@, k as int, j) is None);
                    }
                }
            } else {
                assert forall|j: int| 0 <= j < n implies #[trigger] r@[j] == self.softly_closed(list@, (k + 1) as nat, j) by {
                    assert(self.soft_rewrite(list@, k as int, j) is None);
                }
            }
            k = k + 1;
        }
        proof {
            assert(r@ =~= self.all_softly_closed(list@));
            assert forall|i: int, j: int| 0 <= i < j < r@.len() implies (#[trigger] r@[i]).header != (#[trigger] r@[j]).header by {
                assert(list@[i].header != list@[j].header);
            }
        }
        r
    }
}

/// A region that runs once: its header, the block that closes it, the only edge from there to
/// the exit.
#[derive(Debug, Clone, Copy, PartialEq, Eq, Structural)]
pub struct Fence {
    pub header: BlockRef,
    pub tail: BlockRef,
    pub tail_edge: EdgeRef,
    pub exit: BlockRef,
}

impl<'a> BranchIndex<'a> {
    /// The outermost of the first `n` branches that merge at `exit`, and whether two of them
    /// are unrelated.
    pub open spec fn outermost(&self, list: Seq<BranchCandidate>, exit: BlockRef, n: nat) -> (Option<int>, bool)
        decreases n,
    {
        if n == 0 {
            (None, false)
        } else {
            let (slot, unclear) = self.outermost(list, exit, (n - 1) as nat);
            let c = list[n - 1];
            if c.merge != Some(exit) {
                (slot, unclear)
            } else {
                match slot {
                    None => (Some(n - 1), unclear),
                    Some(current) => if self.graph.dom(c.header, list[current].header) {
                        (Some(n - 1), unclear)
                    } else if self.graph.dom(list[current].header, c.header) {
                        (slot, unclear)
                    } else {
                        (slot, true)
                    },
                }
            }
        }
    }

    /// A reachable source of an edge that the header dominates.
    pub open spec fn comes_from_below(&self, header: BlockRef, e: EdgeRef) -> bool {
        self.cfg.is_reachable(self.cfg.edge(e).from) && self.graph.dom(header, self.cfg.edge(e).from)
    }

    pub open spec fn below_at(&self, header: BlockRef, b: BlockRef) -> spec_fn(int) -> bool {
        |k: int| self.comes_from_below(header, self.cfg.in_edges(b)[k])
    }

    /// Edge `k` into the exit comes from a plain block below the header that several paths
    /// share and that goes nowhere else.
    pub open spec fn tail_at(&self, list: Seq<BranchCandidate>, header: BlockRef, exit: BlockRef) -> spec_fn(int) -> bool {
        |k: int|
            {
                let e = self.cfg.in_edges(exit)[k];
                let tail = self.cfg.edge(e).from;
                &&& self.comes_from_below(header, e)
                &&& branch_at(list, tail) is None
                &&& !heads_loop(self.loops@, tail)
                &&& self.cfg.out_edges(tail) == seq![e]
                &&& count_where(self.cfg.in_edges(tail).len(), self.below_at(header, tail)) >= 2
            }
    }

    /// The edges into the exit that do not come from the tail.
    pub open spec fn escapes(&self, f: Fence) -> Set<EdgeRef> {
        Set::new(
            |e: EdgeRef|
                self.cfg.has_edge(e) && self.cfg.edge(e).to == f.exit && self.cfg.edge(e).from != f.tail
                    && self.comes_from_below(f.header, e),
        )
    }

    /// Every escape edge's source satisfies `p`.
    pub open spec fn all_escapes(&self, f: Fence, p: spec_fn(BlockRef) -> bool) -> bool {
        forall|e: EdgeRef| #[trigger] self.escapes(f).contains(e) ==> p(self.cfg.edge(e).from)
    }

    /// Some escape lies below the block that immediately dominates the tail.
    pub open spec fn escapes_nested(&self, f: Fence) -> bool {
        match self.graph.dominator_tree.idom(f.tail) {
            Some(owner) => owner == f.header || exists|e: EdgeRef| #[trigger]
                self.escapes(f).contains(e) && self.graph.dom(owner, self.cfg.edge(e).from),
            None => false,
        }
    }

    /// The arm opposite to the one that has the tail, in an `if` with two arms that strictly
    /// merges at the exit.
    pub open spec fn opposite_arm(&self, c: &BranchCandidate, f: Fence) -> Option<BlockRef> {
        if c.else_entry is Some && c.kind == BranchKind::IfElse && c.merge == Some(f.exit) && self.graph.common_postdom(
            c.then_entry,
            c.else_entry->0,
        ) == Some(f.exit) {
            let t = self.graph.dom(c.then_entry, f.tail);
            let e = self.graph.dom(c.else_entry->0, f.tail);
            if t && !e {
                c.else_entry
            } else if !t && e {
                Some(c.then_entry)
            } else {
                None
            }
        } else {
            None
        }
    }

    pub open spec fn below(&self, d: BlockRef) -> spec_fn(BlockRef) -> bool {
        |b: BlockRef| self.graph.dom(d, b)
    }

    /// The tail lies in one arm and the escapes in the other: two ordinary ends of an `if`.
    pub open spec fn arms_part(&self, c: &BranchCandidate, f: Fence) -> bool {
        !self.graph.cyclic(c.header) && !self.graph.cyclic(f.tail) && match self.opposite_arm(c, f) {
            Some(arm) => self.escapes(f) != Set::<EdgeRef>::empty() && self.all_escapes(f, self.below(arm)),
            None => false,
        }
    }

    /// Incoming `k` of the phi comes along an escape edge.
    pub open spec fn by_escape(&self, phi: &PhiCandidate, f: Fence) -> spec_fn(int) -> bool {
        |k: int| phi.incoming@[k].edge is Some && self.escapes(f).contains(phi.incoming@[k].edge->0)
    }

    pub open spec fn by_tail(&self, phi: &PhiCandidate, f: Fence) -> spec_fn(int) -> bool {
        |k: int| phi.incoming@[k].edge == Some(f.tail_edge)
    }

    /// The phi takes one value from the tail and others from the escapes, which all lie in
    /// the opposite arm.
    pub open spec fn parts_values(&self, phi: &PhiCandidate, f: Fence, arm: BlockRef) -> bool {
        let n = phi.incoming@.len();
        match first_where(n, self.by_tail(phi, f)) {
            Some(t) => {
                &&& forall|k: int| 0 <= k < n && #[trigger] self.by_escape(phi, f)(k) ==> phi.incoming@[k].pred is Some && self.graph.dom(
                    arm,
                    phi.incoming@[k].pred->0,
                )
                &&& count_where(n, self.by_escape(phi, f)) == self.escapes(f).len()
                &&& exists|k: int| 0 <= k < n && #[trigger] self.by_escape(phi, f)(k) && phi.incoming@[k].value != phi.incoming@[t].value
            },
            None => false,
        }
    }

    /// A reachable predecessor of the exit that only `own` dominates.
    pub open spec fn arm_preds(&self, exit: BlockRef, own: BlockRef, other: BlockRef) -> Set<BlockRef> {
        Set::new(
            |b: BlockRef|
                self.cfg.is_reachable(b) && self.cfg.links(b, exit) && self.graph.dom(own, b) && !self.graph.dom(other, b),
        )
    }

    /// Every reachable predecessor of the exit lies in exactly one arm.
    pub open spec fn arms_cover(&self, exit: BlockRef, a: BlockRef, b: BlockRef) -> bool {
        forall|x: BlockRef| self.cfg.is_reachable(x) && #[trigger] self.cfg.links(x, exit) ==> self.graph.dom(a, x) != self.graph.dom(b, x)
    }

    /// The two arms of the branch merge values at the exit: the branch ends there, whatever
    /// its shape.
    pub open spec fn merges_values(&self, dataflow: &DataflowFacts, c: &BranchCandidate, f: Fence) -> bool {
        match self.opposite_arm(c, f) {
            Some(arm) => (exists|k: int|
                0 <= k < dataflow.phis_in(f.exit).len() && self.parts_values(&(#[trigger] dataflow.phis_in(f.exit)[k]), f, arm)) || {
                let t = self.arm_preds(f.exit, c.then_entry, c.else_entry->0);
                let e = self.arm_preds(f.exit, c.else_entry->0, c.then_entry);
                &&& !self.graph.cyclic(c.header)
                &&& !self.graph.cyclic(f.tail)
                &&& self.arms_cover(f.exit, c.then_entry, c.else_entry->0)
                &&& t != Set::<BlockRef>::empty()
                &&& e != Set::<BlockRef>::empty()
                &&& merge_count(
                    &(BranchValueMergeContext { header: c.header, graph_facts: self.graph, dataflow }),
                    f.exit,
                    (ArmPreds { then_preds: t, else_preds: e, ignored: Set::empty() }),
                    Set::empty(),
                ) > 0
            },
            None => false,
        }
    }

    pub open spec fn before_exit(&self, c: &LoopCandidate, exit: BlockRef) -> spec_fn(BlockRef) -> bool {
        |b: BlockRef| self.graph.dom(c.header, b) && !self.graph.dom(exit, b)
    }

    /// The exit leaves a loop that holds the whole region.
    pub open spec fn leaves_loop(&self, f: Fence) -> bool {
        exists|i: int|
            0 <= i < self.loops@.len() && (#[trigger] self.loops@[i]).exits@.contains(f.exit) && self.before_exit(
                &self.loops@[i],
                f.exit,
            )(f.header) && self.before_exit(&self.loops@[i], f.exit)(f.tail) && self.all_escapes(
                f,
                self.before_exit(&self.loops@[i], f.exit),
            )
    }

    /// The block belongs to the region: it is the tail, or lies below the header but not below
    /// the tail or the exit.
    pub open spec fn fenced(&self, f: Fence) -> spec_fn(BlockRef) -> bool {
        |b: BlockRef|
            b != self.cfg.exit_block && self.cfg.is_reachable(b) && (b == f.tail || (self.graph.dom(f.header, b) && !self.graph.dom(
                f.tail,
                b,
            ) && !self.graph.dom(f.exit, b)))
    }

    /// Every reachable predecessor of the tail belongs to the region.
    pub open spec fn tail_internal(&self, f: Fence) -> bool {
        forall|x: BlockRef| self.cfg.is_reachable(x) && #[trigger] self.cfg.links(x, f.tail) ==> self.fenced(f)(x)
    }

    /// Where the exit heads a loop, that loop holds the header and the tail.
    pub open spec fn loop_holds_fence(&self, f: Fence) -> bool {
        heads_loop(self.loops@, f.exit) ==> exists|i: int|
            0 <= i < self.loops@.len() && (#[trigger] self.loops@[i]).header == f.exit && self.loops@[i].blocks@.contains(f.header)
                && self.loops@[i].blocks@.contains(f.tail)
    }

    /// The tail candidate of an exit: the outermost branch that merges there, and the one
    /// shared plain block before the exit.
    pub open spec fn fence_candidate(&self, list: Seq<BranchCandidate>, exit: BlockRef) -> Option<Fence> {
        let (slot, unclear) = self.outermost(list, exit, list.len());
        if slot is Some && !unclear && exit != self.cfg.exit_block {
            let header = list[slot->0].header;
            match only_where(self.cfg.in_edges(exit).len(), self.tail_at(list, header, exit)) {
                Some(k) => {
                    let e = self.cfg.in_edges(exit)[k];
                    Some(Fence { header, tail: self.cfg.edge(e).from, tail_edge: e, exit })
                },
                None => None,
            }
        } else {
            None
        }
    }

    /// The candidate is a region that runs once, and no ordinary branch.
    pub open spec fn is_fence(&self, dataflow: &DataflowFacts, c: &BranchCandidate, f: Fence) -> bool {
        &&& self.loop_holds_fence(f)
        &&& self.escapes(f) != Set::<EdgeRef>::empty()
        &&& self.escapes_nested(f)
        &&& !self.arms_part(c, f)
        &&& !self.merges_values(dataflow, c, f)
        &&& !self.leaves_loop(f)
        &&& self.fenced(f)(f.header)
        &&& self.tail_internal(f)
        &&& self.all_escapes(f, self.fenced(f))
    }

    /// The region that runs once and is left at `exit`.
    pub open spec fn fence_at(&self, dataflow: &DataflowFacts, list: Seq<BranchCandidate>, exit: BlockRef) -> Option<Fence> {
        match self.fence_candidate(list, exit) {
            Some(f) => match branch_at(list, f.header) {
                Some(c) => if self.is_fence(dataflow, &c, f) {
                    Some(f)
                } else {
                    None
                },
                None => None,
            },
            None => None,
        }
    }

    /// A branch inside such a region that merges at its exit merges at its tail.
    pub open spec fn fence_refined(&self, dataflow: &DataflowFacts, list: Seq<BranchCandidate>, j: int) -> BranchCandidate {
        match list[j].merge {
            Some(exit) => match self.fence_at(dataflow, list, exit) {
                Some(f) => if self.graph.dom(f.header, list[j].header) {
                    BranchCandidate { merge: Some(f.tail), ..list[j] }
                } else {
                    list[j]
                },
                None => list[j],
            },
            None => list[j],
        }
    }

    pub open spec fn all_fence_refined(&self, dataflow: &DataflowFacts, list: Seq<BranchCandidate>) -> Seq<BranchCandidate> {
        Seq::new(list.len(), |j: int| self.fence_refined(dataflow, list, j))
    }

    fn find_outermost(&self, list: &Vec<BranchCandidate>, exit: BlockRef) -> (r: (Option<usize>, bool))
        ensures
            ({
                let (slot, unclear) = self.outermost(list@, exit, list@.len());
                r.1 == unclear && match slot {
                    Some(k) => 0 <= k < list@.len() && r.0 is Some && (r.0->0) as int == k,
                    None => r.0 is None,
                }
            }),
    {
        let n = list.len();
        let mut slot: Option<usize> = None;
        let mut unclear = false;
        let mut i: usize = 0;
        while i < n
            invariant
                n == list@.len(),
                i <= n,
                ({
                    let (want, doubt) = self.outermost(list@, exit, i as nat);
                    unclear == doubt && match want {
                        Some(k) => 0 <= k < i && slot is Some && (slot->0) as int == k,
                        None => slot is None,
                    }
                }),
            decreases n - i,
        {
            let c = &list[i];
            if c.merge == Some(exit) {
                match slot {
                    None => {
                        slot = Some(i);
                    },
                    Some(current) => {
                        if self.graph.dominates(c.header, list[current].header) {
                            slot = Some(i);
                        } else if !self.graph.dominates(list[current].header, c.header) {
                            unclear = true;
                        }
                    },
                }
            }
            i = i + 1;
        }
        (slot, unclear)
    }

    fn count_below(&self, header: BlockRef, b: BlockRef) -> (r: usize)
        requires
            self.wf(),
            self.cfg.has_block(b),
        ensures
            r == count_where(self.cfg.in_edges(b).len(), self.below_at(header, b)),
    {
        let n = self.cfg.preds[b.0].len();
        let ghost p = self.below_at(header, b);
        let mut count: usize = 0;
        let mut i: usize = 0;
        while i < n
            invariant
                self.wf(),
                self.cfg.has_block(b),
                n == self.cfg.in_edges(b).len(),
                p == self.below_at(header, b),
                i <= n,
                count == count_where(i as nat, p),
                count <= i,
            decreases n - i,
        {
            let e = self.cfg.preds[b.0][i];
            assert(e == self.cfg.in_edges(b)[i as int]);
            assert(self.cfg.has_edge(e));
            let from = self.cfg.edges[e.0].from;
            let hit = self.cfg.reachable_blocks.contains(from) && self.graph.dominates(header, from);
            assert(p(i as int) == hit);
            if hit {
                count = count + 1;
            }
            i = i + 1;
        }
        count
    }

    fn is_tail(&self, list: &Vec<BranchCandidate>, header: BlockRef, exit: BlockRef, k: usize) -> (r: bool)
        requires
            self.wf(),
            self.cfg.has_block(exit),
            k < self.cfg.in_edges(exit).len(),
        ensures
            r == self.tail_at(list@, header, exit)(k as int),
    {
        let e = self.cfg.preds[exit.0][k];
        assert(e == self.cfg.in_edges(exit)[k as int]);
        assert(self.cfg.has_edge(e));
        let tail = self.cfg.edges[e.0].from;
        if !self.cfg.reachable_blocks.contains(tail) || !self.graph.dominates(header, tail) {
            return false;
        }
        if find_branch(list, tail).is_some() || self.loop_headers.contains(tail) {
            return false;
        }
        if self.cfg.succs[tail.0].len() != 1 || self.cfg.succs[tail.0][0] != e {
            proof {
                if self.cfg.out_edges(tail) == seq![e] {
                    assert(self.cfg.out_edges(tail)[0] == e);
                }
            }
            return false;
        }
        assert(self.cfg.out_edges(tail) =~= seq![e]);
        self.count_below(header, tail) >= 2
    }

    fn find_fence_candidate(&self, list: &Vec<BranchCandidate>, exit: BlockRef) -> (r: Option<Fence>)
        requires
            self.wf(),
            branches_wf(self.cfg, list@),
            self.cfg.has_block(exit),
        ensures
            r == self.fence_candidate(list@, exit),
            r is Some ==> {
                let f = r->0;
                &&& f.exit == exit
                &&& self.cfg.has_block(f.header)
                &&& self.cfg.has_block(f.tail)
                &&& branch_at(list@, f.header) is Some
            },
    {
        if exit == self.cfg.exit_block {
            return None;
        }
        let (slot, unclear) = self.find_outermost(list, exit);
        let at = match slot {
            None => {
                return None;
            },
            Some(at) => at,
        };
        if unclear {
            return None;
        }
        let header = list[at].header;
        proof {
            assert(branch_wf(self.cfg, &list@[at as int]));
            first_where_least(list@.len(), headed_by(list@, header));
            assert(headed_by(list@, header)(at as int));
        }
        let n = self.cfg.preds[exit.0].len();
        let ghost p = self.tail_at(list@, header, exit);
        let mut found: Option<usize> = None;
        let mut i: usize = 0;
        while i < n
            invariant
                self.wf(),
                self.cfg.has_block(exit),
                exit != self.cfg.exit_block,
                n == self.cfg.in_edges(exit).len(),
                at < list@.len(),
                header == list@[at as int].header,
                self.outermost(list@, exit, list@.len()) == (Some(at as int), false),
                p == self.tail_at(list@, header, exit),
                i <= n,
                match found {
                    None => count_where(i as nat, p) == 0 && first_where(i as nat, p) is None,
                    Some(k) => count_where(i as nat, p) == 1 && first_where(i as nat, p) == Some(k as int) && k < i,
                },
            decreases n - i,
        {
            if self.is_tail(list, header, exit, i) {
                if found.is_some() {
                    proof {
                        count_where_monotone((i + 1) as nat, n as nat, p);
                    }
                    return None;
                }
                found = Some(i);
            }
            i = i + 1;
        }
        match found {
            None => None,
            Some(k) => {
                let e = self.cfg.preds[exit.0][k];
                assert(e == self.cfg.in_edges(exit)[k as int]);
                assert(self.cfg.has_edge(e));
                Some(Fence { header, tail: self.cfg.edges[e.0].from, tail_edge: e, exit })
            },
        }
    }

    fn collect_escapes(&self, f: Fence) -> (r: IdSet<EdgeRef>)
        requires
            self.wf(),
            self.cfg.has_block(f.exit),
        ensures
            r@ == self.escapes(f),
    {
        let n = self.cfg.preds[f.exit.0].len();
        let mut r: IdSet<EdgeRef> = IdSet::new();
        let mut i: usize = 0;
        while i < n
            invariant
                self.wf(),
                self.cfg.has_block(f.exit),
                n == self.cfg.in_edges(f.exit).len(),
                i <= n,
                forall|e: EdgeRef| #[trigger] r@.contains(e) ==> self.escapes(f).contains(e),
                forall|k: int| 0 <= k < i && self.escapes(f).contains(#[trigger] self.cfg.in_edges(f.exit)[k]) ==> r@.contains(
                    self.cfg.in_edges(f.exit)[k],
                ),
            decreases n - i,
        {
            let e = self.cfg.preds[f.exit.0][i];
            assert(e == self.cfg.in_edges(f.exit)[i as int]);
            assert(self.cfg.has_edge(e));
            let from = self.cfg.edges[e.0].from;
            if from != f.tail && self.cfg.reachable_blocks.contains(from) && self.graph.dominates(f.header, from) {
                r.insert(e);
            }
            i = i + 1;
        }
        proof {
            assert forall|e: EdgeRef| r@.contains(e) <==> self.escapes(f).contains(e) by {
                if self.escapes(f).contains(e) {
                    assert(self.cfg.has_edge(e));
                    let k = choose|k: int| 0 <= k < self.cfg.in_edges(f.exit).len() && self.cfg.in_edges(f.exit)[k] == e;
                    assert(self.escapes(f).contains(self.cfg.in_edges(f.exit)[k]));
                }
            }
            assert(r@ =~= self.escapes(f));
        }
        r
    }
}

impl<'a> BranchIndex<'a> {
    /// Whether every escape's source lies below `d`.
    fn escapes_below(&self, f: Fence, edges: &IdSet<EdgeRef>, d: BlockRef) -> (r: bool)
        requires
            edges@ == self.escapes(f),
        ensures
            r == self.all_escapes(f, self.below(d)),
    {
        let n = edges.len();
        let ghost p = self.below(d);
        let mut i: usize = 0;
        while i < n
            invariant
                edges@ == self.escapes(f),
                n == edges.seq().len(),
                p == self.below(d),
                i <= n,
                forall|k: int| 0 <= k < i ==> p(self.cfg.edge(#[trigger] edges.seq()[k]).from),
            decreases n - i,
        {
            let e = edges.at(i);
            if !self.graph.dominates(d, self.cfg.edges[e.0].from) {
                assert(!p(self.cfg.edge(e).from));
                return false;
            }
            i = i + 1;
        }
        proof {
            assert forall|e: EdgeRef| #[trigger] self.escapes(f).contains(e) implies p(self.cfg.edge(e).from) by {
                let k = choose|k: int| 0 <= k < edges.seq().len() && edges.seq()[k] == e;
                assert(p(self.cfg.edge(edges.seq()[k]).from));
            }
        }
        true
    }

    fn has_nested_escape(&self, f: Fence, edges: &IdSet<EdgeRef>) -> (r: bool)
        requires
            edges@ == self.escapes(f),
        ensures
            r == self.escapes_nested(f),
    {
        let owner = match self.graph.dominator_tree.parent(f.tail) {
            None => {
                return false;
            },
            Some(o) => o,
        };
        if owner == f.header {
            return true;
        }
        let n = edges.len();
        let mut i: usize = 0;
        while i < n
            invariant
                edges@ == self.escapes(f),
                n == edges.seq().len(),
                i <= n,
                owner != f.header,
                self.graph.dominator_tree.idom(f.tail) == Some(owner),
                forall|k: int| 0 <= k < i ==> !self.graph.dom(owner, self.cfg.edge(#[trigger] edges.seq()[k]).from),
            decreases n - i,
        {
            let e = edges.at(i);
            assert(self.escapes(f).contains(e));
            if self.graph.dominates(owner, self.cfg.edges[e.0].from) {
                return true;
            }
            i = i + 1;
        }
        proof {
            assert forall|e: EdgeRef| #[trigger] self.escapes(f).contains(e) implies !self.graph.dom(owner, self.cfg.edge(e).from) by {
                let k = choose|k: int| 0 <= k < edges.seq().len() && edges.seq()[k] == e;
                assert(!self.graph.dom(owner, self.cfg.edge(edges.seq()[k]).from));
            }
        }
        false
    }

    pub fn opposite_if_else_arm_for_owned_tail(&self, c: &BranchCandidate, f: Fence) -> (r: Option<BlockRef>)
        requires
            self.wf(),
        ensures
            r == self.opposite_arm(c, f),
    {
        let other = match c.else_entry {
            None => {
                return None;
            },
            Some(o) => o,
        };
        let is_if_else = match c.kind {
            BranchKind::IfElse => true,
            _ => false,
        };
        if !is_if_else || c.merge != Some(f.exit) || self.graph.nearest_common_postdom(c.then_entry, other) != Some(f.exit) {
            return None;
        }
        let t = self.graph.dominates(c.then_entry, f.tail);
        let e = self.graph.dominates(other, f.tail);
        if t && !e {
            Some(other)
        } else if !t && e {
            Some(c.then_entry)
        } else {
            None
        }
    }

    pub fn closed_if_else_partitions_tail_and_escapes(
        &self,
        c: &BranchCandidate,
        f: Fence,
        edges: &IdSet<EdgeRef>,
    ) -> (r: bool)
        requires
            self.wf(),
            edges@ == self.escapes(f),
        ensures
            r == self.arms_part(c, f),
    {
        if self.graph.block_is_cyclic(c.header) || self.graph.block_is_cyclic(f.tail) {
            return false;
        }
        match self.opposite_if_else_arm_for_owned_tail(c, f) {
            None => false,
            Some(arm) => !edges.is_empty() && self.escapes_below(f, edges, arm),
        }
    }

    fn phi_parts_values(&self, phi: &PhiCandidate, f: Fence, edges: &IdSet<EdgeRef>, arm: BlockRef) -> (r: bool)
        requires
            edges@ == self.escapes(f),
        ensures
            r == self.parts_values(phi, f, arm),
    {
        let n = phi.incoming.len();
        let ghost by_tail = self.by_tail(phi, f);
        let ghost by_escape = self.by_escape(phi, f);
        let mut tail: Option<usize> = None;
        let mut i: usize = 0;
        while i < n && tail.is_none()
            invariant
                n == phi.incoming@.len(),
                by_tail == self.by_tail(phi, f),
                i <= n,
                match tail {
                    None => first_where(i as nat, by_tail) is None,
                    Some(t) => first_where(n as nat, by_tail) == Some(t as int) && t < n,
                },
            decreases n - i,
        {
            if phi.incoming[i].edge == Some(f.tail_edge) {
                proof {
                    assert(by_tail(i as int));
                    assert(first_where((i + 1) as nat, by_tail) == Some(i as int));
                    first_where_stable((i + 1) as nat, n as nat, by_tail);
                }
                tail = Some(i);
            }
            i = i + 1;
        }
        let t = match tail {
            None => {
                return false;
            },
            Some(t) => t,
        };
        let mut covered: usize = 0;
        let mut differs = false;
        let mut k: usize = 0;
        while k < n
            invariant
                edges@ == self.escapes(f),
                n == phi.incoming@.len(),
                by_tail == self.by_tail(phi, f),
                by_escape == self.by_escape(phi, f),
                first_where(n as nat, by_tail) == Some(t as int),
                t < n,
                k <= n,
                covered == count_where(k as nat, by_escape),
                covered <= k,
                differs == (exists|j: int| 0 <= j < k && #[trigger] by_escape(j) && phi.incoming@[j].value != phi.incoming@[t as int].value),
                forall|j: int| 0 <= j < k && #[trigger] by_escape(j) ==> phi.incoming@[j].pred is Some && self.graph.dom(
                    arm,
                    phi.incoming@[j].pred->0,
                ),
            decreases n - k,
        {
            let incoming = phi.incoming[k];
            let hit = match incoming.edge {
                Some(e) => edges.contains(e),
                None => false,
            };
            assert(by_escape(k as int) == hit);
            if hit {
                let inside = match incoming.pred {
                    Some(p) => self.graph.dominates(arm, p),
                    None => false,
                };
                if !inside {
                    assert(by_escape(k as int));
                    return false;
                }
                covered = covered + 1;
                if incoming.value != phi.incoming[t].value {
                    assert(by_escape(k as int));
                    differs = true;
                }
            }
            k = k + 1;
        }
        covered == edges.len() && differs
    }

    /// Collects the reachable predecessors of the exit in the two arms; nothing when one lies
    /// in both or in neither.
    fn split_preds(&self, exit: BlockRef, a: BlockRef, b: BlockRef) -> (r: Option<(IdSet<BlockRef>, IdSet<BlockRef>)>)
        requires
            self.wf(),
            self.cfg.has_block(exit),
        ensures
            match r {
                Some((t, e)) => self.arms_cover(exit, a, b) && t@ == self.arm_preds(exit, a, b) && e@ == self.arm_preds(exit, b, a),
                None => !self.arms_cover(exit, a, b),
            },
    {
        let mut t: IdSet<BlockRef> = IdSet::new();
        let mut e: IdSet<BlockRef> = IdSet::new();
        let list = self.cfg.reachable_predecessors(exit);
        let n = list.len();
        let mut i: usize = 0;
        while i < n
            invariant
                n == list@.len(),
                i <= n,
                list@.to_set() == self.cfg.linked_to(exit),
                forall|x: BlockRef| #[trigger] t@.contains(x) ==> self.arm_preds(exit, a, b).contains(x),
                forall|x: BlockRef| #[trigger] e@.contains(x) ==> self.arm_preds(exit, b, a).contains(x),
                forall|k: int| 0 <= k < i ==> {
                    let x = #[trigger] list@[k];
                    &&& self.graph.dom(a, x) != self.graph.dom(b, x)
                    &&& self.graph.dom(a, x) ==> t@.contains(x)
                    &&& self.graph.dom(b, x) ==> e@.contains(x)
                },
            decreases n - i,
        {
            let x = list[i];
            assert(list@.to_set().contains(x));
            assert(self.cfg.linked_to(exit).contains(x));
            let in_a = self.graph.dominates(a, x);
            let in_b = self.graph.dominates(b, x);
            if in_a == in_b {
                assert(self.cfg.is_reachable(x) && self.cfg.links(x, exit));
                return None;
            }
            if in_a {
                t.insert(x);
            } else {
                e.insert(x);
            }
            i = i + 1;
        }
        proof {
            assert forall|x: BlockRef| self.cfg.is_reachable(x) && #[trigger] self.cfg.links(x, exit) implies list@.contains(x) by {
                assert(self.cfg.linked_to(exit).contains(x));
                assert(list@.to_set().contains(x));
            }
            assert forall|x: BlockRef| self.cfg.is_reachable(x) && #[trigger] self.cfg.links(x, exit) implies self.graph.dom(a, x)
                != self.graph.dom(b, x) by {
                let k = choose|k: int| 0 <= k < list@.len() && list@[k] == x;
                assert(list@[k] == x);
            }
            assert forall|x: BlockRef| t@.contains(x) <==> self.arm_preds(exit, a, b).contains(x) by {
                if self.arm_preds(exit, a, b).contains(x) {
                    let k = choose|k: int| 0 <= k < list@.len() && list@[k] == x;
                    assert(list@[k] == x);
                }
            }
            assert forall|x: BlockRef| e@.contains(x) <==> self.arm_preds(exit, b, a).contains(x) by {
                if self.arm_preds(exit, b, a).contains(x) {
                    let k = choose|k: int| 0 <= k < list@.len() && list@[k] == x;
                    assert(list@[k] == x);
                }
            }
            assert(t@ =~= self.arm_preds(exit, a, b));
            assert(e@ =~= self.arm_preds(exit, b, a));
        }
        Some((t, e))
    }

    pub fn closed_if_else_owns_value_result(
        &self,
        dataflow: &DataflowFacts,
        c: &BranchCandidate,
        f: Fence,
        edges: &IdSet<EdgeRef>,
    ) -> (r: bool)
        requires
            self.wf(),
            defs_known(dataflow),
            self.cfg.has_block(f.exit),
            edges@ == self.escapes(f),
        ensures
            r == self.merges_values(dataflow, c, f),
    {
        let arm = match self.opposite_if_else_arm_for_owned_tail(c, f) {
            None => {
                return false;
            },
            Some(arm) => arm,
        };
        let other = c.else_entry.unwrap();
        let phis = dataflow.phi_candidates_in_block(f.exit);
        let n = phis.len();
        let mut i: usize = 0;
        while i < n
            invariant
                edges@ == self.escapes(f),
                phis@ == dataflow.phis_in(f.exit),
                n == phis@.len(),
                i <= n,
                self.opposite_arm(c, f) == Some(arm),
                forall|k: int| 0 <= k < i ==> !self.parts_values(&(#[trigger] dataflow.phis_in(f.exit)[k]), f, arm),
            decreases n - i,
        {
            if self.phi_parts_values(&phis[i], f, edges, arm) {
                assert(self.parts_values(&dataflow.phis_in(f.exit)[i as int], f, arm));
                return true;
            }
            i = i + 1;
        }
        if self.graph.block_is_cyclic(c.header) || self.graph.block_is_cyclic(f.tail) {
            return false;
        }
        match self.split_preds(f.exit, c.then_entry, other) {
            None => false,
            Some((t, e)) => {
                if t.is_empty() || e.is_empty() {
                    return false;
                }
                let ctx = BranchValueMergeContext::new(c.header, self.graph, dataflow);
                let nobody: IdSet<BlockRef> = IdSet::new();
                let nothing: IdSet<Reg> = IdSet::new();
                let merges = branch_value_merges_in_block(&ctx, f.exit, &t, &e, &nobody, &nothing);
                merges.len() > 0
            },
        }
    }

    fn is_before_exit(&self, c: &LoopCandidate, exit: BlockRef, b: BlockRef) -> (r: bool)
        ensures
            r == self.before_exit(c, exit)(b),
    {
        self.graph.dominates(c.header, b) && !self.graph.dominates(exit, b)
    }

    fn fence_leaves_loop(&self, f: Fence, edges: &IdSet<EdgeRef>) -> (r: bool)
        requires
            self.wf(),
            edges@ == self.escapes(f),
        ensures
            r == self.leaves_loop(f),
    {
        let total = self.loops.len();
        let n = edges.len();
        let mut i: usize = 0;
        while i < total
            invariant
                self.wf(),
                edges@ == self.escapes(f),
                n == edges.seq().len(),
                total == self.loops@.len(),
                i <= total,
                forall|j: int|
                    0 <= j < i ==> !((#[trigger] self.loops@[j]).exits@.contains(f.exit) && self.before_exit(
                        &self.loops@[j],
                        f.exit,
                    )(f.header) && self.before_exit(&self.loops@[j], f.exit)(f.tail) && self.all_escapes(
                        f,
                        self.before_exit(&self.loops@[j], f.exit),
                    )),
            decreases total - i,
        {
            let c = &self.loops[i];
            if c.exits.contains(f.exit) && self.is_before_exit(c, f.exit, f.header) && self.is_before_exit(c, f.exit, f.tail) {
                let ghost p = self.before_exit(c, f.exit);
                let mut all = true;
                let mut k: usize = 0;
                while k < n
                    invariant
                        edges@ == self.escapes(f),
                        n == edges.seq().len(),
                        p == self.before_exit(c, f.exit),
                        k <= n,
                        all == (forall|q: int| 0 <= q < k ==> p(self.cfg.edge(#[trigger] edges.seq()[q]).from)),
                    decreases n - k,
                {
                    let e = edges.at(k);
                    assert(self.escapes(f).contains(e));
                    if !self.is_before_exit(c, f.exit, self.cfg.edges[e.0].from) {
                        assert(!p(self.cfg.edge(edges.seq()[k as int]).from));
                        all = false;
                    }
                    k = k + 1;
                }
                proof {
                    assert(all == self.all_escapes(f, p)) by {
                        if all {
                            assert forall|e: EdgeRef| #[trigger] self.escapes(f).contains(e) implies p(self.cfg.edge(e).from) by {
                                let q = choose|q: int| 0 <= q < edges.seq().len() && edges.seq()[q] == e;
                                assert(p(self.cfg.edge(edges.seq()[q]).from));
                            }
                        } else {
                            let q = choose|q: int| 0 <= q < n && !p(self.cfg.edge(#[trigger] edges.seq()[q]).from);
                            assert(edges@.contains(edges.seq()[q]));
                            assert(self.escapes(f).contains(edges.seq()[q]));
                        }
                    }
                }
                if all {
                    return true;
                }
            }
            i = i + 1;
        }
        false
    }

    fn is_fenced(&self, f: Fence, b: BlockRef) -> (r: bool)
        ensures
            r == self.fenced(f)(b),
    {
        b != self.cfg.exit_block && self.cfg.reachable_blocks.contains(b) && (b == f.tail || (self.graph.dominates(f.header, b)
            && !self.graph.dominates(f.tail, b) && !self.graph.dominates(f.exit, b)))
    }

    fn tail_is_internal(&self, f: Fence) -> (r: bool)
        requires
            self.wf(),
            self.cfg.has_block(f.tail),
        ensures
            r == self.tail_internal(f),
    {
        let list = self.cfg.reachable_predecessors(f.tail);
        let n = list.len();
        let mut i: usize = 0;
        while i < n
            invariant
                n == list@.len(),
                i <= n,
                list@.to_set() == self.cfg.linked_to(f.tail),
                forall|k: int| 0 <= k < i ==> self.fenced(f)(#[trigger] list@[k]),
            decreases n - i,
        {
            let x = list[i];
            assert(list@.to_set().contains(x));
            assert(self.cfg.linked_to(f.tail).contains(x));
            if !self.is_fenced(f, x) {
                assert(self.cfg.is_reachable(x) && self.cfg.links(x, f.tail));
                return false;
            }
            i = i + 1;
        }
        proof {
            assert forall|x: BlockRef| self.cfg.is_reachable(x) && #[trigger] self.cfg.links(x, f.tail) implies self.fenced(f)(x) by {
                assert(self.cfg.linked_to(f.tail).contains(x));
                assert(list@.to_set().contains(x));
                let k = choose|k: int| 0 <= k < list@.len() && list@[k] == x;
                assert(self.fenced(f)(list@[k]));
            }
        }
        true
    }

    fn escapes_are_internal(&self, f: Fence, edges: &IdSet<EdgeRef>) -> (r: bool)
        requires
            edges@ == self.escapes(f),
        ensures
            r == self.all_escapes(f, self.fenced(f)),
    {
        let n = edges.len();
        let ghost p = self.fenced(f);
        let mut i: usize = 0;
        while i < n
            invariant
                edges@ == self.escapes(f),
                n == edges.seq().len(),
                p == self.fenced(f),
                i <= n,
                forall|k: int| 0 <= k < i ==> p(self.cfg.edge(#[trigger] edges.seq()[k]).from),
            decreases n - i,
        {
            let e = edges.at(i);
            if !self.is_fenced(f, self.cfg.edges[e.0].from) {
                assert(!p(self.cfg.edge(e).from));
                return false;
            }
            i = i + 1;
        }
        proof {
            assert forall|e: EdgeRef| #[trigger] self.escapes(f).contains(e) implies p(self.cfg.edge(e).from) by {
                let k = choose|k: int| 0 <= k < edges.seq().len() && edges.seq()[k] == e;
                assert(p(self.cfg.edge(edges.seq()[k]).from));
            }
        }
        true
    }

    fn held_by_loop(&self, f: Fence) -> (r: bool)
        requires
            self.wf(),
        ensures
            r == self.loop_holds_fence(f),
    {
        if !self.loop_headers.contains(f.exit) {
            return true;
        }
        let n = self.loops.len();
        let mut i: usize = 0;
        while i < n
            invariant
                n == self.loops@.len(),
                i <= n,
                heads_loop(self.loops@, f.exit),
                forall|j: int|
                    0 <= j < i ==> !((#[trigger] self.loops@[j]).header == f.exit && self.loops@[j].blocks@.contains(f.header)
                        && self.loops@[j].blocks@.contains(f.tail)),
            decreases n - i,
        {
            let c = &self.loops[i];
            if c.header == f.exit && c.blocks.contains(f.header) && c.blocks.contains(f.tail) {
                assert(self.loops@[i as int].header == f.exit);
                return true;
            }
            i = i + 1;
        }
        false
    }

    /// The region that runs once and is left at `exit`, with the edges by which it is left
    /// early.
    pub fn find_fence(
        &self,
        dataflow: &DataflowFacts,
        list: &Vec<BranchCandidate>,
        exit: BlockRef,
    ) -> (r: Option<(Fence, IdSet<EdgeRef>)>)
        requires
            self.wf(),
            defs_known(dataflow),
            branches_wf(self.cfg, list@),
            self.cfg.has_block(exit),
        ensures
            match r {
                Some((f, edges)) => self.fence_at(dataflow, list@, exit) == Some(f) && edges@ == self.escapes(f) && f.exit
                    == exit && self.cfg.has_block(f.header) && self.cfg.has_block(f.tail),
                None => self.fence_at(dataflow, list@, exit) is None,
            },
    {
        let f = match self.find_fence_candidate(list, exit) {
            None => {
                return None;
            },
            Some(f) => f,
        };
        let c = match find_branch(list, f.header) {
            None => {
                return None;
            },
            Some(c) => c,
        };
        if !self.held_by_loop(f) {
            return None;
        }
        let edges = self.collect_escapes(f);
        if edges.is_empty() || !self.has_nested_escape(f, &edges) || self.closed_if_else_partitions_tail_and_escapes(&c, f, &edges)
            || self.closed_if_else_owns_value_result(dataflow, &c, f, &edges) || self.fence_leaves_loop(f, &edges) {
            return None;
        }
        if !self.is_fenced(f, f.header) || !self.tail_is_internal(f) || !self.escapes_are_internal(f, &edges) {
            return None;
        }
        Some((f, edges))
    }
}

/// The fences by header: block `b` has one exactly when it heads a region that runs once.
pub open spec fn fences_listed(
    index: &BranchIndex,
    dataflow: &DataflowFacts,
    list: Seq<BranchCandidate>,
    fences: Seq<Option<SinglePassFenceFact>>,
) -> bool {
    &&& fences.len() == index.cfg.blocks@.len()
    &&& forall|b: BlockRef| index.cfg.has_block(b) ==> match #[trigger] fences[b.0 as int] {
        Some(fact) => {
            &&& index.cfg.has_block(fact.exit)
            &&& index.fence_at(dataflow, list, fact.exit) is Some
            &&& (index.fence_at(dataflow, list, fact.exit)->0).header == b
            &&& fact.escape_edges@ == index.escapes(index.fence_at(dataflow, list, fact.exit)->0)
        },
        None => forall|exit: BlockRef| #[trigger]
            index.cfg.has_block(exit) ==> match index.fence_at(dataflow, list, exit) {
                Some(f) => f.header != b,
                None => true,
            },
    }
}

/// Moves merges into regions that run once, and lists those regions.
pub fn refine_single_pass_fences(index: &BranchIndex, dataflow: &DataflowFacts, list: &Vec<BranchCandidate>) -> (r: (
    Vec<BranchCandidate>,
    Vec<Option<SinglePassFenceFact>>,
))
    requires
        index.wf(),
        defs_known(dataflow),
        branches_wf(index.cfg, list@),
    ensures
        r.0@ == index.all_fence_refined(dataflow, list@),
        branches_wf(index.cfg, r.0@),
        fences_listed(index, dataflow, list@, r.1@),
{
    let n = index.cfg.blocks.len();
    let mut by_exit: Vec<Option<Fence>> = Vec::new();
    let mut facts: Vec<Option<SinglePassFenceFact>> = Vec::new();
    let mut i: usize = 0;
    while i < n
        invariant
            i <= n,
            facts@.len() == i,
            forall|k: int| 0 <= k < i ==> (#[trigger] facts@[k]) is None,
        decreases n - i,
    {
        facts.push(None);
        i = i + 1;
    }
    let mut b: usize = 0;
    while b < n
        invariant
            index.wf(),
            defs_known(dataflow),
            branches_wf(index.cfg, list@),
            n == index.cfg.blocks@.len(),
            b <= n,
            by_exit@.len() == b,
            facts@.len() == n,
            forall|k: BlockRef| k.0 < b ==> #[trigger] by_exit@[k.0 as int] == index.fence_at(dataflow, list@, k) && match by_exit@[k.0 as int] {
                Some(f) => index.cfg.has_block(f.tail),
                None => true,
            },
            forall|h: BlockRef| h.0 < n ==> match #[trigger] facts@[h.0 as int] {
                Some(fact) => {
                    &&& index.cfg.has_block(fact.exit)
                    &&& index.fence_at(dataflow, list@, fact.exit) is Some
                    &&& (index.fence_at(dataflow, list@, fact.exit)->0).header == h
                    &&& fact.escape_edges@ == index.escapes(index.fence_at(dataflow, list@, fact.exit)->0)
                },
                None => forall|exit: BlockRef| #[trigger]
                    index.cfg.has_block(exit) && exit.0 < b ==> match index.fence_at(dataflow, list@, exit) {
                        Some(f) => f.header != h,
                        None => true,
                    },
            },
        decreases n - b,
    {
        let exit = BlockRef(b);
        let found = index.find_fence(dataflow, list, exit);
        match found {
            None => {
                by_exit.push(None);
            },
            Some((f, escape_edges)) => {
                by_exit.push(Some(f));
                facts[f.header.0] = Some(SinglePassFenceFact { exit, escape_edges });
            },
        }
        proof {
            assert forall|k: BlockRef| k.0 < b + 1 implies #[trigger] by_exit@[k.0 as int] == index.fence_at(dataflow, list@, k) && match by_exit@[k.0 as int] {
                Some(f) => index.cfg.has_block(f.tail),
                None => true,
            } by {
                if k.0 == b {
                    assert(k == exit);
                }
            }
            assert forall|h: BlockRef| h.0 < n implies match #[trigger] facts@[h.0 as int] {
                Some(fact) => {
                    &&& index.cfg.has_block(fact.exit)
                    &&& index.fence_at(dataflow, list@, fact.exit) is Some
                    &&& (index.fence_at(dataflow, list@, fact.exit)->0).header == h
                    &&& fact.escape_edges@ == index.escapes(index.fence_at(dataflow, list@, fact.exit)->0)
                },
                None => forall|q: BlockRef| #[trigger]
                    index.cfg.has_block(q) && q.0 < b + 1 ==> match index.fence_at(dataflow, list@, q) {
                        Some(f) => f.header != h,
                        None => true,
                    },
            } by {
                if facts@[h.0 as int] is None {
                    assert forall|q: BlockRef| #[trigger] index.cfg.has_block(q) && q.0 < b + 1 implies match index.fence_at(dataflow, list@, q) {
                        Some(f) => f.header != h,
                        None => true,
                    } by {
                        if q.0 == b {
                            assert(q == exit);
                        }
                    }
                }
            }
        }
        b = b + 1;
    }
    let m = list.len();
    let mut r: Vec<BranchCandidate> = Vec::new();
    let mut j: usize = 0;
    while j < m
        invariant
            index.wf(),
            branches_wf(index.cfg, list@),
            n == index.cfg.blocks@.len(),
            by_exit@.len() == n,
            forall|k: BlockRef| k.0 < n ==> #[trigger] by_exit@[k.0 as int] == index.fence_at(dataflow, list@, k) && match by_exit@[k.0 as int] {
                Some(f) => index.cfg.has_block(f.tail),
                None => true,
            },
            m == list@.len(),
            j <= m,
            r@.len() == j,
            forall|k: int| 0 <= k < j ==> #[trigger] r@[k] == index.fence_refined(dataflow, list@, k) && r@[k].header
                == list@[k].header && branch_wf(index.cfg, &r@[k]),
        decreases m - j,
    {
        let c = list[j];
        assert(branch_wf(index.cfg, &list@[j as int]));
        let mut merge = c.merge;
        if let Some(exit) = c.merge {
            if let Some(f) = by_exit[exit.0] {
                if index.graph.dominates(f.header, c.header) {
                    merge = Some(f.tail);
                }
            }
        }
        r.push(
            BranchCandidate {
                header: c.header,
                then_entry: c.then_entry,
                else_entry: c.else_entry,
                merge,
                kind: c.kind,
                invert_hint: c.invert_hint,
            },
        );
        j = j + 1;
    }
    proof {
        assert(r@ =~= index.all_fence_refined(dataflow, list@));
        assert forall|i: int, j: int| 0 <= i < j < r@.len() implies (#[trigger] r@[i]).header != (#[trigger] r@[j]).header by {
            assert(list@[i].header != list@[j].header);
        }
        assert forall|h: BlockRef| index.cfg.has_block(h) implies match #[trigger] facts@[h.0 as int] {
            Some(fact) => {
                &&& index.cfg.has_block(fact.exit)
                &&& index.fence_at(dataflow, list@, fact.exit) is Some
                &&& (index.fence_at(dataflow, list@, fact.exit)->0).header == h
                &&& fact.escape_edges@ == index.escapes(index.fence_at(dataflow, list@, fact.exit)->0)
            },
            None => forall|exit: BlockRef| #[trigger]
                index.cfg.has_block(exit) ==> match index.fence_at(dataflow, list@, exit) {
                    Some(f) => f.header != h,
                    None => true,
                },
        } by {}
    }
    (r, facts)
}

/// Some region holds `b`.
pub open spec fn in_regions(regions: Seq<IrreducibleRegion>, b: BlockRef) -> bool {
    exists|i: int| 0 <= i < regions.len() && (#[trigger] regions[i]).blocks@.contains(b)
}

pub open spec fn irreducible_blocks(regions: Seq<IrreducibleRegion>) -> Set<BlockRef> {
    Set::new(|b: BlockRef| in_regions(regions, b))
}

fn collect_irreducible(regions: &Vec<IrreducibleRegion>) -> (r: IdSet<BlockRef>)
    ensures
        r@ == irreducible_blocks(regions@),
{
    let n = regions.len();
    let mut r: IdSet<BlockRef> = IdSet::new();
    let mut i: usize = 0;
    while i < n
        invariant
            n == regions@.len(),
            i <= n,
            forall|b: BlockRef| #[trigger] r@.contains(b) <==> exists|j: int| 0 <= j < i && (#[trigger] regions@[j]).blocks@.contains(b),
        decreases n - i,
    {
        let ghost before = r@;
        r.extend(&regions[i].blocks);
        proof {
            assert forall|b: BlockRef| #[trigger] r@.contains(b) <==> exists|j: int| 0 <= j < i + 1 && (#[trigger] regions@[j]).blocks@.contains(b) by {
                if before.contains(b) {
                    let j = choose|j: int| 0 <= j < i && (#[trigger] regions@[j]).blocks@.contains(b);
                    assert(regions@[j].blocks@.contains(b));
                }
                if exists|j: int| 0 <= j < i + 1 && (#[trigger] regions@[j]).blocks@.contains(b) {
                    let j = choose|j: int| 0 <= j < i + 1 && (#[trigger] regions@[j]).blocks@.contains(b);
                    if j < i {
                        assert(before.contains(b));
                    }
                }
                if r@.contains(b) && !before.contains(b) {
                    assert(regions@[i as int].blocks@.contains(b));
                }
            }
        }
        i = i + 1;
    }
    assert(r@ =~= irreducible_blocks(regions@));
    r
}

impl<'a> BranchIndex<'a> {
    /// The branch at a block, if it is a reachable fork with two different targets.
    pub open spec fn first_look(&self, irreducible: Set<BlockRef>, header: BlockRef) -> Option<BranchCandidate> {
        if self.cfg.is_reachable(header) {
            match fork_of(self.cfg, header) {
                Some(f) => if f.then_entry != f.else_entry {
                    Some(self.classified(f, irreducible.contains(header)))
                } else {
                    None
                },
                None => None,
            }
        } else {
            None
        }
    }

    /// The branches of the first `n` blocks of the order.
    pub open spec fn first_looks(&self, irreducible: Set<BlockRef>, n: nat) -> Seq<BranchCandidate>
        decreases n,
    {
        if n == 0 {
            Seq::empty()
        } else {
            let rest = self.first_looks(irreducible, (n - 1) as nat);
            match self.first_look(irreducible, self.cfg.block_order@[n - 1]) {
                Some(c) => rest.push(c),
                None => rest,
            }
        }
    }

    /// The branches before regions that run once are looked for.
    pub open spec fn before_fences(&self, irreducible: Set<BlockRef>) -> Seq<BranchCandidate> {
        self.all_softly_closed(
            self.all_terminal_refined(
                self.all_iteration_refined(self.first_looks(irreducible, self.cfg.block_order@.len())),
                irreducible,
            ),
        )
    }

    /// Classifies the blocks of the order one by one.
    fn look_first(&self, irreducible: &IdSet<BlockRef>) -> (r: Vec<BranchCandidate>)
        requires
            self.wf(),
        ensures
            r@ == self.first_looks(irreducible@, self.cfg.block_order@.len()),
            branches_wf(self.cfg, r@),
    {
        let n = self.cfg.block_order.len();
        let mut r: Vec<BranchCandidate> = Vec::new();
        let mut i: usize = 0;
        while i < n
            invariant
                self.wf(),
                n == self.cfg.block_order@.len(),
                i <= n,
                r@ == self.first_looks(irreducible@, i as nat),
                branches_wf(self.cfg, r@),
                forall|k: int| 0 <= k < r@.len() ==> self.cfg.block_order@.subrange(0, i as int).contains((#[trigger] r@[k]).header),
            decreases n - i,
        {
            let header = self.cfg.block_order[i];
            let ghost before = r@;
            assert(self.cfg.has_block(self.cfg.block_order@[i as int]));
            if self.cfg.reachable_blocks.contains(header) {
                if let Some(f) = find_fork(self.cfg, header) {
                    if f.then_entry != f.else_entry {
                        let c = self.classify(f, irreducible.contains(header));
                        proof {
                            classified_wf(self, f, irreducible@.contains(header));
                            assert forall|k: int| 0 <= k < before.len() implies (#[trigger] before[k]).header != header by {
                                let pre = self.cfg.block_order@.subrange(0, i as int);
                                let q = choose|q: int| 0 <= q < pre.len() && pre[q] == before[k].header;
                                assert(self.cfg.block_order@[q] == before[k].header);
                            }
                        }
                        r.push(c);
                    }
                }
            }
            proof {
                let pre = self.cfg.block_order@.subrange(0, i as int);
                let post = self.cfg.block_order@.subrange(0, i as int + 1);
                assert forall|k: int| 0 <= k < r@.len() implies post.contains((#[trigger] r@[k]).header) by {
                    if k < before.len() {
                        assert(r@[k] == before[k]);
                        assert(pre.contains(before[k].header));
                        let q = choose|q: int| 0 <= q < pre.len() && pre[q] == before[k].header;
                        assert(post[q] == before[k].header);
                    } else {
                        assert(post[i as int] == header);
                    }
                }
            }
            i = i + 1;
        }
        r
    }
}

/// A classified branch names blocks of the graph and keeps its header.
proof fn classified_wf(index: &BranchIndex, f: Fork, irreducible: bool)
    requires
        index.wf(),
        index.knows(f),
    ensures
        branch_wf(index.cfg, &index.classified(f, irreducible)),
        index.classified(f, irreducible).header == f.header,
{
    let soft = soft_merge(index.cfg, index.graph, f.header, f.then_entry, f.else_entry);
    if soft is Some {
        let m = soft->0;
        assert(is_soft_merge(index.cfg, index.graph, f.header, f.then_entry, f.else_entry, m));
        assert(index.graph.frontier_has(f.then_entry, m));
    }
    let tree = &index.graph.post_dominator_tree.tree;
    if let Some(y) = tree.nca(f.then_entry.0, f.else_entry.0) {
        assert(nearest_common(tree.parent@, y, f.then_entry.0, f.else_entry.0));
        let k = choose|k: nat| #[trigger] up(tree.parent@, f.then_entry.0, k) == Some(y);
        up_node(tree, f.then_entry.0, k);
    }
    match least_where(index.loops@.len(), index.endless_owner(f), core_size(index.loops@)) {
        Some(i) => {
            least_where_least(index.loops@.len(), index.endless_owner(f), core_size(index.loops@));
            assert(index.loops@[i].wf(index.cfg));
        },
        None => {},
    }
}

/// The list holds the same branches, by ascending header.
pub open spec fn by_header(list: Seq<BranchCandidate>, sorted: Seq<BranchCandidate>) -> bool {
    &&& forall|i: int, j: int| 0 <= i < j < sorted.len() ==> (#[trigger] sorted[i]).header.0 < (#[trigger] sorted[j]).header.0
    &&& forall|c: BranchCandidate| #[trigger] sorted.contains(c) <==> list.contains(c)
}

fn sort_by_header(cfg: &Cfg, list: &Vec<BranchCandidate>) -> (r: Vec<BranchCandidate>)
    requires
        branches_wf(cfg, list@),
    ensures
        by_header(list@, r@),
        branches_wf(cfg, r@),
{
    let n = cfg.blocks.len();
    let mut r: Vec<BranchCandidate> = Vec::new();
    let mut b: usize = 0;
    while b < n
        invariant
            n == cfg.blocks@.len(),
            branches_wf(cfg, list@),
            b <= n,
            forall|i: int, j: int| 0 <= i < j < r@.len() ==> (#[trigger] r@[i]).header.0 < (#[trigger] r@[j]).header.0,
            forall|i: int| 0 <= i < r@.len() ==> (#[trigger] r@[i]).header.0 < b && list@.contains(r@[i]),
            forall|k: int| 0 <= k < list@.len() && (#[trigger] list@[k]).header.0 < b ==> r@.contains(list@[k]),
        decreases n - b,
    {
        let ghost before = r@;
        let found = find_branch(list, BlockRef(b));
        if let Some(c) = found {
            r.push(c);
        }
        proof {
            assert forall|k: int| 0 <= k < list@.len() && (#[trigger] list@[k]).header.0 < b + 1 implies r@.contains(list@[k]) by {
                if list@[k].header.0 < b {
                    assert(before.contains(list@[k]));
                    let q = choose|q: int| 0 <= q < before.len() && before[q] == list@[k];
                    assert(r@[q] == list@[k]);
                } else {
                    first_where_least(list@.len(), headed_by(list@, BlockRef(b)));
                    assert(headed_by(list@, BlockRef(b))(k));
                    let q = first_where(list@.len(), headed_by(list@, BlockRef(b)))->0;
                    assert(list@[q].header == list@[k].header);
                    if q < k {
                        assert(list@[q].header != list@[k].header);
                    }
                    assert(r@[before.len() as int] == list@[k]);
                }
            }
        }
        b = b + 1;
    }
    proof {
        assert forall|c: BranchCandidate| #[trigger] r@.contains(c) <==> list@.contains(c) by {
            if r@.contains(c) {
                let i = choose|i: int| 0 <= i < r@.len() && r@[i] == c;
                assert(list@.contains(r@[i]));
            }
            if list@.contains(c) {
                let k = choose|k: int| 0 <= k < list@.len() && list@[k] == c;
                assert(branch_wf(cfg, &list@[k]));
            }
        }
        assert forall|i: int| 0 <= i < r@.len() implies branch_wf(cfg, &(#[trigger] r@[i])) by {
            let k = choose|k: int| 0 <= k < list@.len() && list@[k] == r@[i];
            assert(branch_wf(cfg, &list@[k]));
        }
    }
    r
}

/// Classifies all branches, by ascending header, and lists the regions that run once.
pub fn analyze_branches(
    index: &BranchIndex,
    dataflow: &DataflowFacts,
    irreducible_regions: &Vec<IrreducibleRegion>,
) -> (r: (Vec<BranchCandidate>, Vec<Option<SinglePassFenceFact>>))
    requires
        index.wf(),
        defs_known(dataflow),
    ensures
        ({
            let list = index.before_fences(irreducible_blocks(irreducible_regions@));
            &&& by_header(index.all_fence_refined(dataflow, list), r.0@)
            &&& branches_wf(index.cfg, r.0@)
            &&& fences_listed(index, dataflow, list, r.1@)
        }),
{
    let irreducible = collect_irreducible(irreducible_regions);
    let first = index.look_first(&irreducible);
    let iteration = index.refine_loop_iteration_if_else_branches(&first);
    let terminal = index.refine_terminal_one_arm_branches(&iteration, &irreducible);
    let closed = index.refine_enclosing_loop_escape_merges(&terminal);
    let (fenced, facts) = refine_single_pass_fences(index, dataflow, &closed);
    (sort_by_header(index.cfg, &fenced), facts)
}

} // verus!
