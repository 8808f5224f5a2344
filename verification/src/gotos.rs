//! The edges that structured control flow cannot express.

use vstd::prelude::*;

use crate::branches::loops_wf;
use crate::cfg::{Cfg, EdgeKind};
use crate::continues::has_edge;
use crate::evidence::{BranchCandidate, GotoReason, GotoRequirement, IrreducibleRegion, LoopCandidate, LoopKindHint};
use crate::helpers::{block_has_non_control_prefix, fits, has_prefix};
use crate::ids::{BlockRef, EdgeRef};
use crate::idset::{ascending, IdSet};
use crate::lir::LoweredProto;
use crate::loop_exits::{exit_target, transparent_loop_exit_target};
use crate::refine::{branches_wf, find_fork, fork_of};

verus! {

/// What the search for such edges reads.
pub struct GotoInput<'a> {
    pub proto: &'a LoweredProto,
    pub cfg: &'a Cfg,
    pub loops: &'a Vec<LoopCandidate>,
    pub branches: &'a Vec<BranchCandidate>,
    pub irreducible: &'a Vec<IrreducibleRegion>,
}

impl<'a> GotoInput<'a> {
    pub open spec fn wf(&self) -> bool {
        fits(self.proto, self.cfg) && loops_wf(self.cfg, self.loops@) && branches_wf(self.cfg, self.branches@) && forall|i: int, k: int|
            0 <= i < self.irreducible@.len() && 0 <= k < self.irreducible@[i].entry_edges@.len() ==> self.cfg.has_edge(
                #[trigger] self.irreducible@[i].entry_edges@[k],
            )
    }

    /// The edge enters loop `i` elsewhere than at its header.
    pub open spec fn enters_beside(&self, i: int, e: EdgeRef) -> bool {
        let c = &self.loops@[i];
        let edge = self.cfg.edge(e);
        self.cfg.is_reachable(edge.from) && !c.blocks@.contains(edge.from) && c.blocks@.contains(edge.to) && edge.to != c.header
    }

    /// Every exit of the loop leads to `h` without doing anything, and one of them is `h`.
    pub open spec fn exits_only_to(&self, c: &LoopCandidate, h: BlockRef) -> bool {
        c.exits@.contains(h) && forall|x: BlockRef| #[trigger] c.exits@.contains(x) ==> x == h || exit_target(self.proto, self.cfg, x) == Some(h)
    }

    /// Loop `j` lies in loop `i` and holds the source of the edge, and does not simply end at
    /// the header of `i`.
    pub open spec fn lies_between(&self, i: int, j: int, e: EdgeRef) -> bool {
        let outer = &self.loops@[i];
        let inner = &self.loops@[j];
        &&& inner.body_scope_blocks@.contains(self.cfg.edge(e).from)
        &&& inner.header != outer.header
        &&& inner.blocks@.len() < outer.blocks@.len()
        &&& inner.blocks@.subset_of(outer.body_scope_blocks@)
        &&& !self.exits_only_to(inner, outer.header)
    }

    /// The back edge of loop `i` starts inside another loop that lies in it.
    pub open spec fn crosses_loop(&self, i: int, e: EdgeRef) -> bool {
        self.loops@[i].backedges@.contains(e) && self.cfg.edge(e).to == self.loops@[i].header && exists|j: int|
            0 <= j < self.loops@.len() && #[trigger] self.lies_between(i, j, e)
    }

    /// The continue target holds the end of the body.
    pub open spec fn tail_in_target(&self, c: &LoopCandidate, t: BlockRef) -> bool {
        (c.kind_hint == LoopKindHint::NumericForLike || c.kind_hint == LoopKindHint::RepeatLike || c.kind_hint
            == LoopKindHint::WhileTrueLike) && has_prefix(self.proto, self.cfg, t)
    }

    /// Some branch has the target as an arm or as its merge.
    pub open spec fn is_branch_arm(&self, from: BlockRef, t: BlockRef) -> bool {
        exists|k: int|
            0 <= k < self.branches@.len() && (#[trigger] self.branches@[k]).header == from && (self.branches@[k].then_entry == t
                || self.branches@[k].else_entry == Some(t) || self.branches@[k].merge == Some(t))
    }

    /// `from` is an exit of a smaller loop with the same header.
    pub open spec fn inner_exit(&self, c: &LoopCandidate, from: BlockRef) -> bool {
        exists|j: int|
            0 <= j < self.loops@.len() && (#[trigger] self.loops@[j]).exits@.contains(from) && self.loops@[j].header == c.header
                && self.loops@[j].blocks@.len() < c.blocks@.len() && self.loops@[j].blocks@.subset_of(c.blocks@)
    }

    /// Both ways of the branch lead to `t`.
    pub open spec fn both_ways(&self, from: BlockRef, t: BlockRef) -> bool {
        match fork_of(self.cfg, from) {
            Some(f) => f.then_entry == t && f.else_entry == t,
            None => false,
        }
    }

    /// The edge ends an iteration of loop `i`, and nothing structured accounts for it.
    pub open spec fn continues_loosely(&self, i: int, e: EdgeRef) -> bool {
        let c = &self.loops@[i];
        let edge = self.cfg.edge(e);
        match c.continue_target {
            Some(t) => {
                &&& edge.to == t
                &&& c.blocks@.contains(edge.from)
                &&& !self.tail_in_target(c, t)
                &&& !c.backedges@.contains(e)
                &&& !c.continue_edges@.contains(e)
                &&& edge.kind != EdgeKind::Fallthrough
                &&& self.cfg.is_reachable(edge.from)
                &&& !self.is_branch_arm(edge.from, t)
                &&& !self.inner_exit(c, edge.from)
                &&& !self.both_ways(edge.from, t)
            },
            None => false,
        }
    }

    /// The edge needs a goto for this reason.
    pub open spec fn needs_goto(&self, q: GotoRequirement) -> bool {
        self.cfg.has_edge(q.edge) && match q.reason {
            GotoReason::IrreducibleFlow => exists|i: int|
                0 <= i < self.irreducible@.len() && (#[trigger] self.irreducible@[i]).entry_edges@.contains(q.edge),
            GotoReason::MultiEntryRegion => exists|i: int| 0 <= i < self.loops@.len() && #[trigger] self.enters_beside(i, q.edge),
            GotoReason::UnstructuredBreakLike => false,
            GotoReason::UnstructuredContinueLike => exists|i: int|
                0 <= i < self.loops@.len() && #[trigger] self.continues_loosely(i, q.edge),
            GotoReason::CrossLoopContinueLike => exists|i: int| 0 <= i < self.loops@.len() && #[trigger] self.crosses_loop(i, q.edge),
        }
    }

    fn check_irreducible(&self, e: EdgeRef) -> (r: bool)
        ensures
            r == exists|i: int| 0 <= i < self.irreducible@.len() && (#[trigger] self.irreducible@[i]).entry_edges@.contains(e),
    {
        let n = self.irreducible.len();
        let mut i: usize = 0;
        while i < n
            invariant
                n == self.irreducible@.len(),
                i <= n,
                forall|k: int| 0 <= k < i ==> !(#[trigger] self.irreducible@[k]).entry_edges@.contains(e),
            decreases n - i,
        {
            if has_edge(&self.irreducible[i].entry_edges, e) {
                return true;
            }
            i = i + 1;
        }
        false
    }

    fn check_multi_entry(&self, e: EdgeRef) -> (r: bool)
        requires
            self.cfg.has_edge(e),
        ensures
            r == exists|i: int| 0 <= i < self.loops@.len() && #[trigger] self.enters_beside(i, e),
    {
        let n = self.loops.len();
        let edge = self.cfg.edges[e.0];
        let reachable = self.cfg.reachable_blocks.contains(edge.from);
        let mut i: usize = 0;
        while i < n
            invariant
                n == self.loops@.len(),
                edge == self.cfg.edge(e),
                reachable == self.cfg.is_reachable(edge.from),
                i <= n,
                forall|k: int| 0 <= k < i ==> !#[trigger] self.enters_beside(k, e),
            decreases n - i,
        {
            let c = &self.loops[i];
            if reachable && edge.to != c.header && c.blocks.contains(edge.to) && !c.blocks.contains(edge.from) {
                assert(self.enters_beside(i as int, e));
                return true;
            }
            i = i + 1;
        }
        false
    }

    pub fn nested_loop_exits_to_outer_header(&self, c: &LoopCandidate, h: BlockRef) -> (r: bool)
        requires
            self.wf(),
            c.wf(self.cfg),
        ensures
            r == self.exits_only_to(c, h),
    {
        if !c.exits.contains(h) {
            return false;
        }
        let n = c.exits.len();
        let mut i: usize = 0;
        while i < n
            invariant
                self.wf(),
                c.wf(self.cfg),
                n == c.exits.seq().len(),
                i <= n,
                c.exits@.contains(h),
                forall|k: int| 0 <= k < i ==> (#[trigger] c.exits.seq()[k]) == h || exit_target(self.proto, self.cfg, c.exits.seq()[k]) == Some(h),
            decreases n - i,
        {
            let x = c.exits.at(i);
            if x != h && transparent_loop_exit_target(self.proto, self.cfg, x) != Some(h) {
                return false;
            }
            i = i + 1;
        }
        proof {
            assert forall|x: BlockRef| #[trigger] c.exits@.contains(x) implies x == h || exit_target(self.proto, self.cfg, x) == Some(h) by {
                let k = choose|k: int| 0 <= k < c.exits.seq().len() && c.exits.seq()[k] == x;
                assert(c.exits.seq()[k] == x);
            }
        }
        true
    }

    pub fn backedge_crosses_nested_loop(&self, i: usize, e: EdgeRef) -> (r: bool)
        requires
            self.wf(),
            i < self.loops@.len(),
            self.cfg.has_edge(e),
        ensures
            r == (self.cfg.edge(e).to == self.loops@[i as int].header && exists|j: int|
                0 <= j < self.loops@.len() && #[trigger] self.lies_between(i as int, j, e)),
    {
        let n = self.loops.len();
        let edge = self.cfg.edges[e.0];
        let outer = &self.loops[i];
        if edge.to != outer.header {
            return false;
        }
        let mut j: usize = 0;
        while j < n
            invariant
                self.wf(),
                n == self.loops@.len(),
                i < n,
                *outer == self.loops@[i as int],
                edge == self.cfg.edge(e),
                edge.to == outer.header,
                j <= n,
                forall|k: int| 0 <= k < j ==> !#[trigger] self.lies_between(i as int, k, e),
            decreases n - j,
        {
            let inner = &self.loops[j];
            assert(self.loops@[j as int].wf(self.cfg));
            if inner.body_scope_blocks.contains(edge.from) && inner.header != outer.header && inner.blocks.len() < outer.blocks.len()
                && inner.blocks.is_subset(&outer.body_scope_blocks) && !self.nested_loop_exits_to_outer_header(inner, outer.header) {
                assert(self.lies_between(i as int, j as int, e));
                return true;
            }
            j = j + 1;
        }
        false
    }

    fn check_crosses(&self, e: EdgeRef) -> (r: bool)
        requires
            self.wf(),
            self.cfg.has_edge(e),
        ensures
            r == exists|i: int| 0 <= i < self.loops@.len() && #[trigger] self.crosses_loop(i, e),
    {
        let n = self.loops.len();
        let mut i: usize = 0;
        while i < n
            invariant
                self.wf(),
                self.cfg.has_edge(e),
                n == self.loops@.len(),
                i <= n,
                forall|k: int| 0 <= k < i ==> !#[trigger] self.crosses_loop(k, e),
            decreases n - i,
        {
            if has_edge(&self.loops[i].backedges, e) && self.backedge_crosses_nested_loop(i, e) {
                assert(self.crosses_loop(i as int, e));
                return true;
            }
            i = i + 1;
        }
        false
    }

    pub fn is_branch_arm_to_target(&self, from: BlockRef, t: BlockRef) -> (r: bool)
        ensures
            r == self.is_branch_arm(from, t),
    {
        let n = self.branches.len();
        let mut k: usize = 0;
        while k < n
            invariant
                n == self.branches@.len(),
                k <= n,
                forall|q: int|
                    0 <= q < k ==> !((#[trigger] self.branches@[q]).header == from && (self.branches@[q].then_entry == t
                        || self.branches@[q].else_entry == Some(t) || self.branches@[q].merge == Some(t))),
            decreases n - k,
        {
            let b = self.branches[k];
            if b.header == from && (b.then_entry == t || b.else_entry == Some(t) || b.merge == Some(t)) {
                assert(self.branches@[k as int].header == from);
                return true;
            }
            k = k + 1;
        }
        false
    }

    pub fn is_same_header_nested_loop_exit(&self, c: &LoopCandidate, from: BlockRef) -> (r: bool)
        ensures
            r == self.inner_exit(c, from),
    {
        let n = self.loops.len();
        let mut j: usize = 0;
        while j < n
            invariant
                n == self.loops@.len(),
                j <= n,
                forall|k: int|
                    0 <= k < j ==> !((#[trigger] self.loops@[k]).exits@.contains(from) && self.loops@[k].header == c.header
                        && self.loops@[k].blocks@.len() < c.blocks@.len() && self.loops@[k].blocks@.subset_of(c.blocks@)),
            decreases n - j,
        {
            let d = &self.loops[j];
            if d.exits.contains(from) && d.header == c.header && d.blocks.len() < c.blocks.len() && d.blocks.is_subset(&c.blocks) {
                assert(self.loops@[j as int].exits@.contains(from));
                return true;
            }
            j = j + 1;
        }
        false
    }

    pub fn is_degenerate_branch_to_target(&self, from: BlockRef, t: BlockRef) -> (r: bool)
        requires
            self.wf(),
            self.cfg.has_block(from),
        ensures
            r == self.both_ways(from, t),
    {
        match find_fork(self.cfg, from) {
            Some(f) => f.then_entry == t && f.else_entry == t,
            None => false,
        }
    }

    fn check_continues(&self, e: EdgeRef) -> (r: bool)
        requires
            self.wf(),
            self.cfg.has_edge(e),
        ensures
            r == exists|i: int| 0 <= i < self.loops@.len() && #[trigger] self.continues_loosely(i, e),
    {
        let n = self.loops.len();
        let edge = self.cfg.edges[e.0];
        let mut i: usize = 0;
        while i < n
            invariant
                self.wf(),
                self.cfg.has_edge(e),
                edge == self.cfg.edge(e),
                n == self.loops@.len(),
                i <= n,
                forall|k: int| 0 <= k < i ==> !#[trigger] self.continues_loosely(k, e),
            decreases n - i,
        {
            let c = &self.loops[i];
            assert(self.loops@[i as int].wf(self.cfg));
            if let Some(t) = c.continue_target {
                let kind_has_tail = match c.kind_hint {
                    LoopKindHint::NumericForLike | LoopKindHint::RepeatLike | LoopKindHint::WhileTrueLike => true,
                    _ => false,
                };
                if edge.to == t && c.blocks.contains(edge.from) && !(kind_has_tail && block_has_non_control_prefix(
                    self.proto,
                    self.cfg,
                    t,
                )) && !has_edge(&c.backedges, e) && !c.continue_edges.contains(e) && edge.kind != EdgeKind::Fallthrough
                    && self.cfg.reachable_blocks.contains(edge.from) && !self.is_branch_arm_to_target(edge.from, t)
                    && !self.is_same_header_nested_loop_exit(c, edge.from) && !self.is_degenerate_branch_to_target(edge.from, t) {
                    assert(self.continues_loosely(i as int, e));
                    return true;
                }
            }
            i = i + 1;
        }
        false
    }

    /// Lists the edges that need a goto, by edge and reason.
    pub fn analyze_goto_requirements(&self) -> (r: Vec<GotoRequirement>)
        requires
            self.wf(),
        ensures
            ascending(r@),
            forall|q: GotoRequirement| #[trigger] r@.contains(q) <==> self.needs_goto(q),
    {
        let n = self.cfg.edges.len();
        let mut set: IdSet<GotoRequirement> = IdSet::new();
        let mut i: usize = 0;
        while i < n
            invariant
                self.wf(),
                n == self.cfg.edges@.len(),
                i <= n,
                forall|q: GotoRequirement| #[trigger] set@.contains(q) <==> q.edge.0 < i && self.needs_goto(q),
            decreases n - i,
        {
            let edge = EdgeRef(i);
            if self.check_irreducible(edge) {
                set.insert(GotoRequirement { edge, reason: GotoReason::IrreducibleFlow });
            }
            if self.check_multi_entry(edge) {
                set.insert(GotoRequirement { edge, reason: GotoReason::MultiEntryRegion });
            }
            if self.check_continues(edge) {
                set.insert(GotoRequirement { edge, reason: GotoReason::UnstructuredContinueLike });
            }
            if self.check_crosses(edge) {
                set.insert(GotoRequirement { edge, reason: GotoReason::CrossLoopContinueLike });
            }
            i = i + 1;
        }
        let r = set.to_vec();
        proof {
            assert forall|q: GotoRequirement| #[trigger] r@.contains(q) <==> self.needs_goto(q) by {
                assert(r@.to_set().contains(q) <==> set@.contains(q));
            }
        }
        r
    }
}

} // verus!
