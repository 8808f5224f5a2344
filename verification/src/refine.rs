//! Second looks at classified branches: what the loops around and the branches below say.

use vstd::prelude::*;

use crate::branch_values::branch_wf;
use crate::branches::{
    branch_has_loop_escape_arm, core_size, escapes_loop, find_soft_merge, loop_candidate_owns_endpoint, one_arm,
    scope_size, soft_merge, two_arms,
};
use crate::cfg::Cfg;
use crate::classify::{BranchIndex, Fork};
use crate::evidence::{BranchCandidate, BranchKind, LoopCandidate};
use crate::ids::BlockRef;
use crate::idset::IdSet;
use crate::search::{first_where, first_where_stable, least_where};

verus! {

/// Candidate `i` has header `b`.
pub open spec fn headed_by(list: Seq<BranchCandidate>, b: BlockRef) -> spec_fn(int) -> bool {
    |i: int| list[i].header == b
}

/// The candidate with header `b`.
pub open spec fn branch_at(list: Seq<BranchCandidate>, b: BlockRef) -> Option<BranchCandidate> {
    match first_where(list.len(), headed_by(list, b)) {
        Some(i) => Some(list[i]),
        None => None,
    }
}

pub open spec fn branches_wf(cfg: &Cfg, list: Seq<BranchCandidate>) -> bool {
    &&& forall|i: int| 0 <= i < list.len() ==> branch_wf(cfg, &(#[trigger] list[i]))
    &&& forall|i: int, j: int| 0 <= i < j < list.len() ==> (#[trigger] list[i]).header != (#[trigger] list[j]).header
}

/// Finds the candidate with header `b`.
pub fn find_branch(list: &Vec<BranchCandidate>, b: BlockRef) -> (r: Option<BranchCandidate>)
    ensures
        r == branch_at(list@, b),
        r is Some ==> list@.contains(r->0) && (r->0).header == b,
{
    let n = list.len();
    let ghost p = headed_by(list@, b);
    let mut i: usize = 0;
    while i < n
        invariant
            n == list@.len(),
            p == headed_by(list@, b),
            i <= n,
            first_where(i as nat, p) is None,
        decreases n - i,
    {
        if list[i].header == b {
            proof {
                assert(first_where((i + 1) as nat, p) == Some(i as int));
                first_where_stable((i + 1) as nat, n as nat, p);
                assert(list@[i as int] == list@[i as int]);
            }
            return Some(list[i]);
        }
        i = i + 1;
    }
    None
}

/// The two targets of a branch.
pub open spec fn fork_of(cfg: &Cfg, header: BlockRef) -> Option<Fork> {
    match cfg.branch_edges_of(header) {
        Some((t, f)) => Some(Fork { header, then_entry: cfg.edge(t).to, else_entry: cfg.edge(f).to }),
        None => None,
    }
}

pub fn find_fork(cfg: &Cfg, header: BlockRef) -> (r: Option<Fork>)
    requires
        cfg.adjacency_wf(),
        cfg.has_block(header),
    ensures
        r == fork_of(cfg, header),
        r is Some ==> (r->0).header == header && cfg.has_block((r->0).then_entry) && cfg.has_block((r->0).else_entry),
{
    match cfg.branch_edges(header) {
        Some((t, f)) => {
            assert(cfg.has_edge(t) && cfg.has_edge(f));
            Some(Fork { header, then_entry: cfg.edges[t.0].to, else_entry: cfg.edges[f.0].to })
        },
        None => None,
    }
}

impl<'a> BranchIndex<'a> {
    /// Loop `i` has the outer branch, the guard below it and the sibling in its body, and owns
    /// the block to which the guard leaves.
    pub open spec fn prefix_owner(
        &self,
        outer: BlockRef,
        nested: BlockRef,
        sibling: BlockRef,
        strict: BlockRef,
    ) -> spec_fn(int) -> bool {
        |i: int|
            {
                let c = &self.loops@[i];
                &&& c.body_scope_blocks@.contains(outer)
                &&& c.body_scope_blocks@.contains(nested)
                &&& c.body_scope_blocks@.contains(sibling)
                &&& c.owns(self.cfg, strict)
            }
    }

    /// `nested` is a guard that only the outer branch enters, that goes on to the sibling and
    /// leaves to the strict merge, out of the innermost loop around.
    pub open spec fn guards_prefix(
        &self,
        list: Seq<BranchCandidate>,
        outer: &BranchCandidate,
        nested: BlockRef,
        sibling: BlockRef,
        strict: BlockRef,
    ) -> bool {
        match branch_at(list, nested) {
            Some(n) => n.kind == BranchKind::Guard && nested != outer.header && n.else_entry is None && n.merge
                == Some(sibling) && n.then_entry == strict && self.cfg.unique_predecessor(
                nested,
                Set::new(|b: BlockRef| !Set::<BlockRef>::empty().contains(b)),
            ) == Some(outer.header) && match least_where(
                self.loops@.len(),
                self.prefix_owner(outer.header, nested, sibling, strict),
                scope_size(self.loops@),
            ) {
                Some(i) => escapes_loop(self.proto, self.cfg, &self.loops@[i], &n),
                None => false,
            },
            None => false,
        }
    }

    /// `if A then if B then leave end end`: the arm with the guard is the only arm.
    pub open spec fn escape_prefix(&self, list: Seq<BranchCandidate>, outer: &BranchCandidate) -> Option<BranchCandidate> {
        match (outer.merge, outer.else_entry) {
            (Some(strict), Some(other)) => if outer.kind == BranchKind::IfElse {
                one_arm(
                    outer.header,
                    outer.then_entry,
                    other,
                    self.guards_prefix(list, outer, outer.then_entry, other, strict),
                    self.guards_prefix(list, outer, other, outer.then_entry, strict),
                    BranchKind::IfThen,
                )
            } else {
                None
            },
            _ => None,
        }
    }

    /// The branch below is a guard that leaves loop `c`.
    pub open spec fn guard_leaves(&self, c: &LoopCandidate, below: &BranchCandidate) -> bool {
        below.kind == BranchKind::Guard && below.else_entry is None && escapes_loop(self.proto, self.cfg, c, below)
    }

    /// Loop `i` holds the fork and the branch below it, which leaves the loop.
    pub open spec fn iteration_owner(&self, f: Fork, below: &BranchCandidate) -> spec_fn(int) -> bool {
        |i: int|
            {
                let c = &self.loops@[i];
                &&& c.blocks@.contains(f.header)
                &&& c.blocks@.contains(f.then_entry)
                &&& c.blocks@.contains(f.else_entry)
                &&& c.blocks@.contains(below.header)
                &&& match below.merge {
                    Some(m) => c.exits@.contains(m) || (self.guard_leaves(c, below) && (c.blocks@.contains(m)
                        || c.body_scope_blocks@.contains(m))),
                    None => false,
                }
            }
    }

    /// The merge of a guard below that leaves the loop, when it is one of the fork's targets.
    pub open spec fn guard_merge(&self, c: &LoopCandidate, below: &BranchCandidate, f: Fork) -> Option<BlockRef> {
        if self.guard_leaves(c, below) && (below.merge == Some(f.then_entry) || below.merge == Some(f.else_entry)) {
            below.merge
        } else {
            None
        }
    }

    /// A branch with one arm whose merge is another branch of the same iteration has two arms
    /// after all, when both targets join inside the loop.
    pub open spec fn iteration_merge(&self, f: Fork, below: &BranchCandidate) -> Option<BranchCandidate> {
        match least_where(self.loops@.len(), self.iteration_owner(f, below), core_size(self.loops@)) {
            Some(i) => {
                let c = &self.loops@[i];
                let by_guard = self.guard_merge(c, below, f);
                let merge = if by_guard is Some {
                    by_guard
                } else if self.graph.frontier_has(f.then_entry, f.else_entry) || self.graph.frontier_has(
                    f.else_entry,
                    f.then_entry,
                ) {
                    None
                } else {
                    soft_merge(self.cfg, self.graph, f.header, f.then_entry, f.else_entry)
                };
                match merge {
                    Some(m) => if c.blocks@.contains(m) || c.body_scope_blocks@.contains(m) {
                        Some(two_arms(f.header, f.then_entry, f.else_entry, merge))
                    } else {
                        None
                    },
                    None => None,
                }
            },
            None => None,
        }
    }

    /// The first refinement of a candidate, seen among all candidates.
    pub open spec fn iteration_refined(&self, list: Seq<BranchCandidate>, c: BranchCandidate) -> BranchCandidate {
        match self.escape_prefix(list, &c) {
            Some(r) => r,
            None => if c.else_entry is None && c.merge is Some {
                match (branch_at(list, c.merge->0), fork_of(self.cfg, c.header)) {
                    (Some(below), Some(f)) => match self.iteration_merge(f, &below) {
                        Some(r) => r,
                        None => c,
                    },
                    _ => c,
                }
            } else {
                c
            },
        }
    }

    /// Two arms without a merge become one arm where only one of them joins, at the other.
    pub open spec fn terminal_refined(&self, c: BranchCandidate, irreducible: bool) -> BranchCandidate {
        if c.kind == BranchKind::IfElse && c.merge is None && !irreducible {
            match fork_of(self.cfg, c.header) {
                Some(f) => match one_arm(
                    f.header,
                    f.then_entry,
                    f.else_entry,
                    self.local_join(f.then_entry, f.else_entry),
                    self.local_join(f.else_entry, f.then_entry),
                    BranchKind::IfThen,
                ) {
                    Some(r) => r,
                    None => c,
                },
                None => c,
            }
        } else {
            c
        }
    }

    fn is_prefix_guard(
        &self,
        list: &Vec<BranchCandidate>,
        outer: &BranchCandidate,
        nested: BlockRef,
        sibling: BlockRef,
        strict: BlockRef,
    ) -> (r: bool)
        requires
            self.wf(),
            branches_wf(self.cfg, list@),
            self.cfg.has_block(nested),
        ensures
            r == self.guards_prefix(list@, outer, nested, sibling, strict),
    {
        let n = match find_branch(list, nested) {
            None => {
                return false;
            },
            Some(n) => n,
        };
        let is_guard = match n.kind {
            BranchKind::Guard => true,
            _ => false,
        };
        if !(is_guard && nested != outer.header && n.else_entry.is_none() && n.merge == Some(sibling) && n.then_entry == strict) {
            return false;
        }
        let none: IdSet<BlockRef> = IdSet::new();
        if self.cfg.unique_reachable_predecessor(nested, &none, true) != Some(outer.header) {
            return false;
        }
        let total = self.loops.len();
        let ghost p = self.prefix_owner(outer.header, nested, sibling, strict);
        let ghost key = scope_size(self.loops@);
        let mut best: Option<usize> = None;
        let mut i: usize = 0;
        while i < total
            invariant
                self.wf(),
                total == self.loops@.len(),
                p == self.prefix_owner(outer.header, nested, sibling, strict),
                key == scope_size(self.loops@),
                i <= total,
                match least_where(i as nat, p, key) {
                    Some(k) => 0 <= k < i && best == Some(k as usize),
                    None => best is None,
                },
            decreases total - i,
        {
            let c = &self.loops[i];
            assert(self.loops@[i as int].wf(self.cfg));
            let takes = c.body_scope_blocks.contains(outer.header) && c.body_scope_blocks.contains(nested)
                && c.body_scope_blocks.contains(sibling) && loop_candidate_owns_endpoint(self.cfg, c, strict);
            assert(p(i as int) == takes);
            if takes {
                let better = match best {
                    None => true,
                    Some(b) => c.body_scope_blocks.len() < self.loops[b].body_scope_blocks.len(),
                };
                if better {
                    best = Some(i);
                }
            }
            i = i + 1;
        }
        match best {
            None => false,
            Some(b) => {
                assert(self.loops@[b as int].wf(self.cfg));
                branch_has_loop_escape_arm(self.proto, self.cfg, &self.loops[b], &n)
            },
        }
    }

    pub fn loop_escape_prefix_refinement(
        &self,
        list: &Vec<BranchCandidate>,
        outer: &BranchCandidate,
    ) -> (r: Option<BranchCandidate>)
        requires
            self.wf(),
            branches_wf(self.cfg, list@),
            branch_wf(self.cfg, outer),
        ensures
            r == self.escape_prefix(list@, outer),
            r is Some ==> branch_wf(self.cfg, &(r->0)),
    {
        let is_if_else = match outer.kind {
            BranchKind::IfElse => true,
            _ => false,
        };
        if !is_if_else {
            return None;
        }
        match (outer.merge, outer.else_entry) {
            (Some(strict), Some(other)) => {
                let t = self.is_prefix_guard(list, outer, outer.then_entry, other, strict);
                let e = self.is_prefix_guard(list, outer, other, outer.then_entry, strict);
                if t && !e {
                    Some(
                        BranchCandidate {
                            header: outer.header,
                            then_entry: outer.then_entry,
                            else_entry: None,
                            merge: Some(other),
                            kind: BranchKind::IfThen,
                            invert_hint: false,
                        },
                    )
                } else if !t && e {
                    Some(
                        BranchCandidate {
                            header: outer.header,
                            then_entry: other,
                            else_entry: None,
                            merge: Some(outer.then_entry),
                            kind: BranchKind::IfThen,
                            invert_hint: true,
                        },
                    )
                } else {
                    None
                }
            },
            _ => None,
        }
    }

    fn below_leaves(&self, c: &LoopCandidate, below: &BranchCandidate) -> (r: bool)
        requires
            self.wf(),
            c.wf(self.cfg),
            branch_wf(self.cfg, below),
        ensures
            r == self.guard_leaves(c, below),
    {
        let is_guard = match below.kind {
            BranchKind::Guard => true,
            _ => false,
        };
        is_guard && below.else_entry.is_none() && branch_has_loop_escape_arm(self.proto, self.cfg, c, below)
    }

    fn find_iteration_merge(&self, f: Fork, below: &BranchCandidate) -> (r: Option<BranchCandidate>)
        requires
            self.wf(),
            self.knows(f),
            branch_wf(self.cfg, below),
        ensures
            r == self.iteration_merge(f, below),
            r is Some ==> branch_wf(self.cfg, &(r->0)),
    {
        let total = self.loops.len();
        let ghost p = self.iteration_owner(f, below);
        let ghost key = core_size(self.loops@);
        let mut best: Option<usize> = None;
        let mut i: usize = 0;
        while i < total
            invariant
                self.wf(),
                self.knows(f),
                branch_wf(self.cfg, below),
                total == self.loops@.len(),
                p == self.iteration_owner(f, below),
                key == core_size(self.loops@),
                i <= total,
                match least_where(i as nat, p, key) {
                    Some(k) => 0 <= k < i && best == Some(k as usize),
                    None => best is None,
                },
            decreases total - i,
        {
            let c = &self.loops[i];
            assert(self.loops@[i as int].wf(self.cfg));
            let takes = c.blocks.contains(f.header) && c.blocks.contains(f.then_entry) && c.blocks.contains(f.else_entry)
                && c.blocks.contains(below.header) && match below.merge {
                Some(m) => c.exits.contains(m) || (self.below_leaves(c, below) && (c.blocks.contains(m)
                    || c.body_scope_blocks.contains(m))),
                None => false,
            };
            assert(p(i as int) == takes);
            if takes {
                let better = match best {
                    None => true,
                    Some(b) => c.blocks.len() < self.loops[b].blocks.len(),
                };
                if better {
                    best = Some(i);
                }
            }
            i = i + 1;
        }
        let b = match best {
            None => {
                return None;
            },
            Some(b) => b,
        };
        let c = &self.loops[b];
        assert(self.loops@[b as int].wf(self.cfg));
        let by_guard = if self.below_leaves(c, below) && (below.merge == Some(f.then_entry) || below.merge == Some(
            f.else_entry,
        )) {
            below.merge
        } else {
            None
        };
        let merge = if by_guard.is_some() {
            by_guard
        } else if self.graph.joins(f.then_entry, f.else_entry) || self.graph.joins(f.else_entry, f.then_entry) {
            None
        } else {
            find_soft_merge(self.cfg, self.graph, f.header, f.then_entry, f.else_entry)
        };
        match merge {
            Some(m) => if c.blocks.contains(m) || c.body_scope_blocks.contains(m) {
                Some(
                    BranchCandidate {
                        header: f.header,
                        then_entry: f.then_entry,
                        else_entry: Some(f.else_entry),
                        merge: Some(m),
                        kind: BranchKind::IfElse,
                        invert_hint: false,
                    },
                )
            } else {
                None
            },
            None => None,
        }
    }

    fn refine_iteration(&self, list: &Vec<BranchCandidate>, c: BranchCandidate) -> (r: BranchCandidate)
        requires
            self.wf(),
            branches_wf(self.cfg, list@),
            branch_wf(self.cfg, &c),
        ensures
            r == self.iteration_refined(list@, c),
            r.header == c.header,
            branch_wf(self.cfg, &r),
    {
        if let Some(r) = self.loop_escape_prefix_refinement(list, &c) {
            return r;
        }
        if c.else_entry.is_some() {
            return c;
        }
        let m = match c.merge {
            None => {
                return c;
            },
            Some(m) => m,
        };
        let below = find_branch(list, m);
        let fork = find_fork(self.cfg, c.header);
        match (below, fork) {
            (Some(below), Some(f)) => {
                assert(branch_wf(self.cfg, &below)) by {
                    let i = choose|i: int| 0 <= i < list@.len() && list@[i] == below;
                    assert(branch_wf(self.cfg, &list@[i]));
                }
                match self.find_iteration_merge(f, &below) {
                    Some(r) => r,
                    None => c,
                }
            },
            _ => c,
        }
    }

    fn refine_terminal(&self, c: BranchCandidate, irreducible: bool) -> (r: BranchCandidate)
        requires
            self.wf(),
            branch_wf(self.cfg, &c),
        ensures
            r == self.terminal_refined(c, irreducible),
            r.header == c.header,
            branch_wf(self.cfg, &r),
    {
        let is_if_else = match c.kind {
            BranchKind::IfElse => true,
            _ => false,
        };
        if !is_if_else || c.merge.is_some() || irreducible {
            return c;
        }
        match find_fork(self.cfg, c.header) {
            None => c,
            Some(f) => {
                let t = self.has_single_local_join(f.then_entry, f.else_entry);
                let e = self.has_single_local_join(f.else_entry, f.then_entry);
                if t && !e {
                    BranchCandidate {
                        header: f.header,
                        then_entry: f.then_entry,
                        else_entry: None,
                        merge: Some(f.else_entry),
                        kind: BranchKind::IfThen,
                        invert_hint: false,
                    }
                } else if !t && e {
                    BranchCandidate {
                        header: f.header,
                        then_entry: f.else_entry,
                        else_entry: None,
                        merge: Some(f.then_entry),
                        kind: BranchKind::IfThen,
                        invert_hint: true,
                    }
                } else {
                    c
                }
            },
        }
    }

    /// Every candidate after its first refinement.
    pub open spec fn all_iteration_refined(&self, list: Seq<BranchCandidate>) -> Seq<BranchCandidate> {
        Seq::new(list.len(), |i: int| self.iteration_refined(list, list[i]))
    }

    pub open spec fn all_terminal_refined(
        &self,
        list: Seq<BranchCandidate>,
        irreducible: Set<BlockRef>,
    ) -> Seq<BranchCandidate> {
        Seq::new(list.len(), |i: int| self.terminal_refined(list[i], irreducible.contains(list[i].header)))
    }

    pub fn refine_loop_iteration_if_else_branches(&self, list: &Vec<BranchCandidate>) -> (r: Vec<BranchCandidate>)
        requires
            self.wf(),
            branches_wf(self.cfg, list@),
        ensures
            r@ == self.all_iteration_refined(list@),
            branches_wf(self.cfg, r@),
            forall|i: int| 0 <= i < r@.len() ==> (#[trigger] r@[i]).header == list@[i].header,
    {
        let n = list.len();
        let mut r: Vec<BranchCandidate> = Vec::new();
        let mut i: usize = 0;
        while i < n
            invariant
                self.wf(),
                branches_wf(self.cfg, list@),
                n == list@.len(),
                i <= n,
                r@.len() == i,
                forall|j: int| 0 <= j < i ==> #[trigger] r@[j] == self.iteration_refined(list@, list@[j]) && r@[j].header
                    == list@[j].header && branch_wf(self.cfg, &r@[j]),
            decreases n - i,
        {
            assert(branch_wf(self.cfg, &list@[i as int]));
            r.push(self.refine_iteration(list, list[i]));
            i = i + 1;
        }
        proof {
            assert(r@ =~= self.all_iteration_refined(list@));
            assert forall|i: int, j: int| 0 <= i < j < r@.len() implies (#[trigger] r@[i]).header != (#[trigger] r@[j]).header by {
                assert(list@[i].header != list@[j].header);
            }
        }
        r
    }

    pub fn refine_terminal_one_arm_branches(
        &self,
        list: &Vec<BranchCandidate>,
        irreducible: &IdSet<BlockRef>,
    ) -> (r: Vec<BranchCandidate>)
        requires
            self.wf(),
            branches_wf(self.cfg, list@),
        ensures
            r@ == self.all_terminal_refined(list@, irreducible@),
            branches_wf(self.cfg, r@),
            forall|i: int| 0 <= i < r@.len() ==> (#[trigger] r@[i]).header == list@[i].header,
    {
        let n = list.len();
        let mut r: Vec<BranchCandidate> = Vec::new();
        let mut i: usize = 0;
        while i < n
            invariant
                self.wf(),
                branches_wf(self.cfg, list@),
                n == list@.len(),
                i <= n,
                r@.len() == i,
                forall|j: int| 0 <= j < i ==> #[trigger] r@[j] == self.terminal_refined(
                    list@[j],
                    irreducible@.contains(list@[j].header),
                ) && r@[j].header == list@[j].header && branch_wf(self.cfg, &r@[j]),
            decreases n - i,
        {
            assert(branch_wf(self.cfg, &list@[i as int]));
            let c = list[i];
            r.push(self.refine_terminal(c, irreducible.contains(c.header)));
            i = i + 1;
        }
        proof {
            assert(r@ =~= self.all_terminal_refined(list@, irreducible@));
            assert forall|i: int, j: int| 0 <= i < j < r@.len() implies (#[trigger] r@[i]).header != (#[trigger] r@[j]).header by {
                assert(list@[i].header != list@[j].header);
            }
        }
        r
    }
}

} // verus!
