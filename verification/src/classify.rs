//! The kinds of branches, tried from the most specific to the most general.

use vstd::prelude::*;

use crate::branches::{
    arm, breaks_at, continues_at, core_size, exits_to, find_soft_merge, for_body_entry,
    for_exit_owner, for_loop_body_entry, for_loop_exit_owner, jump_pad, loop_break_entry,
    loop_candidate_owns_endpoint, loop_exits_at, loop_iteration_escape_entry, loops_wf, one_arm,
    scope_size, soft_merge, starts_backedge, transparent_jump_target, two_arms,
};
use crate::cfg::Cfg;
use crate::evidence::{BranchCandidate, BranchKind, LoopCandidate, LoopKindHint};
use crate::graph::GraphFacts;
use crate::helpers::fits;
use crate::ids::BlockRef;
use crate::idset::IdSet;
use crate::lir::LoweredProto;
use crate::search::{first_where, first_where_stable, least_where};

verus! {

/// What the classification of a branch reads.
pub struct BranchIndex<'a> {
    pub proto: &'a LoweredProto,
    pub cfg: &'a Cfg,
    pub graph: &'a GraphFacts,
    pub loops: &'a Vec<LoopCandidate>,
    /// The headers of the loops.
    pub loop_headers: IdSet<BlockRef>,
}

/// A branch under classification: its header and its two targets.
#[derive(Debug, Clone, Copy, PartialEq, Eq, Structural)]
pub struct Fork {
    pub header: BlockRef,
    pub then_entry: BlockRef,
    pub else_entry: BlockRef,
}

/// Some loop has header `b`.
pub open spec fn heads_loop(loops: Seq<LoopCandidate>, b: BlockRef) -> bool {
    exists|i: int| 0 <= i < loops.len() && (#[trigger] loops[i]).header == b
}

impl<'a> BranchIndex<'a> {
    pub open spec fn wf(&self) -> bool {
        &&& fits(self.proto, self.cfg)
        &&& self.graph.sized(self.cfg)
        &&& loops_wf(self.cfg, self.loops@)
        &&& forall|b: BlockRef| #[trigger] self.loop_headers@.contains(b) <==> heads_loop(self.loops@, b)
    }

    pub fn new(proto: &'a LoweredProto, cfg: &'a Cfg, graph: &'a GraphFacts, loops: &'a Vec<LoopCandidate>) -> (r: Self)
        requires
            fits(proto, cfg),
            graph.sized(cfg),
            loops_wf(cfg, loops@),
        ensures
            r.wf(),
            r.proto == proto,
            r.cfg == cfg,
            r.graph == graph,
            r.loops == loops,
    {
        let n = loops.len();
        let mut loop_headers: IdSet<BlockRef> = IdSet::new();
        let mut i: usize = 0;
        while i < n
            invariant
                n == loops@.len(),
                i <= n,
                forall|b: BlockRef| #[trigger] loop_headers@.contains(b) <==> exists|j: int|
                    0 <= j < i && (#[trigger] loops@[j]).header == b,
            decreases n - i,
        {
            let h = loops[i].header;
            let ghost before = loop_headers@;
            loop_headers.insert(h);
            proof {
                assert(loops@[i as int].header == h);
                assert forall|b: BlockRef| #[trigger] loop_headers@.contains(b) <==> exists|j: int|
                    0 <= j < i + 1 && (#[trigger] loops@[j]).header == b by {
                    if before.contains(b) {
                        let j = choose|j: int| 0 <= j < i && (#[trigger] loops@[j]).header == b;
                        assert(loops@[j].header == b);
                    }
                    if exists|j: int| 0 <= j < i + 1 && (#[trigger] loops@[j]).header == b {
                        let j = choose|j: int| 0 <= j < i + 1 && (#[trigger] loops@[j]).header == b;
                        if j < i {
                            assert(before.contains(b));
                        }
                    }
                }
            }
            i = i + 1;
        }
        BranchIndex { proto, cfg, graph, loops, loop_headers }
    }

    /// `from` joins other paths at `target` and, loop headers and the exit aside, nowhere else.
    pub open spec fn local_join(&self, from: BlockRef, target: BlockRef) -> bool {
        &&& target != self.cfg.exit_block
        &&& self.graph.frontier_has(from, target)
        &&& forall|y: BlockRef| #[trigger]
            self.graph.frontier_has(from, y) && y != self.cfg.exit_block && !heads_loop(self.loops@, y) ==> y == target
    }

    pub fn has_single_local_join(&self, from: BlockRef, target: BlockRef) -> (r: bool)
        requires
            self.wf(),
        ensures
            r == self.local_join(from, target),
    {
        if target == self.cfg.exit_block || !self.graph.joins(from, target) {
            return false;
        }
        let list = self.graph.dominance_frontier_blocks(from);
        let n = list.len();
        let mut i: usize = 0;
        while i < n
            invariant
                self.wf(),
                n == list@.len(),
                i <= n,
                forall|y: BlockRef| #[trigger] list@.contains(y) <==> self.graph.frontier_has(from, y),
                forall|k: int|
                    0 <= k < i && (#[trigger] list@[k]) != self.cfg.exit_block && !heads_loop(self.loops@, list@[k])
                        ==> list@[k] == target,
            decreases n - i,
        {
            let y = list[i];
            assert(list@.contains(y));
            if y != self.cfg.exit_block && y != target && !self.loop_headers.contains(y) {
                assert(self.graph.frontier_has(from, y));
                return false;
            }
            i = i + 1;
        }
        proof {
            assert forall|y: BlockRef| #[trigger]
                self.graph.frontier_has(from, y) && y != self.cfg.exit_block && !heads_loop(self.loops@, y) implies y == target by {
                assert(list@.contains(y));
                let k = choose|k: int| 0 <= k < list@.len() && list@[k] == y;
                assert(list@[k] == y);
            }
        }
        true
    }

    /// Loop `i` holds the branch, and exactly one arm leaves it.
    pub open spec fn break_owner(&self, f: Fork) -> spec_fn(int) -> bool {
        |i: int|
            {
                let c = &self.loops@[i];
                &&& !c.control_blocks@.contains(f.header)
                &&& c.condition_header != Some(f.header)
                &&& c.owns(self.cfg, f.header)
                &&& breaks_at(self.cfg, c, f.then_entry) != breaks_at(self.cfg, c, f.else_entry)
            }
    }

    /// One arm leaves the innermost such loop, the other stays; unless what stays runs into
    /// the way out in any case.
    pub open spec fn break_guard(&self, f: Fork) -> Option<BranchCandidate> {
        match least_where(self.loops@.len(), self.break_owner(f), scope_size(self.loops@)) {
            Some(i) => {
                let then_breaks = breaks_at(self.cfg, &self.loops@[i], f.then_entry);
                let (entry, merge) = if then_breaks {
                    (f.then_entry, f.else_entry)
                } else {
                    (f.else_entry, f.then_entry)
                };
                if self.graph.postdom(entry, merge) {
                    None
                } else {
                    Some(arm(f.header, entry, merge, BranchKind::Guard, !then_breaks))
                }
            },
            None => None,
        }
    }

    /// Loop `i` holds the branch and both arms, and exactly one arm ends the iteration.
    pub open spec fn continue_owner(&self, f: Fork) -> spec_fn(int) -> bool {
        |i: int|
            {
                let c = &self.loops@[i];
                &&& c.owns(self.cfg, f.header)
                &&& c.owns(self.cfg, f.then_entry)
                &&& c.owns(self.cfg, f.else_entry)
                &&& continues_at(self.proto, self.cfg, c, f.then_entry) != continues_at(
                    self.proto,
                    self.cfg,
                    c,
                    f.else_entry,
                )
            }
    }

    /// One arm ends the iteration of the innermost such loop; where the other one only runs
    /// into the same end, it is no guard but the gated rest of the body.
    pub open spec fn continue_guard(&self, f: Fork) -> Option<BranchCandidate> {
        match least_where(self.loops@.len(), self.continue_owner(f), scope_size(self.loops@)) {
            Some(i) => {
                let kind = self.loops@[i].kind_hint;
                let then_continues = continues_at(self.proto, self.cfg, &self.loops@[i], f.then_entry);
                let (entry, merge) = if then_continues {
                    (f.then_entry, f.else_entry)
                } else {
                    (f.else_entry, f.then_entry)
                };
                if (kind == LoopKindHint::WhileLike || kind == LoopKindHint::WhileTrueLike || kind
                    == LoopKindHint::GenericForLike) && self.local_join(merge, entry) {
                    None
                } else {
                    Some(arm(f.header, entry, merge, BranchKind::Guard, !then_continues))
                }
            },
            None => None,
        }
    }

    /// Loop `i` has no exit and holds the whole branch.
    pub open spec fn endless_owner(&self, f: Fork) -> spec_fn(int) -> bool {
        |i: int|
            {
                let c = &self.loops@[i];
                &&& c.exits@ == Set::<BlockRef>::empty()
                &&& c.blocks@.contains(f.header)
                &&& c.blocks@.contains(f.then_entry)
                &&& c.blocks@.contains(f.else_entry)
            }
    }

    /// In a loop without an exit, `from` goes on to `to` before the next iteration.
    pub open spec fn reaches_tail(&self, owner: BlockRef, from: BlockRef, to: BlockRef) -> bool {
        self.graph.postdom(to, from) || (self.local_join(from, to) && !self.graph.frontier_has(from, owner))
    }

    pub open spec fn endless_branch(&self, f: Fork) -> Option<BranchCandidate> {
        match least_where(self.loops@.len(), self.endless_owner(f), core_size(self.loops@)) {
            Some(i) => {
                let c = &self.loops@[i];
                let t = self.reaches_tail(c.header, f.then_entry, f.else_entry);
                let e = self.reaches_tail(c.header, f.else_entry, f.then_entry);
                let local = match soft_merge(self.cfg, self.graph, f.header, f.then_entry, f.else_entry) {
                    Some(m) => if m != f.header && m != c.header && c.blocks@.contains(m) {
                        Some(m)
                    } else {
                        None
                    },
                    None => None,
                };
                if t != e {
                    one_arm(f.header, f.then_entry, f.else_entry, t, e, BranchKind::IfThen)
                } else if t {
                    None
                } else if local is Some {
                    Some(two_arms(f.header, f.then_entry, f.else_entry, local))
                } else if self.graph.frontier_has(f.then_entry, c.header) && self.graph.frontier_has(f.else_entry, c.header) {
                    Some(two_arms(f.header, f.then_entry, f.else_entry, Some(c.header)))
                } else {
                    None
                }
            },
            None => None,
        }
    }

    /// In a `for` loop whose exit is the strict merge: the arm that goes straight there is a
    /// guard; at the head of the body the arms may join softly inside the loop.
    pub open spec fn for_exit_branch(&self, f: Fork) -> Option<BranchCandidate> {
        match self.graph.common_postdom(f.then_entry, f.else_entry) {
            Some(strict) => match least_where(
                self.loops@.len(),
                for_exit_owner(self.cfg, self.loops@, f.header, f.then_entry, f.else_entry, strict),
                scope_size(self.loops@),
            ) {
                Some(i) => {
                    let c = &self.loops@[i];
                    let t = self.cfg.unique_successor(f.then_entry) == Some(strict);
                    let e = self.cfg.unique_successor(f.else_entry) == Some(strict);
                    match for_body_entry(self.cfg, c) {
                        None => None,
                        Some(body) => if t != e {
                            one_arm(f.header, f.then_entry, f.else_entry, t, e, BranchKind::Guard)
                        } else if body == f.header && c.blocks@.contains(f.then_entry) && c.blocks@.contains(f.else_entry) {
                            match soft_merge(self.cfg, self.graph, f.header, f.then_entry, f.else_entry) {
                                Some(m) => if c.body_scope_blocks@.contains(m) {
                                    Some(two_arms(f.header, f.then_entry, f.else_entry, Some(m)))
                                } else {
                                    None
                                },
                                None => None,
                            }
                        } else {
                            None
                        },
                    }
                },
                None => None,
            },
            None => None,
        }
    }

    /// One arm joins the other.
    pub open spec fn bounded_arm(&self, f: Fork) -> Option<BranchCandidate> {
        one_arm(
            f.header,
            f.then_entry,
            f.else_entry,
            self.graph.frontier_has(f.then_entry, f.else_entry),
            self.graph.frontier_has(f.else_entry, f.then_entry),
            BranchKind::IfThen,
        )
    }

    /// `entry` is a jump pad from which loop `i`, which holds the header, is taken back.
    pub open spec fn continue_pad(&self, f: Fork, entry: BlockRef) -> bool {
        jump_pad(self.cfg, entry) is Some && exists|i: int|
            0 <= i < self.loops@.len() && (#[trigger] self.loops@[i]).blocks@.contains(f.header) && self.loops@[i].backedge_from(
                self.cfg,
                entry,
            )
    }

    pub open spec fn near_loop(&self, c: &LoopCandidate, b: BlockRef) -> bool {
        c.body_scope_blocks@.contains(b) || c.blocks@.contains(b) || c.exits@.contains(b)
    }

    pub open spec fn exit_owner(&self, f: Fork, strict: BlockRef) -> spec_fn(int) -> bool {
        |i: int|
            {
                let c = &self.loops@[i];
                &&& c.blocks@.contains(f.header)
                &&& self.near_loop(c, f.then_entry)
                &&& self.near_loop(c, f.else_entry)
                &&& exits_to(self.cfg, c, strict) || strict == self.cfg.exit_block
            }
    }

    pub open spec fn next_iteration(&self, c: &LoopCandidate, b: BlockRef) -> bool {
        b == c.header || self.graph.frontier_has(b, c.header)
    }

    /// In a loop left at the strict merge, an arm that does not go on to the next iteration
    /// is a guard.
    pub open spec fn exit_bounded(&self, f: Fork) -> Option<BranchCandidate> {
        match self.graph.common_postdom(f.then_entry, f.else_entry) {
            Some(strict) => match first_where(self.loops@.len(), self.exit_owner(f, strict)) {
                Some(i) => {
                    let t = self.next_iteration(&self.loops@[i], f.then_entry);
                    let e = self.next_iteration(&self.loops@[i], f.else_entry);
                    if t != e {
                        one_arm(f.header, f.then_entry, f.else_entry, e, t, BranchKind::Guard)
                    } else if self.continue_pad(f, f.then_entry) || self.continue_pad(f, f.else_entry) {
                        None
                    } else {
                        self.bounded_arm(f)
                    }
                },
                None => None,
            },
            None => None,
        }
    }

    pub open spec fn postdom_arm(&self, f: Fork) -> Option<BranchCandidate> {
        one_arm(
            f.header,
            f.then_entry,
            f.else_entry,
            self.graph.postdom(f.else_entry, f.then_entry),
            self.graph.postdom(f.then_entry, f.else_entry),
            BranchKind::IfThen,
        )
    }

    /// By the strict merge; where it is the exit, by the soft merge.
    pub open spec fn if_else(&self, f: Fork) -> Option<BranchCandidate> {
        match self.graph.common_postdom(f.then_entry, f.else_entry) {
            Some(merge) => Some(
                if merge == self.cfg.exit_block {
                    two_arms(
                        f.header,
                        f.then_entry,
                        f.else_entry,
                        soft_merge(self.cfg, self.graph, f.header, f.then_entry, f.else_entry),
                    )
                } else if merge == f.then_entry {
                    arm(f.header, f.else_entry, f.then_entry, BranchKind::IfThen, true)
                } else if merge == f.else_entry {
                    arm(f.header, f.then_entry, f.else_entry, BranchKind::IfThen, false)
                } else {
                    two_arms(f.header, f.then_entry, f.else_entry, Some(merge))
                },
            ),
            None => None,
        }
    }

    /// The first classification that applies; what goes by joins does not apply to a header
    /// in an irreducible region.
    pub open spec fn classified(&self, f: Fork, irreducible: bool) -> BranchCandidate {
        if self.break_guard(f) is Some {
            self.break_guard(f)->0
        } else if self.continue_guard(f) is Some {
            self.continue_guard(f)->0
        } else if self.endless_branch(f) is Some {
            self.endless_branch(f)->0
        } else if self.for_exit_branch(f) is Some {
            self.for_exit_branch(f)->0
        } else if !irreducible && self.exit_bounded(f) is Some {
            self.exit_bounded(f)->0
        } else if !irreducible && self.postdom_arm(f) is Some {
            self.postdom_arm(f)->0
        } else if !irreducible && self.if_else(f) is Some {
            self.if_else(f)->0
        } else if !irreducible && self.bounded_arm(f) is Some {
            self.bounded_arm(f)->0
        } else {
            two_arms(f.header, f.then_entry, f.else_entry, None)
        }
    }

    pub open spec fn knows(&self, f: Fork) -> bool {
        self.cfg.has_block(f.header) && self.cfg.has_block(f.then_entry) && self.cfg.has_block(f.else_entry)
    }

    pub fn classify_loop_break_guard(&self, f: Fork) -> (r: Option<BranchCandidate>)
        requires
            self.wf(),
            self.knows(f),
        ensures
            r == self.break_guard(f),
    {
        let n = self.loops.len();
        let ghost p = self.break_owner(f);
        let ghost key = scope_size(self.loops@);
        let mut best: Option<usize> = None;
        let mut i: usize = 0;
        while i < n
            invariant
                self.wf(),
                self.knows(f),
                n == self.loops@.len(),
                p == self.break_owner(f),
                key == scope_size(self.loops@),
                i <= n,
                match least_where(i as nat, p, key) {
                    Some(k) => 0 <= k < i && best == Some(k as usize),
                    None => best is None,
                },
            decreases n - i,
        {
            let c = &self.loops[i];
            assert(self.loops@[i as int].wf(self.cfg));
            let takes = !c.control_blocks.contains(f.header) && c.condition_header != Some(f.header) && loop_candidate_owns_endpoint(
                self.cfg,
                c,
                f.header,
            ) && loop_break_entry(self.cfg, c, f.then_entry) != loop_break_entry(self.cfg, c, f.else_entry);
            assert(p(i as int) == takes);
            if takes {
                let better = match best {
                    None => true,
                    Some(b) => c.body_scope_blocks.len() < self.loops[b].body_scope_blocks.len(),
                };
                if better {
                    best = Some(i);
                }
            }
            i = i + 1;
        }
        match best {
            None => None,
            Some(b) => {
                let then_breaks = loop_break_entry(self.cfg, &self.loops[b], f.then_entry);
                let (entry, merge) = if then_breaks {
                    (f.then_entry, f.else_entry)
                } else {
                    (f.else_entry, f.then_entry)
                };
                if self.graph.post_dominates(entry, merge) {
                    return None;
                }
                Some(
                    BranchCandidate {
                        header: f.header,
                        then_entry: entry,
                        else_entry: None,
                        merge: Some(merge),
                        kind: BranchKind::Guard,
                        invert_hint: !then_breaks,
                    },
                )
            },
        }
    }

    pub fn classify_loop_continue_guard(&self, f: Fork) -> (r: Option<BranchCandidate>)
        requires
            self.wf(),
            self.knows(f),
        ensures
            r == self.continue_guard(f),
    {
        let n = self.loops.len();
        let ghost p = self.continue_owner(f);
        let ghost key = scope_size(self.loops@);
        let mut best: Option<usize> = None;
        let mut i: usize = 0;
        while i < n
            invariant
                self.wf(),
                self.knows(f),
                n == self.loops@.len(),
                p == self.continue_owner(f),
                key == scope_size(self.loops@),
                i <= n,
                match least_where(i as nat, p, key) {
                    Some(k) => 0 <= k < i && best == Some(k as usize),
                    None => best is None,
                },
            decreases n - i,
        {
            let c = &self.loops[i];
            assert(self.loops@[i as int].wf(self.cfg));
            let takes = loop_candidate_owns_endpoint(self.cfg, c, f.header) && loop_candidate_owns_endpoint(
                self.cfg,
                c,
                f.then_entry,
            ) && loop_candidate_owns_endpoint(self.cfg, c, f.else_entry) && loop_iteration_escape_entry(
                self.proto,
                self.cfg,
                c,
                f.then_entry,
            ) != loop_iteration_escape_entry(self.proto, self.cfg, c, f.else_entry);
            assert(p(i as int) == takes);
            if takes {
                let better = match best {
                    None => true,
                    Some(b) => c.body_scope_blocks.len() < self.loops[b].body_scope_blocks.len(),
                };
                if better {
                    best = Some(i);
                }
            }
            i = i + 1;
        }
        match best {
            None => None,
            Some(b) => {
                assert(self.loops@[b as int].wf(self.cfg));
                let then_continues = loop_iteration_escape_entry(self.proto, self.cfg, &self.loops[b], f.then_entry);
                let (entry, merge) = if then_continues {
                    (f.then_entry, f.else_entry)
                } else {
                    (f.else_entry, f.then_entry)
                };
                let gates = match self.loops[b].kind_hint {
                    LoopKindHint::WhileLike | LoopKindHint::WhileTrueLike | LoopKindHint::GenericForLike => true,
                    _ => false,
                };
                if gates && self.has_single_local_join(merge, entry) {
                    return None;
                }
                Some(
                    BranchCandidate {
                        header: f.header,
                        then_entry: entry,
                        else_entry: None,
                        merge: Some(merge),
                        kind: BranchKind::Guard,
                        invert_hint: !then_continues,
                    },
                )
            },
        }
    }

    fn goes_to_tail(&self, owner: BlockRef, from: BlockRef, to: BlockRef) -> (r: bool)
        requires
            self.wf(),
        ensures
            r == self.reaches_tail(owner, from, to),
    {
        self.graph.post_dominates(to, from) || (self.has_single_local_join(from, to) && !self.graph.joins(from, owner))
    }

    pub fn classify_infinite_loop_bounded_branch(&self, f: Fork) -> (r: Option<BranchCandidate>)
        requires
            self.wf(),
            self.knows(f),
        ensures
            r == self.endless_branch(f),
    {
        let n = self.loops.len();
        let ghost p = self.endless_owner(f);
        let ghost key = core_size(self.loops@);
        let mut best: Option<usize> = None;
        let mut i: usize = 0;
        while i < n
            invariant
                self.wf(),
                n == self.loops@.len(),
                p == self.endless_owner(f),
                key == core_size(self.loops@),
                i <= n,
                match least_where(i as nat, p, key) {
                    Some(k) => 0 <= k < i && best == Some(k as usize),
                    None => best is None,
                },
            decreases n - i,
        {
            let c = &self.loops[i];
            let takes = c.exits.is_empty() && c.blocks.contains(f.header) && c.blocks.contains(f.then_entry)
                && c.blocks.contains(f.else_entry);
            assert(p(i as int) == takes);
            if takes {
                let better = match best {
                    None => true,
                    Some(b) => c.blocks.len() < self.loops[b].blocks.len(),
                };
                if better {
                    best = Some(i);
                }
            }
            i = i + 1;
        }
        let b = match best {
            None => {
                return None;
            },
            Some(b) => b,
        };
        let c = &self.loops[b];
        let t = self.goes_to_tail(c.header, f.then_entry, f.else_entry);
        let e = self.goes_to_tail(c.header, f.else_entry, f.then_entry);
        let local = match find_soft_merge(self.cfg, self.graph, f.header, f.then_entry, f.else_entry) {
            Some(m) => if m != f.header && m != c.header && c.blocks.contains(m) {
                Some(m)
            } else {
                None
            },
            None => None,
        };
        if t && !e {
            Some(one_side(f, BranchKind::IfThen, false))
        } else if !t && e {
            Some(one_side(f, BranchKind::IfThen, true))
        } else if t {
            None
        } else if local.is_some() {
            Some(both_sides(f, local))
        } else if self.graph.joins(f.then_entry, c.header) && self.graph.joins(f.else_entry, c.header) {
            Some(both_sides(f, Some(c.header)))
        } else {
            None
        }
    }

    pub fn classify_for_loop_exit_branch(&self, f: Fork) -> (r: Option<BranchCandidate>)
        requires
            self.wf(),
            self.knows(f),
        ensures
            r == self.for_exit_branch(f),
    {
        let strict = match self.graph.nearest_common_postdom(f.then_entry, f.else_entry) {
            None => {
                return None;
            },
            Some(s) => s,
        };
        let b = match for_loop_exit_owner(self.cfg, self.loops, f.header, f.then_entry, f.else_entry, strict) {
            None => {
                return None;
            },
            Some(b) => b,
        };
        let c = &self.loops[b];
        assert(self.loops@[b as int].wf(self.cfg));
        let body = match for_loop_body_entry(self.cfg, c) {
            None => {
                return None;
            },
            Some(body) => body,
        };
        let t = self.cfg.unique_reachable_successor(f.then_entry) == Some(strict);
        let e = self.cfg.unique_reachable_successor(f.else_entry) == Some(strict);
        if t && !e {
            return Some(one_side(f, BranchKind::Guard, false));
        }
        if !t && e {
            return Some(one_side(f, BranchKind::Guard, true));
        }
        if body == f.header && c.blocks.contains(f.then_entry) && c.blocks.contains(f.else_entry) {
            match find_soft_merge(self.cfg, self.graph, f.header, f.then_entry, f.else_entry) {
                Some(m) => if c.body_scope_blocks.contains(m) {
                    Some(both_sides(f, Some(m)))
                } else {
                    None
                },
                None => None,
            }
        } else {
            None
        }
    }

    pub fn classify_loop_bounded_one_arm_branch(&self, f: Fork) -> (r: Option<BranchCandidate>)
        ensures
            r == self.bounded_arm(f),
    {
        let t = self.graph.joins(f.then_entry, f.else_entry);
        let e = self.graph.joins(f.else_entry, f.then_entry);
        if t && !e {
            Some(one_side(f, BranchKind::IfThen, false))
        } else if !t && e {
            Some(one_side(f, BranchKind::IfThen, true))
        } else {
            None
        }
    }

    fn enters_pad(&self, f: Fork, entry: BlockRef) -> (r: bool)
        requires
            self.wf(),
            self.cfg.has_block(entry),
        ensures
            r == self.continue_pad(f, entry),
    {
        if transparent_jump_target(self.cfg, entry).is_none() {
            return false;
        }
        let n = self.loops.len();
        let mut i: usize = 0;
        while i < n
            invariant
                self.wf(),
                n == self.loops@.len(),
                i <= n,
                jump_pad(self.cfg, entry) is Some,
                forall|j: int|
                    0 <= j < i ==> !((#[trigger] self.loops@[j]).blocks@.contains(f.header) && self.loops@[j].backedge_from(
                        self.cfg,
                        entry,
                    )),
            decreases n - i,
        {
            let c = &self.loops[i];
            assert(self.loops@[i as int].wf(self.cfg));
            if c.blocks.contains(f.header) && starts_backedge(self.cfg, c, entry) {
                return true;
            }
            i = i + 1;
        }
        false
    }

    fn is_near(&self, c: &LoopCandidate, b: BlockRef) -> (r: bool)
        ensures
            r == self.near_loop(c, b),
    {
        c.body_scope_blocks.contains(b) || c.blocks.contains(b) || c.exits.contains(b)
    }

    pub fn classify_loop_exit_bounded_one_arm_branch(&self, f: Fork) -> (r: Option<BranchCandidate>)
        requires
            self.wf(),
            self.knows(f),
        ensures
            r == self.exit_bounded(f),
    {
        let strict = match self.graph.nearest_common_postdom(f.then_entry, f.else_entry) {
            None => {
                return None;
            },
            Some(s) => s,
        };
        let n = self.loops.len();
        let ghost p = self.exit_owner(f, strict);
        let mut i: usize = 0;
        while i < n
            invariant
                self.wf(),
                self.knows(f),
                self.graph.common_postdom(f.then_entry, f.else_entry) == Some(strict),
                n == self.loops@.len(),
                p == self.exit_owner(f, strict),
                i <= n,
                first_where(i as nat, p) is None,
            decreases n - i,
        {
            let c = &self.loops[i];
            assert(self.loops@[i as int].wf(self.cfg));
            let takes = c.blocks.contains(f.header) && self.is_near(c, f.then_entry) && self.is_near(c, f.else_entry) && (
            loop_exits_at(self.cfg, c, strict) || strict == self.cfg.exit_block);
            assert(p(i as int) == takes);
            if takes {
                proof {
                    assert(first_where((i + 1) as nat, p) == Some(i as int));
                    first_where_stable((i + 1) as nat, n as nat, p);
                }
                let t = f.then_entry == c.header || self.graph.joins(f.then_entry, c.header);
                let e = f.else_entry == c.header || self.graph.joins(f.else_entry, c.header);
                if t && !e {
                    return Some(one_side(f, BranchKind::Guard, true));
                }
                if !t && e {
                    return Some(one_side(f, BranchKind::Guard, false));
                }
                if self.enters_pad(f, f.then_entry) || self.enters_pad(f, f.else_entry) {
                    return None;
                }
                return self.classify_loop_bounded_one_arm_branch(f);
            }
            i = i + 1;
        }
        None
    }

    pub fn classify_postdom_one_arm_branch(&self, f: Fork) -> (r: Option<BranchCandidate>)
        ensures
            r == self.postdom_arm(f),
    {
        let t = self.graph.post_dominates(f.else_entry, f.then_entry);
        let e = self.graph.post_dominates(f.then_entry, f.else_entry);
        if t && !e {
            Some(one_side(f, BranchKind::IfThen, false))
        } else if !t && e {
            Some(one_side(f, BranchKind::IfThen, true))
        } else {
            None
        }
    }

    pub fn classify_if_else_branch(&self, f: Fork) -> (r: Option<BranchCandidate>)
        requires
            self.wf(),
        ensures
            r == self.if_else(f),
    {
        match self.graph.nearest_common_postdom(f.then_entry, f.else_entry) {
            None => None,
            Some(merge) => Some(
                if merge == self.cfg.exit_block {
                    both_sides(
                        f,
                        find_soft_merge(self.cfg, self.graph, f.header, f.then_entry, f.else_entry),
                    )
                } else if merge == f.then_entry {
                    one_side(f, BranchKind::IfThen, true)
                } else if merge == f.else_entry {
                    one_side(f, BranchKind::IfThen, false)
                } else {
                    both_sides(f, Some(merge))
                },
            ),
        }
    }

    /// Classifies one branch.
    pub fn classify(&self, f: Fork, irreducible: bool) -> (r: BranchCandidate)
        requires
            self.wf(),
            self.knows(f),
        ensures
            r == self.classified(f, irreducible),
    {
        if let Some(c) = self.classify_loop_break_guard(f) {
            return c;
        }
        if let Some(c) = self.classify_loop_continue_guard(f) {
            return c;
        }
        if let Some(c) = self.classify_infinite_loop_bounded_branch(f) {
            return c;
        }
        if let Some(c) = self.classify_for_loop_exit_branch(f) {
            return c;
        }
        if !irreducible {
            if let Some(c) = self.classify_loop_exit_bounded_one_arm_branch(f) {
                return c;
            }
            if let Some(c) = self.classify_postdom_one_arm_branch(f) {
                return c;
            }
            if let Some(c) = self.classify_if_else_branch(f) {
                return c;
            }
            if let Some(c) = self.classify_loop_bounded_one_arm_branch(f) {
                return c;
            }
        }
        both_sides(f, None)
    }
}

/// The arm on one side; the other entry is the merge.
fn one_side(f: Fork, kind: BranchKind, inverted: bool) -> (r: BranchCandidate)
    ensures
        r == (if inverted {
            arm(f.header, f.else_entry, f.then_entry, kind, true)
        } else {
            arm(f.header, f.then_entry, f.else_entry, kind, false)
        }),
{
    if inverted {
        BranchCandidate {
            header: f.header,
            then_entry: f.else_entry,
            else_entry: None,
            merge: Some(f.then_entry),
            kind,
            invert_hint: true,
        }
    } else {
        BranchCandidate {
            header: f.header,
            then_entry: f.then_entry,
            else_entry: None,
            merge: Some(f.else_entry),
            kind,
            invert_hint: false,
        }
    }
}

fn both_sides(f: Fork, merge: Option<BlockRef>) -> (r: BranchCandidate)
    ensures
        r == two_arms(f.header, f.then_entry, f.else_entry, merge),
{
    BranchCandidate {
        header: f.header,
        then_entry: f.then_entry,
        else_entry: Some(f.else_entry),
        merge,
        kind: BranchKind::IfElse,
        invert_hint: false,
    }
}

} // verus!
