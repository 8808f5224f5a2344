//! The edges that end an iteration early.

use vstd::prelude::*;

use crate::branch_values::branch_wf;
use crate::branches::{loops_wf, starts_backedge};
use crate::cfg::Cfg;
use crate::evidence::{BranchCandidate, BranchKind, LoopCandidate, LoopKindHint};
use crate::graph::GraphFacts;
use crate::helpers::{block_has_non_control_prefix, block_jumps_to, fits, has_prefix, jumps_to};
use crate::ids::{BlockRef, EdgeRef};
use crate::idset::IdSet;
use crate::lir::LoweredProto;
use crate::loop_values::LoopModel;
use crate::refine::branches_wf;

verus! {

/// What the search for such edges reads.
pub struct ContinueInput<'a> {
    pub proto: &'a LoweredProto,
    pub cfg: &'a Cfg,
    pub graph: &'a GraphFacts,
    pub branches: &'a Vec<BranchCandidate>,
}

/// The block holds nothing but a jump to `target`.
pub open spec fn only_jumps_to(proto: &LoweredProto, cfg: &Cfg, b: BlockRef, target: BlockRef) -> bool {
    cfg.range(b).len == 1 && jumps_to(proto, cfg, b, target)
}

pub fn jump_only_to(proto: &LoweredProto, cfg: &Cfg, block: BlockRef, target: BlockRef) -> (r: bool)
    requires
        fits(proto, cfg),
        cfg.has_block(block),
    ensures
        r == only_jumps_to(proto, cfg, block, target),
{
    cfg.blocks[block.0].instrs.len == 1 && block_jumps_to(proto, cfg, block, target)
}

/// The latch of a numeric `for` holds the end of the body.
pub open spec fn latch_has_tail(proto: &LoweredProto, cfg: &Cfg, c: &LoopCandidate) -> bool {
    c.kind_hint == LoopKindHint::NumericForLike && c.continue_target is Some && has_prefix(proto, cfg, c.continue_target->0)
}

pub fn numeric_continue_target_carries_body_tail(proto: &LoweredProto, cfg: &Cfg, c: &LoopCandidate) -> (r: bool)
    requires
        fits(proto, cfg),
        c.wf(cfg),
    ensures
        r == latch_has_tail(proto, cfg, c),
{
    let is_numeric = match c.kind_hint {
        LoopKindHint::NumericForLike => true,
        _ => false,
    };
    is_numeric && match c.continue_target {
        Some(t) => block_has_non_control_prefix(proto, cfg, t),
        None => false,
    }
}

/// The edge by which a straight path from `current` reaches `target`, if it does so inside the
/// loop and before `merge`; at most `fuel` blocks are passed.
pub open spec fn straight_edge(
    cfg: &Cfg,
    blocks: Set<BlockRef>,
    merge: Option<BlockRef>,
    target: BlockRef,
    current: BlockRef,
    visited: Seq<BlockRef>,
    fuel: nat,
) -> Option<EdgeRef>
    decreases fuel,
{
    if fuel == 0 || current == target || merge == Some(current) || visited.contains(current) || !blocks.contains(current)
        || cfg.out_edges(current).len() != 1 {
        None
    } else {
        let e = cfg.out_edges(current)[0];
        if cfg.edge(e).to == target {
            Some(e)
        } else {
            straight_edge(cfg, blocks, merge, target, cfg.edge(e).to, visited.push(current), (fuel - 1) as nat)
        }
    }
}

/// The edge by which an arm without forks goes on to the next iteration; where the merge is
/// the continue target itself, the arm simply ends.
pub open spec fn linear_edge(
    cfg: &Cfg,
    blocks: Set<BlockRef>,
    start: BlockRef,
    merge: Option<BlockRef>,
    target: BlockRef,
) -> Option<EdgeRef> {
    if merge == Some(target) {
        None
    } else {
        straight_edge(cfg, blocks, merge, target, start, Seq::empty(), cfg.blocks@.len() + 1)
    }
}

proof fn visited_bound(cfg: &Cfg, visited: Seq<BlockRef>)
    requires
        visited.no_duplicates(),
        forall|i: int| 0 <= i < visited.len() ==> cfg.has_block(#[trigger] visited[i]),
    ensures
        visited.len() <= cfg.blocks@.len(),
{
    let n = cfg.blocks@.len();
    let ints = visited.map_values(|b: BlockRef| b.0 as int);
    assert(ints.no_duplicates()) by {
        assert forall|i: int, j: int| 0 <= i < ints.len() && 0 <= j < ints.len() && i != j implies ints[i] != ints[j] by {
            assert(visited[i] != visited[j]);
        }
    }
    ints.unique_seq_to_set();
    let range = vstd::set_lib::set_int_range(0, n as int);
    vstd::set_lib::lemma_int_range(0, n as int);
    assert(ints.to_set().subset_of(range)) by {
        assert forall|x: int| ints.to_set().contains(x) implies range.contains(x) by {
            let i = choose|i: int| 0 <= i < ints.len() && ints[i] == x;
            assert(cfg.has_block(visited[i]));
        }
    }
    vstd::set_lib::lemma_len_subset(ints.to_set(), range);
}

fn was_visited(visited: &Vec<BlockRef>, b: BlockRef) -> (r: bool)
    ensures
        r == visited@.contains(b),
{
    let n = visited.len();
    let mut i: usize = 0;
    while i < n
        invariant
            n == visited@.len(),
            i <= n,
            forall|j: int| 0 <= j < i ==> visited@[j] != b,
        decreases n - i,
    {
        if visited[i] == b {
            assert(visited@[i as int] == b);
            return true;
        }
        i = i + 1;
    }
    false
}

pub fn linear_arm_continue_edge(
    cfg: &Cfg,
    blocks: &IdSet<BlockRef>,
    start: BlockRef,
    merge: Option<BlockRef>,
    target: BlockRef,
) -> (r: Option<EdgeRef>)
    requires
        cfg.adjacency_wf(),
        cfg.has_block(start),
    ensures
        r == linear_edge(cfg, blocks@, start, merge, target),
{
    if merge == Some(target) {
        return None;
    }
    let mut current = start;
    let mut visited: Vec<BlockRef> = Vec::new();
    let ghost mut fuel: nat = cfg.blocks@.len() + 1;
    while current != target && merge != Some(current) && !was_visited(&visited, current)
        invariant
            cfg.adjacency_wf(),
            cfg.has_block(current),
            visited@.no_duplicates(),
            forall|i: int| 0 <= i < visited@.len() ==> cfg.has_block(#[trigger] visited@[i]),
            fuel + visited@.len() == cfg.blocks@.len() + 1,
            merge != Some(target),
            linear_edge(cfg, blocks@, start, merge, target) == straight_edge(
                cfg,
                blocks@,
                merge,
                target,
                current,
                visited@,
                fuel,
            ),
        decreases fuel,
    {
        proof {
            visited_bound(cfg, visited@);
        }
        if !blocks.contains(current) || cfg.succs[current.0].len() != 1 {
            return None;
        }
        let e = cfg.succs[current.0][0];
        assert(e == cfg.out_edges(current)[0]);
        let to = cfg.edges[e.0].to;
        assert(cfg.has_edge(e));
        if to == target {
            return Some(e);
        }
        visited.push(current);
        proof {
            fuel = (fuel - 1) as nat;
        }
        current = to;
    }
    None
}

impl<'a> ContinueInput<'a> {
    pub open spec fn wf(&self) -> bool {
        fits(self.proto, self.cfg) && self.graph.sized(self.cfg) && branches_wf(self.cfg, self.branches@)
    }

    /// At `entry` the next iteration of the loop begins: at the continue target, or at a back
    /// edge's source that only jumps there.
    pub open spec fn restarts_at(&self, c: &LoopCandidate, entry: BlockRef) -> bool {
        !latch_has_tail(self.proto, self.cfg, c) && c.continue_target is Some && (c.continue_target == Some(entry) || (
        c.backedge_from(self.cfg, entry) && only_jumps_to(self.proto, self.cfg, entry, c.continue_target->0)))
    }

    /// The edge out of the branch may end an iteration of the loop.
    pub open spec fn eligible(&self, c: &LoopCandidate, b: &BranchCandidate, e: EdgeRef) -> bool {
        let to = self.cfg.edge(e).to;
        &&& self.restarts_at(c, to)
        &&& c.kind_hint != LoopKindHint::RepeatLike
        &&& c.continue_target != Some(b.header)
        &&& c.blocks@.contains(b.header)
        &&& !c.backedges@.contains(e) || (b.kind == BranchKind::Guard && b.then_entry == to && b.merge != Some(to))
    }

    /// Loop `i` is strictly smaller than loop `j`.
    pub open spec fn tighter(loops: Seq<LoopCandidate>, i: int, j: int) -> bool {
        let a = &loops[i];
        let b = &loops[j];
        a.body_scope_blocks@.len() < b.body_scope_blocks@.len() || (a.body_scope_blocks@.len() == b.body_scope_blocks@.len()
            && a.blocks@.len() < b.blocks@.len())
    }

    /// Loop `i` is the one loop whose iteration the edge ends: of those that are eligible, the
    /// strictly smallest.
    pub open spec fn arm_claim(&self, loops: Seq<LoopCandidate>, i: int, b: &BranchCandidate, e: EdgeRef) -> bool {
        &&& self.eligible(&loops[i], b, e)
        &&& forall|j: int| 0 <= j < loops.len() && j != i && #[trigger] self.eligible(&loops[j], b, e) ==> Self::tighter(loops, i, j)
    }

    /// The arm that starts at `entry` goes straight on to the loop's next iteration by `e`.
    pub open spec fn straight_claim(&self, c: &LoopCandidate, entry: BlockRef, merge: Option<BlockRef>, e: EdgeRef) -> bool {
        &&& c.kind_hint != LoopKindHint::RepeatLike
        &&& !latch_has_tail(self.proto, self.cfg, c)
        &&& c.blocks@.contains(entry)
        &&& c.continue_target is Some
        &&& linear_edge(self.cfg, c.blocks@, entry, merge, c.continue_target->0) == Some(e)
    }

    /// The path behind a guard goes straight on to the next iteration.
    pub open spec fn guard_claim(&self, c: &LoopCandidate, b: &BranchCandidate, e: EdgeRef) -> bool {
        b.kind == BranchKind::Guard && match b.merge {
            Some(m) => m != b.then_entry && !self.graph.frontier_has(b.then_entry, m) && c.backedges@.len() >= 2
                && c.blocks@.contains(b.then_entry) && self.straight_claim(c, m, None, e),
            None => false,
        }
    }

    /// The branch ends an iteration of loop `i` by edge `e`.
    pub open spec fn claims(&self, loops: Seq<LoopCandidate>, i: int, b: &BranchCandidate, e: EdgeRef) -> bool {
        match self.cfg.branch_edges_of(b.header) {
            Some((t, f)) => self.cfg.edge(t).to != self.cfg.edge(f).to && (((e == t || e == f) && self.arm_claim(loops, i, b, e)) || (
            b.else_entry is None && loops[i].blocks@.contains(b.header) && (self.straight_claim(
                &loops[i],
                b.then_entry,
                b.merge,
                e,
            ) || self.guard_claim(&loops[i], b, e)))),
            None => false,
        }
    }

    /// Some branch ends an iteration of loop `i` by edge `e`.
    pub open spec fn ends_iteration(&self, loops: Seq<LoopCandidate>, i: int, e: EdgeRef) -> bool {
        exists|k: int| 0 <= k < self.branches@.len() && self.claims(loops, i, &(#[trigger] self.branches@[k]), e)
    }

    fn check_restarts(&self, c: &LoopCandidate, entry: BlockRef) -> (r: bool)
        requires
            self.wf(),
            c.wf(self.cfg),
            self.cfg.has_block(entry),
        ensures
            r == self.restarts_at(c, entry),
    {
        if numeric_continue_target_carries_body_tail(self.proto, self.cfg, c) {
            return false;
        }
        match c.continue_target {
            None => false,
            Some(t) => t == entry || (starts_backedge(self.cfg, c, entry) && jump_only_to(
                self.proto,
                self.cfg,
                entry,
                t,
            )),
        }
    }

    fn check_eligible(&self, c: &LoopCandidate, b: &BranchCandidate, e: EdgeRef) -> (r: bool)
        requires
            self.wf(),
            c.wf(self.cfg),
            self.cfg.has_edge(e),
        ensures
            r == self.eligible(c, b, e),
    {
        let to = self.cfg.edges[e.0].to;
        let is_repeat = match c.kind_hint {
            LoopKindHint::RepeatLike => true,
            _ => false,
        };
        if is_repeat || c.continue_target == Some(b.header) || !c.blocks.contains(b.header) || !self.check_restarts(c, to) {
            return false;
        }
        let is_guard = match b.kind {
            BranchKind::Guard => true,
            _ => false,
        };
        !has_edge(&c.backedges, e) || (is_guard && b.then_entry == to && b.merge != Some(to))
    }

    fn check_arm_claim(&self, loops: &Vec<LoopCandidate>, i: usize, b: &BranchCandidate, e: EdgeRef) -> (r: bool)
        requires
            self.wf(),
            loops_wf(self.cfg, loops@),
            i < loops@.len(),
            self.cfg.has_edge(e),
        ensures
            r == self.arm_claim(loops@, i as int, b, e),
    {
        assert(loops@[i as int].wf(self.cfg));
        if !self.check_eligible(&loops[i], b, e) {
            return false;
        }
        let n = loops.len();
        let scope = loops[i].body_scope_blocks.len();
        let core = loops[i].blocks.len();
        let mut j: usize = 0;
        while j < n
            invariant
                self.wf(),
                loops_wf(self.cfg, loops@),
                i < n,
                n == loops@.len(),
                self.cfg.has_edge(e),
                scope == loops@[i as int].body_scope_blocks@.len(),
                core == loops@[i as int].blocks@.len(),
                j <= n,
                forall|k: int| 0 <= k < j && k != i && #[trigger] self.eligible(&loops@[k], b, e) ==> Self::tighter(loops@, i as int, k),
            decreases n - j,
        {
            assert(loops@[j as int].wf(self.cfg));
            if j != i && self.check_eligible(&loops[j], b, e) {
                let other_scope = loops[j].body_scope_blocks.len();
                let other_core = loops[j].blocks.len();
                if !(scope < other_scope || (scope == other_scope && core < other_core)) {
                    assert(!Self::tighter(loops@, i as int, j as int));
                    return false;
                }
            }
            j = j + 1;
        }
        true
    }

    fn straight_claim_edge(&self, c: &LoopCandidate, entry: BlockRef, merge: Option<BlockRef>) -> (r: Option<EdgeRef>)
        requires
            self.wf(),
            c.wf(self.cfg),
            self.cfg.has_block(entry),
        ensures
            forall|e: EdgeRef| r == Some(e) <==> #[trigger] self.straight_claim(c, entry, merge, e),
    {
        let is_repeat = match c.kind_hint {
            LoopKindHint::RepeatLike => true,
            _ => false,
        };
        if is_repeat || numeric_continue_target_carries_body_tail(self.proto, self.cfg, c) || !c.blocks.contains(entry) {
            return None;
        }
        match c.continue_target {
            None => None,
            Some(t) => linear_arm_continue_edge(self.cfg, &c.blocks, entry, merge, t),
        }
    }

    /// Adds the edges by which branch `b` ends an iteration of loop `i`.
    fn add_claims(&self, loops: &Vec<LoopCandidate>, i: usize, b: &BranchCandidate, edges: &mut IdSet<EdgeRef>)
        requires
            self.wf(),
            loops_wf(self.cfg, loops@),
            i < loops@.len(),
            branch_wf(self.cfg, b),
        ensures
            forall|e: EdgeRef| #[trigger] final(edges)@.contains(e) <==> old(edges)@.contains(e) || self.claims(loops@, i as int, b, e),
    {
        let (t, f) = match self.cfg.branch_edges(b.header) {
            None => {
                return;
            },
            Some(pair) => pair,
        };
        if self.cfg.edges[t.0].to == self.cfg.edges[f.0].to {
            return;
        }
        let by_then = self.check_arm_claim(loops, i, b, t);
        let by_else = self.check_arm_claim(loops, i, b, f);
        if by_then {
            edges.insert(t);
        }
        if by_else {
            edges.insert(f);
        }
        assert(loops@[i as int].wf(self.cfg));
        let c = &loops[i];
        if b.else_entry.is_some() || !c.blocks.contains(b.header) {
            return;
        }
        let straight = self.straight_claim_edge(c, b.then_entry, b.merge);
        if let Some(e) = straight {
            edges.insert(e);
        }
        let is_guard = match b.kind {
            BranchKind::Guard => true,
            _ => false,
        };
        let behind = match b.merge {
            Some(m) => if is_guard && m != b.then_entry && !self.graph.joins(b.then_entry, m) && c.backedges.len() >= 2
                && c.blocks.contains(b.then_entry) {
                self.straight_claim_edge(c, m, None)
            } else {
                None
            },
            None => None,
        };
        if let Some(e) = behind {
            edges.insert(e);
        }
        proof {
            assert forall|e: EdgeRef| #[trigger] edges@.contains(e) <==> old(edges)@.contains(e) || self.claims(loops@, i as int, b, e) by {
                assert(straight == Some(e) <==> self.straight_claim(c, b.then_entry, b.merge, e));
                if b.merge is Some {
                    assert(behind == Some(e) <==> self.guard_claim(c, b, e));
                }
            }
        }
    }

    fn collect_claims(&self, loops: &Vec<LoopCandidate>, i: usize) -> (r: IdSet<EdgeRef>)
        requires
            self.wf(),
            loops_wf(self.cfg, loops@),
            i < loops@.len(),
        ensures
            forall|e: EdgeRef| #[trigger] r@.contains(e) <==> self.ends_iteration(loops@, i as int, e),
    {
        let n = self.branches.len();
        let mut r: IdSet<EdgeRef> = IdSet::new();
        let mut k: usize = 0;
        while k < n
            invariant
                self.wf(),
                loops_wf(self.cfg, loops@),
                i < loops@.len(),
                n == self.branches@.len(),
                k <= n,
                forall|e: EdgeRef| #[trigger] r@.contains(e) <==> exists|q: int| 0 <= q < k && self.claims(loops@, i as int, &(#[trigger] self.branches@[q]), e),
            decreases n - k,
        {
            let ghost before = r@;
            assert(branch_wf(self.cfg, &self.branches@[k as int]));
            self.add_claims(loops, i, &self.branches[k], &mut r);
            proof {
                assert forall|e: EdgeRef| #[trigger] r@.contains(e) <==> exists|q: int| 0 <= q < k + 1 && self.claims(loops@, i as int, &(#[trigger] self.branches@[q]), e) by {
                    if before.contains(e) {
                        let q = choose|q: int| 0 <= q < k && self.claims(loops@, i as int, &(#[trigger] self.branches@[q]), e);
                        assert(self.claims(loops@, i as int, &self.branches@[q], e));
                    }
                    if exists|q: int| 0 <= q < k + 1 && self.claims(loops@, i as int, &(#[trigger] self.branches@[q]), e) {
                        let q = choose|q: int| 0 <= q < k + 1 && self.claims(loops@, i as int, &(#[trigger] self.branches@[q]), e);
                        if q < k {
                            assert(before.contains(e));
                        }
                    }
                    if r@.contains(e) && !before.contains(e) {
                        assert(self.claims(loops@, i as int, &self.branches@[k as int], e));
                    }
                }
            }
            k = k + 1;
        }
        r
    }
}

pub fn has_edge(edges: &Vec<EdgeRef>, e: EdgeRef) -> (r: bool)
    ensures
        r == edges@.contains(e),
{
    let n = edges.len();
    let mut i: usize = 0;
    while i < n
        invariant
            n == edges@.len(),
            i <= n,
            forall|j: int| 0 <= j < i ==> edges@[j] != e,
        decreases n - i,
    {
        if edges[i] == e {
            assert(edges@[i as int] == e);
            return true;
        }
        i = i + 1;
    }
    false
}

/// The loops are the same but for the edges that end their iterations.
pub open spec fn gains_edges(a: &LoopCandidate, b: &LoopCandidate, added: Set<EdgeRef>) -> bool {
    &&& b@.continue_edges == a@.continue_edges.union(added)
    &&& b@ == (LoopModel { continue_edges: b@.continue_edges, ..a@ })
}

/// Gives every loop the edges by which branches end its iterations.
pub fn assign_continue_edge_ownership(input: &ContinueInput, loops: Vec<LoopCandidate>) -> (r: Vec<LoopCandidate>)
    requires
        input.wf(),
        loops_wf(input.cfg, loops@),
    ensures
        r@.len() == loops@.len(),
        loops_wf(input.cfg, r@),
        forall|i: int| 0 <= i < r@.len() ==> gains_edges(
            &loops@[i],
            &(#[trigger] r@[i]),
            Set::new(|e: EdgeRef| input.ends_iteration(loops@, i, e)),
        ),
{
    let n = loops.len();
    let mut added: Vec<IdSet<EdgeRef>> = Vec::new();
    let mut i: usize = 0;
    while i < n
        invariant
            input.wf(),
            loops_wf(input.cfg, loops@),
            n == loops@.len(),
            i <= n,
            added@.len() == i,
            forall|k: int, e: EdgeRef| 0 <= k < i ==> (#[trigger] added@[k]@.contains(e) <==> input.ends_iteration(loops@, k, e)),
        decreases n - i,
    {
        let ghost before = added@;
        let set = input.collect_claims(&loops, i);
        added.push(set);
        assert forall|k: int, e: EdgeRef| 0 <= k < i + 1 implies (#[trigger] added@[k]@.contains(e) <==> input.ends_iteration(loops@, k, e)) by {
            if k < i {
                assert(added@[k] == before[k]);
                assert(before[k]@.contains(e) <==> input.ends_iteration(loops@, k, e));
            }
        }
        i = i + 1;
    }
    let mut r = loops;
    let mut k: usize = 0;
    while k < n
        invariant
            n == r@.len(),
            n == loops@.len(),
            added@.len() == n,
            k <= n,
            loops_wf(input.cfg, r@),
            forall|k: int, e: EdgeRef| 0 <= k < n ==> (#[trigger] added@[k]@.contains(e) <==> input.ends_iteration(loops@, k, e)),
            forall|q: int| 0 <= q < k ==> gains_edges(
                &loops@[q],
                &(#[trigger] r@[q]),
                Set::new(|e: EdgeRef| input.ends_iteration(loops@, q, e)),
            ),
            forall|q: int| k <= q < n ==> #[trigger] r@[q] == loops@[q],
        decreases n - k,
    {
        let mut edges = r[k].continue_edges.clone();
        edges.extend(&added[k]);
        r[k].continue_edges = edges;
        proof {
            assert(edges@ =~= loops@[k as int].continue_edges@.union(
                Set::new(|e: EdgeRef| input.ends_iteration(loops@, k as int, e)),
            ));
        }
        k = k + 1;
    }
    r
}

impl<'a> ContinueInput<'a> {
    /// By an edge out of a branch at most one loop ends its iteration.
    pub proof fn arms_end_one_iteration(&self, loops: Seq<LoopCandidate>, i: int, j: int, b: &BranchCandidate, e: EdgeRef)
        requires
            0 <= i < loops.len(),
            0 <= j < loops.len(),
            self.arm_claim(loops, i, b, e),
            self.arm_claim(loops, j, b, e),
        ensures
            i == j,
    {
        if i != j {
            assert(self.eligible(&loops[j], b, e) && self.eligible(&loops[i], b, e));
            assert(Self::tighter(loops, i, j));
            assert(Self::tighter(loops, j, i));
        }
    }
}

} // verus!
