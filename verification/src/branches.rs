//! Classification of two-way branches.
//!
//! A branch is an `if` with one arm, an `if` with two arms, or a guard whose arm leaves the
//! current path for good. What decides is where the arms join: strict post-dominance first
//! where loops do not interfere, otherwise dominance frontiers and the loops around.

use vstd::prelude::*;

use crate::cfg::{Cfg, EdgeKind};
use crate::evidence::{BranchCandidate, BranchKind, LoopCandidate, LoopKindHint};
use crate::forest::up;
use crate::graph::GraphFacts;
use crate::helpers::{
    block_has_non_control_prefix, control_prefix_is_movable, fits, has_prefix, known_blocks,
    movable_prefix,
};
use crate::ids::BlockRef;
use crate::lir::LoweredProto;
use crate::search::{count_where, count_where_monotone, first_where, least_where, only_where};
use crate::tree::{covers_is_ancestry, up_depth};

verus! {

impl LoopCandidate {
    /// Everything that the candidate names exists in the graph.
    pub open spec fn wf(&self, cfg: &Cfg) -> bool {
        &&& cfg.has_block(self.header)
        &&& known_blocks(cfg, self.blocks@)
        &&& known_blocks(cfg, self.body_scope_blocks@)
        &&& known_blocks(cfg, self.control_blocks@)
        &&& known_blocks(cfg, self.exits@)
        &&& self.continue_target is Some ==> cfg.has_block(self.continue_target->0)
        &&& self.preheader is Some ==> cfg.has_block(self.preheader->0)
        &&& self.condition_header is Some ==> cfg.has_block(self.condition_header->0)
        &&& forall|i: int| 0 <= i < self.backedges@.len() ==> cfg.has_edge(#[trigger] self.backedges@[i])
    }

    /// Some back edge of the candidate starts at `b`.
    pub open spec fn backedge_from(&self, cfg: &Cfg, b: BlockRef) -> bool {
        exists|i: int| 0 <= i < self.backedges@.len() && cfg.edge(#[trigger] self.backedges@[i]).from == b
    }

    /// `b` belongs to the loop in any of its roles.
    pub open spec fn owns(&self, cfg: &Cfg, b: BlockRef) -> bool {
        self.body_scope_blocks@.contains(b) || self.blocks@.contains(b) || self.control_blocks@.contains(b)
            || self.continue_target == Some(b) || self.backedge_from(cfg, b)
    }
}

pub open spec fn loops_wf(cfg: &Cfg, loops: Seq<LoopCandidate>) -> bool {
    forall|i: int| 0 <= i < loops.len() ==> (#[trigger] loops[i]).wf(cfg)
}

/// Whether some back edge of the candidate starts at `block`.
pub fn starts_backedge(cfg: &Cfg, candidate: &LoopCandidate, block: BlockRef) -> (r: bool)
    requires
        candidate.wf(cfg),
    ensures
        r == candidate.backedge_from(cfg, block),
{
    let n = candidate.backedges.len();
    let mut i: usize = 0;
    while i < n
        invariant
            candidate.wf(cfg),
            n == candidate.backedges@.len(),
            i <= n,
            forall|j: int| 0 <= j < i ==> cfg.edge(#[trigger] candidate.backedges@[j]).from != block,
        decreases n - i,
    {
        let e = candidate.backedges[i];
        assert(cfg.has_edge(candidate.backedges@[i as int]));
        if cfg.edges[e.0].from == block {
            assert(cfg.edge(candidate.backedges@[i as int]).from == block);
            return true;
        }
        i = i + 1;
    }
    false
}

pub fn loop_candidate_owns_endpoint(cfg: &Cfg, candidate: &LoopCandidate, block: BlockRef) -> (r: bool)
    requires
        candidate.wf(cfg),
    ensures
        r == candidate.owns(cfg, block),
{
    candidate.body_scope_blocks.contains(block) || candidate.blocks.contains(block) || candidate.control_blocks.contains(block)
        || candidate.continue_target == Some(block) || starts_backedge(cfg, candidate, block)
}

/// The target of a block that holds nothing but a jump.
pub open spec fn jump_pad(cfg: &Cfg, b: BlockRef) -> Option<BlockRef> {
    if cfg.out_edges(b).len() == 1 && cfg.range(b).len == 1 && cfg.edge(cfg.out_edges(b)[0]).kind == EdgeKind::Jump {
        Some(cfg.edge(cfg.out_edges(b)[0]).to)
    } else {
        None
    }
}

pub fn transparent_jump_target(cfg: &Cfg, block: BlockRef) -> (r: Option<BlockRef>)
    requires
        cfg.adjacency_wf(),
        cfg.has_block(block),
    ensures
        r == jump_pad(cfg, block),
        r is Some ==> cfg.has_block(r->0),
{
    if cfg.succs[block.0].len() != 1 {
        return None;
    }
    let e = cfg.succs[block.0][0];
    assert(e == cfg.out_edges(block)[0]);
    let edge = cfg.edges[e.0];
    assert(cfg.has_edge(e));
    if cfg.blocks[block.0].instrs.len == 1 && edge.kind == EdgeKind::Jump {
        Some(edge.to)
    } else {
        None
    }
}

/// `entry` leaves the loop: it is an exit, or goes on to one and nowhere else. The loop's own
/// control blocks do not count.
pub open spec fn breaks_at(cfg: &Cfg, c: &LoopCandidate, entry: BlockRef) -> bool {
    c.continue_target != Some(entry) && c.condition_header != Some(entry) && !c.control_blocks@.contains(entry) && (
    c.exits@.contains(entry) || (cfg.out_edges(entry).len() == 1 && c.exits@.contains(cfg.edge(cfg.out_edges(entry)[0]).to)))
}

pub fn loop_break_entry(cfg: &Cfg, candidate: &LoopCandidate, entry: BlockRef) -> (r: bool)
    requires
        cfg.adjacency_wf(),
        cfg.has_block(entry),
    ensures
        r == breaks_at(cfg, candidate, entry),
{
    if candidate.continue_target == Some(entry) || candidate.condition_header == Some(entry) || candidate.control_blocks.contains(
        entry,
    ) {
        return false;
    }
    if candidate.exits.contains(entry) {
        return true;
    }
    if cfg.succs[entry.0].len() != 1 {
        return false;
    }
    let e = cfg.succs[entry.0][0];
    assert(e == cfg.out_edges(entry)[0]);
    candidate.exits.contains(cfg.edges[e.0].to)
}

/// Kinds of loops whose continue target can carry the end of the body.
pub open spec fn tail_carries_body(kind: LoopKindHint) -> bool {
    kind == LoopKindHint::Unknown || kind == LoopKindHint::RepeatLike || kind == LoopKindHint::NumericForLike || kind
        == LoopKindHint::WhileTrueLike
}

/// `entry` ends the iteration: it is the continue target, with nothing to do there that
/// belongs to the body, or a back edge that only jumps to the header.
pub open spec fn continues_at(proto: &LoweredProto, cfg: &Cfg, c: &LoopCandidate, entry: BlockRef) -> bool {
    (c.continue_target == Some(entry) && !(tail_carries_body(c.kind_hint) && has_prefix(proto, cfg, entry) && !movable_prefix(
        proto,
        cfg,
        entry,
    ))) || (exists|i: int|
        0 <= i < c.backedges@.len() && cfg.edge(#[trigger] c.backedges@[i]).from == entry && cfg.edge(c.backedges@[i]).to
            == c.header && jump_pad(cfg, entry) == Some(c.header))
}

pub fn loop_iteration_escape_entry(proto: &LoweredProto, cfg: &Cfg, candidate: &LoopCandidate, entry: BlockRef) -> (r: bool)
    requires
        fits(proto, cfg),
        candidate.wf(cfg),
        cfg.has_block(entry),
    ensures
        r == continues_at(proto, cfg, candidate, entry),
{
    if candidate.continue_target == Some(entry) {
        let carries = match candidate.kind_hint {
            LoopKindHint::Unknown
            | LoopKindHint::RepeatLike
            | LoopKindHint::NumericForLike
            | LoopKindHint::WhileTrueLike => true,
            _ => false,
        };
        if !(carries && block_has_non_control_prefix(proto, cfg, entry) && !control_prefix_is_movable(proto, cfg, entry)) {
            return true;
        }
    }
    if transparent_jump_target(cfg, entry) != Some(candidate.header) {
        return false;
    }
    let n = candidate.backedges.len();
    let mut i: usize = 0;
    while i < n
        invariant
            candidate.wf(cfg),
            jump_pad(cfg, entry) == Some(candidate.header),
            n == candidate.backedges@.len(),
            i <= n,
            forall|j: int|
                0 <= j < i ==> !(cfg.edge(#[trigger] candidate.backedges@[j]).from == entry && cfg.edge(candidate.backedges@[j]).to
                    == candidate.header),
        decreases n - i,
    {
        let e = candidate.backedges[i];
        assert(cfg.has_edge(candidate.backedges@[i as int]));
        if cfg.edges[e.0].from == entry && cfg.edges[e.0].to == candidate.header {
            assert(cfg.edge(candidate.backedges@[i as int]).from == entry);
            return true;
        }
        i = i + 1;
    }
    false
}

/// One of the branch's two targets leaves the loop, or ends the iteration without being the
/// branch's own merge.
pub open spec fn escapes_loop(proto: &LoweredProto, cfg: &Cfg, owner: &LoopCandidate, branch: &BranchCandidate) -> bool {
    match cfg.branch_edges_of(branch.header) {
        Some((t, f)) => escape_target(proto, cfg, owner, branch, cfg.edge(t).to) || escape_target(
            proto,
            cfg,
            owner,
            branch,
            cfg.edge(f).to,
        ),
        None => false,
    }
}

pub open spec fn escape_target(
    proto: &LoweredProto,
    cfg: &Cfg,
    owner: &LoopCandidate,
    branch: &BranchCandidate,
    target: BlockRef,
) -> bool {
    breaks_at(cfg, owner, target) || (branch.merge != Some(target) && continues_at(proto, cfg, owner, target))
}

pub fn branch_has_loop_escape_arm(
    proto: &LoweredProto,
    cfg: &Cfg,
    owner: &LoopCandidate,
    branch: &BranchCandidate,
) -> (r: bool)
    requires
        fits(proto, cfg),
        owner.wf(cfg),
        cfg.has_block(branch.header),
    ensures
        r == escapes_loop(proto, cfg, owner, branch),
{
    match cfg.branch_edges(branch.header) {
        Some((t, f)) => {
            let a = cfg.edges[t.0].to;
            let b = cfg.edges[f.0].to;
            assert(cfg.has_edge(t) && cfg.has_edge(f));
            loop_break_entry(cfg, owner, a) || (branch.merge != Some(a) && loop_iteration_escape_entry(proto, cfg, owner, a))
                || loop_break_entry(cfg, owner, b) || (branch.merge != Some(b) && loop_iteration_escape_entry(
                proto,
                cfg,
                owner,
                b,
            ))
        },
        None => false,
    }
}

/// The loop is left at `boundary`: it is an exit, or the only successor of every exit.
pub open spec fn exits_to(cfg: &Cfg, c: &LoopCandidate, boundary: BlockRef) -> bool {
    c.exits@.contains(boundary) || (c.exits@ != Set::<BlockRef>::empty() && forall|x: BlockRef| #[trigger]
        c.exits@.contains(x) ==> cfg.unique_successor(x) == Some(boundary))
}

pub fn loop_exits_at(cfg: &Cfg, candidate: &LoopCandidate, boundary: BlockRef) -> (r: bool)
    requires
        cfg.adjacency_wf(),
        known_blocks(cfg, candidate.exits@),
    ensures
        r == exits_to(cfg, candidate, boundary),
{
    if candidate.exits.contains(boundary) {
        return true;
    }
    if candidate.exits.is_empty() {
        return false;
    }
    let n = candidate.exits.len();
    let mut i: usize = 0;
    while i < n
        invariant
            cfg.adjacency_wf(),
            known_blocks(cfg, candidate.exits@),
            !candidate.exits@.contains(boundary),
            n == candidate.exits.seq().len(),
            i <= n,
            forall|j: int| 0 <= j < i ==> cfg.unique_successor(#[trigger] candidate.exits.seq()[j]) == Some(boundary),
        decreases n - i,
    {
        let x = candidate.exits.at(i);
        if cfg.unique_reachable_successor(x) != Some(boundary) {
            return false;
        }
        i = i + 1;
    }
    proof {
        assert forall|x: BlockRef| #[trigger] candidate.exits@.contains(x) implies cfg.unique_successor(x) == Some(
            boundary,
        ) by {
            let j = choose|j: int| 0 <= j < candidate.exits.seq().len() && candidate.exits.seq()[j] == x;
            assert(candidate.exits.seq()[j] == x);
        }
    }
    true
}

/// Position `k` of the edges out of `b` leads into `blocks`.
pub open spec fn leads_into(cfg: &Cfg, b: BlockRef, blocks: Set<BlockRef>) -> spec_fn(int) -> bool {
    |k: int| blocks.contains(cfg.edge(cfg.out_edges(b)[k]).to)
}

/// Where the body of a `for` loop starts.
pub open spec fn for_body_entry(cfg: &Cfg, c: &LoopCandidate) -> Option<BlockRef> {
    match c.kind_hint {
        LoopKindHint::NumericForLike => Some(c.header),
        LoopKindHint::GenericForLike => match only_where(
            cfg.out_edges(c.header).len(),
            leads_into(cfg, c.header, c.blocks@),
        ) {
            Some(k) => Some(cfg.edge(cfg.out_edges(c.header)[k]).to),
            None => None,
        },
        _ => None,
    }
}

pub fn for_loop_body_entry(cfg: &Cfg, candidate: &LoopCandidate) -> (r: Option<BlockRef>)
    requires
        cfg.adjacency_wf(),
        cfg.has_block(candidate.header),
    ensures
        r == for_body_entry(cfg, candidate),
{
    match candidate.kind_hint {
        LoopKindHint::NumericForLike => Some(candidate.header),
        LoopKindHint::GenericForLike => {
            let h = candidate.header;
            let n = cfg.succs[h.0].len();
            let ghost p = leads_into(cfg, h, candidate.blocks@);
            let mut found: Option<BlockRef> = None;
            let mut i: usize = 0;
            while i < n
                invariant
                    cfg.adjacency_wf(),
                    cfg.has_block(h),
                    h == candidate.header,
                    candidate.kind_hint == LoopKindHint::GenericForLike,
                    n == cfg.out_edges(h).len(),
                    p == leads_into(cfg, h, candidate.blocks@),
                    i <= n,
                    match found {
                        None => count_where(i as nat, p) == 0 && first_where(i as nat, p) is None,
                        Some(b) => {
                            &&& count_where(i as nat, p) == 1
                            &&& first_where(i as nat, p) is Some
                            &&& b == cfg.edge(cfg.out_edges(h)[first_where(i as nat, p)->0]).to
                        },
                    },
                decreases n - i,
            {
                let e = cfg.succs[h.0][i];
                assert(e == cfg.out_edges(h)[i as int]);
                let to = cfg.edges[e.0].to;
                assert(p(i as int) == candidate.blocks@.contains(to));
                if candidate.blocks.contains(to) {
                    if found.is_some() {
                        proof {
                            count_where_monotone((i + 1) as nat, n as nat, p);
                        }
                        return None;
                    }
                    found = Some(to);
                }
                i = i + 1;
            }
            found
        },
        _ => None,
    }
}

/// The size of the body scope of loop `i`.
pub open spec fn scope_size(loops: Seq<LoopCandidate>) -> spec_fn(int) -> int {
    |i: int| loops[i].body_scope_blocks@.len() as int
}

/// The number of blocks of loop `i`.
pub open spec fn core_size(loops: Seq<LoopCandidate>) -> spec_fn(int) -> int {
    |i: int| loops[i].blocks@.len() as int
}

pub open spec fn is_for(kind: LoopKindHint) -> bool {
    kind == LoopKindHint::NumericForLike || kind == LoopKindHint::GenericForLike
}

/// Loop `i` is a `for` loop around the whole branch that is left at `boundary`.
pub open spec fn for_exit_owner(
    cfg: &Cfg,
    loops: Seq<LoopCandidate>,
    header: BlockRef,
    then_entry: BlockRef,
    else_entry: BlockRef,
    boundary: BlockRef,
) -> spec_fn(int) -> bool {
    |i: int|
        is_for(loops[i].kind_hint) && loops[i].body_scope_blocks@.contains(header) && loops[i].body_scope_blocks@.contains(
            then_entry,
        ) && loops[i].body_scope_blocks@.contains(else_entry) && exits_to(cfg, &loops[i], boundary)
}

/// The innermost `for` loop around the branch that is left at `boundary`.
pub fn for_loop_exit_owner(
    cfg: &Cfg,
    loops: &Vec<LoopCandidate>,
    header: BlockRef,
    then_entry: BlockRef,
    else_entry: BlockRef,
    boundary: BlockRef,
) -> (r: Option<usize>)
    requires
        cfg.adjacency_wf(),
        loops_wf(cfg, loops@),
    ensures
        match least_where(
            loops@.len(),
            for_exit_owner(cfg, loops@, header, then_entry, else_entry, boundary),
            scope_size(loops@),
        ) {
            Some(k) => 0 <= k < loops@.len() && r is Some && (r->0) as int == k,
            None => r is None,
        },
{
    let n = loops.len();
    let ghost p = for_exit_owner(cfg, loops@, header, then_entry, else_entry, boundary);
    let ghost key = scope_size(loops@);
    let mut best: Option<usize> = None;
    let mut i: usize = 0;
    while i < n
        invariant
            cfg.adjacency_wf(),
            loops_wf(cfg, loops@),
            n == loops@.len(),
            p == for_exit_owner(cfg, loops@, header, then_entry, else_entry, boundary),
            key == scope_size(loops@),
            i <= n,
            match least_where(i as nat, p, key) {
                Some(k) => 0 <= k < i && best == Some(k as usize),
                None => best is None,
            },
        decreases n - i,
    {
        let c = &loops[i];
        assert(loops@[i as int].wf(cfg));
        let is_for_loop = match c.kind_hint {
            LoopKindHint::NumericForLike | LoopKindHint::GenericForLike => true,
            _ => false,
        };
        let fits_branch = is_for_loop && c.body_scope_blocks.contains(header) && c.body_scope_blocks.contains(then_entry)
            && c.body_scope_blocks.contains(else_entry) && loop_exits_at(cfg, c, boundary);
        assert(p(i as int) == fits_branch);
        if fits_branch {
            let better = match best {
                None => true,
                Some(b) => c.body_scope_blocks.len() < loops[b].body_scope_blocks.len(),
            };
            if better {
                best = Some(i);
            }
        }
        i = i + 1;
    }
    best
}

/// An arm with the block behind it.
pub open spec fn arm(
    header: BlockRef,
    entry: BlockRef,
    merge: BlockRef,
    kind: BranchKind,
    invert_hint: bool,
) -> BranchCandidate {
    BranchCandidate { header, then_entry: entry, else_entry: None, merge: Some(merge), kind, invert_hint }
}

pub open spec fn two_arms(
    header: BlockRef,
    then_entry: BlockRef,
    else_entry: BlockRef,
    merge: Option<BlockRef>,
) -> BranchCandidate {
    BranchCandidate {
        header,
        then_entry,
        else_entry: Some(else_entry),
        merge,
        kind: BranchKind::IfElse,
        invert_hint: false,
    }
}

/// One arm joins the other: that other entry is the merge. Both or neither decide nothing.
pub open spec fn one_arm(
    header: BlockRef,
    then_entry: BlockRef,
    else_entry: BlockRef,
    then_joins: bool,
    else_joins: bool,
    kind: BranchKind,
) -> Option<BranchCandidate> {
    if then_joins && !else_joins {
        Some(arm(header, then_entry, else_entry, kind, false))
    } else if !then_joins && else_joins {
        Some(arm(header, else_entry, then_entry, kind, true))
    } else {
        None
    }
}

/// A block in the frontiers of both arms, below the header, other than the exit.
pub open spec fn joint(
    cfg: &Cfg,
    g: &GraphFacts,
    header: BlockRef,
    then_entry: BlockRef,
    else_entry: BlockRef,
    b: BlockRef,
) -> bool {
    b != cfg.exit_block && g.dom(header, b) && g.frontier_has(then_entry, b) && g.frontier_has(else_entry, b)
}

/// The joint block that dominates every other joint block.
pub open spec fn is_soft_merge(
    cfg: &Cfg,
    g: &GraphFacts,
    header: BlockRef,
    then_entry: BlockRef,
    else_entry: BlockRef,
    b: BlockRef,
) -> bool {
    &&& joint(cfg, g, header, then_entry, else_entry, b)
    &&& forall|x: BlockRef| #[trigger] joint(cfg, g, header, then_entry, else_entry, x) ==> g.dom(b, x)
}

pub open spec fn soft_merge(
    cfg: &Cfg,
    g: &GraphFacts,
    header: BlockRef,
    then_entry: BlockRef,
    else_entry: BlockRef,
) -> Option<BlockRef> {
    if exists|b: BlockRef| #[trigger] is_soft_merge(cfg, g, header, then_entry, else_entry, b) {
        Some(choose|b: BlockRef| #[trigger] is_soft_merge(cfg, g, header, then_entry, else_entry, b))
    } else {
        None
    }
}

/// Two blocks of the tree that lie above each other are one.
proof fn dom_antisymmetric(g: &GraphFacts, a: BlockRef, b: BlockRef)
    requires
        g.dominator_tree.tree.wf(),
        g.dom(a, b),
        g.dom(b, a),
    ensures
        a == b,
{
    let t = &g.dominator_tree.tree;
    covers_is_ancestry(t, a.0, b.0);
    covers_is_ancestry(t, b.0, a.0);
    if a != b {
        let i = choose|i: nat| #[trigger] up(t.parent@, b.0, i) == Some(a.0);
        let j = choose|j: nat| #[trigger] up(t.parent@, a.0, j) == Some(b.0);
        up_depth(t, b.0, i);
        up_depth(t, a.0, j);
    }
}

pub proof fn soft_merge_unique(
    cfg: &Cfg,
    g: &GraphFacts,
    header: BlockRef,
    then_entry: BlockRef,
    else_entry: BlockRef,
    b: BlockRef,
)
    requires
        g.dominator_tree.tree.wf(),
        is_soft_merge(cfg, g, header, then_entry, else_entry, b),
    ensures
        soft_merge(cfg, g, header, then_entry, else_entry) == Some(b),
{
    let x = choose|x: BlockRef| #[trigger] is_soft_merge(cfg, g, header, then_entry, else_entry, x);
    dom_antisymmetric(g, x, b);
}

/// Finds the joint block of the two arms that dominates all others: where they really join,
/// though early exits keep it from post-dominating them.
pub fn find_soft_merge(
    cfg: &Cfg,
    graph_facts: &GraphFacts,
    header: BlockRef,
    then_entry: BlockRef,
    else_entry: BlockRef,
) -> (r: Option<BlockRef>)
    requires
        graph_facts.sized(cfg),
    ensures
        r == soft_merge(cfg, graph_facts, header, then_entry, else_entry),
        r is Some ==> cfg.has_block(r->0) && r->0 != cfg.exit_block,
{
    let joins = graph_facts.dominance_frontier_blocks(then_entry);
    let n = joins.len();
    let mut common: Vec<BlockRef> = Vec::new();
    let mut i: usize = 0;
    while i < n
        invariant
            n == joins@.len(),
            i <= n,
            forall|b: BlockRef| #[trigger] joins@.contains(b) <==> graph_facts.frontier_has(then_entry, b),
            forall|k: int| 0 <= k < common@.len() ==> joint(cfg, graph_facts, header, then_entry, else_entry, #[trigger] common@[k]),
            forall|k: int| 0 <= k < i && joint(cfg, graph_facts, header, then_entry, else_entry, #[trigger] joins@[k]) ==> common@.contains(joins@[k]),
        decreases n - i,
    {
        let b = joins[i];
        let ghost before = common@;
        assert(joins@.contains(b));
        if b != cfg.exit_block && graph_facts.dominates(header, b) && graph_facts.joins(else_entry, b) {
            common.push(b);
        }
        proof {
            assert forall|k: int| 0 <= k < i + 1 && joint(cfg, graph_facts, header, then_entry, else_entry, #[trigger] joins@[k]) implies common@.contains(joins@[k]) by {
                if k < i {
                    assert(before.contains(joins@[k]));
                    let q = choose|q: int| 0 <= q < before.len() && before[q] == joins@[k];
                    assert(common@[q] == joins@[k]);
                } else {
                    assert(common@[before.len() as int] == b);
                }
            }
        }
        i = i + 1;
    }
    proof {
        assert forall|b: BlockRef| #[trigger] joint(cfg, graph_facts, header, then_entry, else_entry, b) implies common@.contains(b) by {
            assert(joins@.contains(b));
            let k = choose|k: int| 0 <= k < joins@.len() && joins@[k] == b;
            assert(common@.contains(joins@[k]));
        }
    }
    let m = common.len();
    let mut c: usize = 0;
    while c < m
        invariant
            graph_facts.sized(cfg),
            m == common@.len(),
            c <= m,
            forall|k: int| 0 <= k < common@.len() ==> joint(cfg, graph_facts, header, then_entry, else_entry, #[trigger] common@[k]),
            forall|b: BlockRef| #[trigger] joint(cfg, graph_facts, header, then_entry, else_entry, b) ==> common@.contains(b),
            forall|k: int| 0 <= k < c ==> !is_soft_merge(cfg, graph_facts, header, then_entry, else_entry, #[trigger] common@[k]),
        decreases m - c,
    {
        let b = common[c];
        let mut covers_all = true;
        let mut k: usize = 0;
        while k < m
            invariant
                m == common@.len(),
                k <= m,
                covers_all == (forall|q: int| 0 <= q < k ==> graph_facts.dom(b, #[trigger] common@[q])),
            decreases m - k,
        {
            if !graph_facts.dominates(b, common[k]) {
                covers_all = false;
                assert(!graph_facts.dom(b, common@[k as int]));
            }
            k = k + 1;
        }
        proof {
            assert(joint(cfg, graph_facts, header, then_entry, else_entry, common@[c as int]));
            assert(covers_all == is_soft_merge(cfg, graph_facts, header, then_entry, else_entry, b)) by {
                if covers_all {
                    assert forall|x: BlockRef| #[trigger] joint(cfg, graph_facts, header, then_entry, else_entry, x) implies graph_facts.dom(b, x) by {
                        let q = choose|q: int| 0 <= q < common@.len() && common@[q] == x;
                        assert(graph_facts.dom(b, common@[q]));
                    }
                }
            }
        }
        if covers_all {
            proof {
                soft_merge_unique(cfg, graph_facts, header, then_entry, else_entry, b);
                assert(graph_facts.frontier_has(then_entry, b));
            }
            return Some(b);
        }
        c = c + 1;
    }
    proof {
        if exists|b: BlockRef| #[trigger] is_soft_merge(cfg, graph_facts, header, then_entry, else_entry, b) {
            let b = choose|b: BlockRef| #[trigger] is_soft_merge(cfg, graph_facts, header, then_entry, else_entry, b);
            let k = choose|k: int| 0 <= k < common@.len() && common@[k] == b;
            assert(!is_soft_merge(cfg, graph_facts, header, then_entry, else_entry, common@[k]));
        }
    }
    None
}

} // verus!
