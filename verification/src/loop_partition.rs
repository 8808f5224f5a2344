//! Natural loops that hold two source loops with one header.

use vstd::prelude::*;

use crate::branches::loops_wf;
use crate::cfg::Cfg;
use crate::evidence::{LoopCandidate, LoopExitAlias, LoopKindHint};
use crate::flood::{flood, floods_to, mask_set, mask_to_set};
use crate::graph::sources;
use crate::helpers::{
    block_jumps_to, block_of, collect_forward_region_blocks, collect_region_exits, equivalent_single_return_targets,
    forward_region, is_reducible_region, jumps_to, known_blocks, lists_hold_boundary, reducible_at, region_exits, same_return,
};
use crate::ids::{BlockRef, EdgeRef};
use crate::idset::{ascending, ascending_no_duplicates, IdSet};
use crate::lir::NumericForInstr;
use crate::loop_shape::{
    branch_has_header_and_exit, find_init, find_latch, init_at, latch_at,
    numeric_for_instrs_match, numeric_match, numeric_targets_exist, repeat_condition,
    repeat_continue_target_via_backedge_pad, to_or_out, LoopContext,
};
use crate::loop_values::{loop_models, merge_models, LoopModel};
use crate::loopforest::NaturalLoop;
use crate::search::{count_where, count_where_monotone, first_where, only_where};

verus! {

/// The loop's parts exist in the graph.
pub open spec fn natural_wf(cfg: &Cfg, l: &NaturalLoop) -> bool {
    &&& cfg.has_block(l.header)
    &&& known_blocks(cfg, l.blocks@)
    &&& forall|i: int| 0 <= i < l.backedges@.len() ==> cfg.has_edge(#[trigger] l.backedges@[i])
}

/// Edge `i` is a back edge of the loop.
pub open spec fn stays_in(cfg: &Cfg, l: &NaturalLoop, e: EdgeRef) -> bool {
    cfg.edge(e).to == l.header && l.blocks@.contains(cfg.edge(e).from)
}

/// The part of the loop that some of its back edges close: the header, and what reaches their
/// sources inside the loop without passing the header.
pub open spec fn domain_of(cfg: &Cfg, l: &NaturalLoop, backedges: Seq<EdgeRef>) -> Option<Set<BlockRef>> {
    if forall|i: int| 0 <= i < backedges.len() ==> stays_in(cfg, l, #[trigger] backedges[i]) {
        Some(
            Set::new(
                |b: BlockRef|
                    b == l.header || floods_to(cfg, sources(cfg, backedges), l.blocks@.remove(l.header), true, b),
            ),
        )
    } else {
        None
    }
}

pub fn natural_loop_domain_for_backedges(
    cfg: &Cfg,
    l: &NaturalLoop,
    backedges: &Vec<EdgeRef>,
) -> (r: Option<IdSet<BlockRef>>)
    requires
        cfg.wf(),
        natural_wf(cfg, l),
        forall|i: int| 0 <= i < backedges@.len() ==> cfg.has_edge(#[trigger] backedges@[i]),
    ensures
        match r {
            Some(s) => domain_of(cfg, l, backedges@) == Some(s@) && known_blocks(cfg, s@),
            None => domain_of(cfg, l, backedges@) is None,
        },
{
    let n = cfg.blocks.len();
    let m = backedges.len();
    let ghost region = l.blocks@.remove(l.header);
    let mut starts: Vec<BlockRef> = Vec::new();
    let mut i: usize = 0;
    while i < m
        invariant
            cfg.wf(),
            m == backedges@.len(),
            i <= m,
            forall|i: int| 0 <= i < backedges@.len() ==> cfg.has_edge(#[trigger] backedges@[i]),
            starts@ =~= sources(cfg, backedges@).subrange(0, i as int),
            forall|k: int| 0 <= k < i ==> cfg.has_block(#[trigger] starts@[k]),
            forall|k: int| 0 <= k < i ==> stays_in(cfg, l, #[trigger] backedges@[k]),
        decreases m - i,
    {
        let e = backedges[i];
        assert(cfg.has_edge(backedges@[i as int]));
        let edge = cfg.edges[e.0];
        if edge.to != l.header || !l.blocks.contains(edge.from) {
            assert(!stays_in(cfg, l, backedges@[i as int]));
            return None;
        }
        starts.push(edge.from);
        i = i + 1;
    }
    assert(starts@ =~= sources(cfg, backedges@));
    let mut allowed: Vec<bool> = Vec::new();
    let mut b: usize = 0;
    while b < n
        invariant
            b <= n,
            allowed@.len() == b,
            forall|j: int| 0 <= j < b ==> #[trigger] allowed@[j] == (l.blocks@.contains(BlockRef(j as usize)) && j != l.header.0),
        decreases n - b,
    {
        allowed.push(l.blocks.contains(BlockRef(b)) && b != l.header.0);
        b = b + 1;
    }
    proof {
        assert forall|b: BlockRef| mask_set(allowed@).contains(b) <==> region.contains(b) by {
            if b.0 < n {
                assert(BlockRef(b.0 as int as usize) == b);
                assert(allowed@[b.0 as int] == (l.blocks@.contains(b) && b.0 != l.header.0));
            } else if region.contains(b) {
                assert(l.blocks@.contains(b));
            }
        }
        assert(mask_set(allowed@) =~= region);
    }
    let seen = flood(cfg, &starts, &allowed, true);
    let mut r = mask_to_set(&seen);
    r.insert(l.header);
    proof {
        let want = domain_of(cfg, l, backedges@)->0;
        assert forall|b: BlockRef| r@.contains(b) <==> want.contains(b) by {
            assert(mask_set(seen@).contains(b) <==> floods_to(cfg, starts@, region, true, b));
        }
        assert(r@ =~= want);
    }
    Some(r)
}

/// The blocks to which some edge leads from `b`.
pub open spec fn targets_of(cfg: &Cfg, b: BlockRef) -> Set<BlockRef> {
    Set::new(|x: BlockRef| cfg.links(b, x))
}

fn collect_targets(cfg: &Cfg, b: BlockRef) -> (r: IdSet<BlockRef>)
    requires
        cfg.adjacency_wf(),
        cfg.has_block(b),
    ensures
        r@ == targets_of(cfg, b),
        known_blocks(cfg, r@),
{
    let n = cfg.succs[b.0].len();
    let mut r: IdSet<BlockRef> = IdSet::new();
    let mut i: usize = 0;
    while i < n
        invariant
            cfg.adjacency_wf(),
            cfg.has_block(b),
            n == cfg.out_edges(b).len(),
            i <= n,
            known_blocks(cfg, r@),
            forall|x: BlockRef| #[trigger] r@.contains(x) ==> cfg.links(b, x),
            forall|k: int| 0 <= k < i ==> r@.contains(cfg.edge(#[trigger] cfg.out_edges(b)[k]).to),
        decreases n - i,
    {
        let e = cfg.succs[b.0][i];
        assert(e == cfg.out_edges(b)[i as int]);
        let to = cfg.edges[e.0].to;
        assert(cfg.has_edge(e) && cfg.edge(e).from == b && cfg.edge(e).to == to);
        r.insert(to);
        i = i + 1;
    }
    proof {
        assert forall|x: BlockRef| r@.contains(x) <==> targets_of(cfg, b).contains(x) by {
            if cfg.links(b, x) {
                let e = choose|e: EdgeRef| #[trigger] cfg.has_edge(e) && cfg.edge(e).from == b && cfg.edge(e).to == x;
                let k = choose|k: int| 0 <= k < cfg.out_edges(b).len() && cfg.out_edges(b)[k] == e;
                assert(cfg.edge(cfg.out_edges(b)[k]).to == x);
            }
        }
        assert(r@ =~= targets_of(cfg, b));
    }
    r
}

/// The other way from the header: the target that does not lie in the inner part.
pub open spec fn is_outer_way(cfg: &Cfg, l: &NaturalLoop, inner: Set<BlockRef>, x: BlockRef) -> bool {
    cfg.links(l.header, x) && !inner.contains(x)
}

/// Every inner back edge comes from before the outer way, in the order of the instructions.
pub open spec fn before_outer_way(cfg: &Cfg, inner_edges: Seq<EdgeRef>, x: BlockRef) -> bool {
    forall|i: int|
        0 <= i < inner_edges.len() ==> cfg.range(cfg.edge(#[trigger] inner_edges[i]).from).end_at() <= cfg.range(x).start.0
}

/// The inner part is a loop of its own inside the whole: smaller, entered at the header only,
/// left into the loop, and laid out before what only the whole has.
pub open spec fn is_nested(cfg: &Cfg, l: &NaturalLoop, inner: Set<BlockRef>, inner_edges: Seq<EdgeRef>) -> bool {
    &&& inner != l.blocks@
    &&& inner.len() > 1
    &&& reducible_at(cfg, l.header, inner)
    &&& region_exits(cfg, inner).subset_of(l.blocks@)
    &&& targets_of(cfg, l.header).len() <= 1 || (targets_of(cfg, l.header).len() == 2 && (exists|x: BlockRef|
        cfg.links(l.header, x) && #[trigger] inner.contains(x)) && (exists|x: BlockRef| #[trigger]
        is_outer_way(cfg, l, inner, x) && before_outer_way(cfg, inner_edges, x)))
}

fn edges_before(cfg: &Cfg, inner_edges: &Vec<EdgeRef>, x: BlockRef, Ghost(n): Ghost<nat>) -> (r: bool)
    requires
        cfg.wf(),
        cfg.has_block(x),
        cfg.range(cfg.exit_block).end_at() <= n,
        cfg.instr_to_block@.len() == n,
        n <= usize::MAX,
        forall|i: int| 0 <= i < inner_edges@.len() ==> cfg.has_edge(#[trigger] inner_edges@[i]),
    ensures
        r == before_outer_way(cfg, inner_edges@, x),
{
    let start: usize = cfg.blocks[x.0].instrs.start.0;
    let m = inner_edges.len();
    let mut i: usize = 0;
    while i < m
        invariant
            cfg.wf(),
            cfg.has_block(x),
            cfg.range(cfg.exit_block).end_at() <= n,
            cfg.instr_to_block@.len() == n,
            n <= usize::MAX,
            start == cfg.range(x).start.0,
            m == inner_edges@.len(),
            i <= m,
            forall|i: int| 0 <= i < inner_edges@.len() ==> cfg.has_edge(#[trigger] inner_edges@[i]),
            forall|k: int| 0 <= k < i ==> cfg.range(cfg.edge(#[trigger] inner_edges@[k]).from).end_at() <= start,
        decreases m - i,
    {
        let e = inner_edges[i];
        assert(cfg.has_edge(inner_edges@[i as int]));
        let from = cfg.edges[e.0].from;
        assert(cfg.has_block(from));
        if cfg.blocks[from.0].instrs.end() > start {
            assert(cfg.range(cfg.edge(inner_edges@[i as int]).from).end_at() > start);
            return false;
        }
        i = i + 1;
    }
    true
}

impl<'a> LoopContext<'a> {
    pub fn residual_cycle_is_nested(&self, l: &NaturalLoop, inner: &IdSet<BlockRef>, inner_edges: &Vec<EdgeRef>) -> (r: bool)
        requires
            self.wf(),
            natural_wf(self.cfg, l),
            known_blocks(self.cfg, inner@),
            forall|i: int| 0 <= i < inner_edges@.len() ==> self.cfg.has_edge(#[trigger] inner_edges@[i]),
        ensures
            r == is_nested(self.cfg, l, inner@, inner_edges@),
    {
        let cfg = self.cfg;
        proof {
            lists_hold_boundary(cfg, inner@);
        }
        let exits = collect_region_exits(cfg, inner);
        if inner.same_members(&l.blocks) || inner.len() <= 1 || !is_reducible_region(cfg, l.header, inner) || !exits.is_subset(
            &l.blocks,
        ) {
            return false;
        }
        let targets = collect_targets(cfg, l.header);
        let count = targets.len();
        if count <= 1 {
            return true;
        }
        if count != 2 {
            return false;
        }
        let a = targets.at(0);
        let b = targets.at(1);
        let in_a = inner.contains(a);
        let in_b = inner.contains(b);
        proof {
            assert forall|x: BlockRef| #[trigger] cfg.links(l.header, x) implies x == a || x == b by {
                assert(targets@.contains(x));
                let k = choose|k: int| 0 <= k < targets.seq().len() && targets.seq()[k] == x;
            }
            assert(targets@.contains(a) && targets@.contains(b));
            assert(cfg.links(l.header, a) && cfg.links(l.header, b));
        }
        if in_a == in_b {
            proof {
                if in_a {
                    assert forall|x: BlockRef| !#[trigger] is_outer_way(cfg, l, inner@, x) by {}
                } else {
                    assert forall|x: BlockRef| cfg.links(l.header, x) implies !#[trigger] inner@.contains(x) by {}
                }
            }
            return false;
        }
        let out = if in_a {
            b
        } else {
            a
        };
        let instr_count = self.proto.instrs.len();
        let r = edges_before(cfg, inner_edges, out, Ghost(instr_count as nat));
        proof {
            assert(is_outer_way(cfg, l, inner@, out));
            assert(inner@.contains(if in_a { a } else { b }));
            if r {
                assert(before_outer_way(cfg, inner_edges@, out));
            } else {
                assert forall|x: BlockRef| #[trigger] is_outer_way(cfg, l, inner@, x) implies !before_outer_way(cfg, inner_edges@, x) by {
                    assert(x == out);
                }
            }
        }
        r
    }

    /// The body of a numeric `for` with this latch may start at `header`: at the natural
    /// header, or at a block that jumps there.
    pub open spec fn may_start(&self, natural: BlockRef, header: BlockRef) -> bool {
        header == natural || (self.cfg.is_reachable(header) && self.cfg.links(header, natural) && jumps_to(
            self.proto,
            self.cfg,
            header,
            natural,
        ))
    }

    /// `preheader` opens, at `header`, the loop that the latch closes.
    pub open spec fn opens(&self, natural: BlockRef, latch: NumericForInstr, header: BlockRef, preheader: BlockRef) -> bool {
        self.may_start(natural, header) && self.cfg.is_reachable(preheader) && self.cfg.links(preheader, header) && match init_at(
            self.proto,
            self.cfg,
            preheader,
        ) {
            Some(init) => numeric_match(self.proto, self.cfg, init, latch),
            None => false,
        }
    }

    /// The only way in which the latch's loop is opened.
    pub open spec fn is_owner(&self, natural: BlockRef, latch: NumericForInstr, o: (BlockRef, BlockRef)) -> bool {
        self.opens(natural, latch, o.0, o.1) && forall|h: BlockRef, p: BlockRef| #[trigger]
            self.opens(natural, latch, h, p) ==> (h, p) == o
    }

    pub open spec fn owner_of(&self, natural: BlockRef, latch: NumericForInstr) -> Option<(BlockRef, BlockRef)> {
        if exists|o: (BlockRef, BlockRef)| #[trigger] self.is_owner(natural, latch, o) {
            Some(choose|o: (BlockRef, BlockRef)| #[trigger] self.is_owner(natural, latch, o))
        } else {
            None
        }
    }

    /// The ways in which the latch's loop is opened at one header: none, one, or several.
    fn openers_at(&self, natural: BlockRef, latch: &NumericForInstr, header: BlockRef) -> (r: (Option<BlockRef>, bool))
        requires
            self.wf(),
            self.cfg.has_block(header),
            self.may_start(natural, header),
            numeric_targets_exist(*latch, self.proto.instrs@.len()),
        ensures
            match r {
                (None, false) => forall|p: BlockRef| !#[trigger] self.opens(natural, *latch, header, p),
                (Some(p), false) => self.cfg.has_block(p) && self.opens(natural, *latch, header, p) && forall|q: BlockRef| #[trigger]
                    self.opens(natural, *latch, header, q) ==> q == p,
                (_, true) => exists|p: BlockRef, q: BlockRef| p != q && #[trigger] self.opens(natural, *latch, header, p) && #[trigger] self.opens(natural, *latch, header, q),
            },
    {
        let list = self.cfg.reachable_predecessors(header);
        let n = list.len();
        let mut found: Option<BlockRef> = None;
        let mut i: usize = 0;
        while i < n
            invariant
                self.wf(),
                self.may_start(natural, header),
                numeric_targets_exist(*latch, self.proto.instrs@.len()),
                n == list@.len(),
                i <= n,
                list@.to_set() == self.cfg.linked_to(header),
                ascending(list@),
                forall|k: int| 0 <= k < list@.len() ==> self.cfg.has_block(#[trigger] list@[k]),
                match found {
                    None => forall|k: int| 0 <= k < i ==> !self.opens(natural, *latch, header, #[trigger] list@[k]),
                    Some(p) => {
                        &&& self.cfg.has_block(p)
                        &&& self.opens(natural, *latch, header, p)
                        &&& list@.subrange(0, i as int).contains(p)
                        &&& forall|k: int| 0 <= k < i && self.opens(natural, *latch, header, #[trigger] list@[k]) ==> list@[k] == p
                    },
                },
            decreases n - i,
        {
            let p = list[i];
            let ghost found0 = found;
            proof {
                assert(list@.to_set().contains(p));
                assert(self.cfg.linked_to(header).contains(p));
            }
            let hit = match find_init(self.proto, self.cfg, p) {
                Some(init) => numeric_for_instrs_match(self.proto, self.cfg, &init, latch),
                None => false,
            };
            assert(hit == self.opens(natural, *latch, header, p));
            if hit {
                if let Some(q) = found {
                    proof {
                        ascending_no_duplicates(list@);
                        let w = choose|w: int| 0 <= w < i && list@.subrange(0, i as int)[w] == q;
                        assert(list@[w] == q);
                        assert(p != q);
                    }
                    return (found, true);
                }
                found = Some(p);
            }
            proof {
                let post = list@.subrange(0, i as int + 1);
                if found is Some {
                    if hit {
                        assert(post[i as int] == p);
                    } else {
                        let pre = list@.subrange(0, i as int);
                        let w = choose|w: int| 0 <= w < pre.len() && pre[w] == found0->0;
                        assert(post[w] == found->0);
                    }
                }
            }
            i = i + 1;
        }
        proof {
            assert forall|q: BlockRef| #[trigger] self.opens(natural, *latch, header, q) implies list@.contains(q) by {
                assert(self.cfg.linked_to(header).contains(q));
                assert(list@.to_set().contains(q));
            }
            if found is None {
                assert forall|q: BlockRef| !#[trigger] self.opens(natural, *latch, header, q) by {
                    if self.opens(natural, *latch, header, q) {
                        let k = choose|k: int| 0 <= k < list@.len() && list@[k] == q;
                        assert(!self.opens(natural, *latch, header, list@[k]));
                    }
                }
            } else {
                assert forall|q: BlockRef| #[trigger] self.opens(natural, *latch, header, q) implies q == found->0 by {
                    let k = choose|k: int| 0 <= k < list@.len() && list@[k] == q;
                    assert(self.opens(natural, *latch, header, list@[k]));
                }
            }
        }
        (found, false)
    }

    pub fn numeric_for_owner(&self, natural: BlockRef, latch: &NumericForInstr) -> (r: Option<(BlockRef, BlockRef)>)
        requires
            self.wf(),
            self.cfg.has_block(natural),
            numeric_targets_exist(*latch, self.proto.instrs@.len()),
        ensures
            r == self.owner_of(natural, *latch),
            r is Some ==> self.cfg.has_block((r->0).0) && self.cfg.has_block((r->0).1) && init_at(self.proto, self.cfg, (r->0).1) is Some,
    {
        let list = self.cfg.reachable_predecessors(natural);
        let mut headers: IdSet<BlockRef> = IdSet::singleton(natural);
        let m = list.len();
        let mut i: usize = 0;
        while i < m
            invariant
                self.wf(),
                m == list@.len(),
                i <= m,
                list@.to_set() == self.cfg.linked_to(natural),
                self.cfg.has_block(natural),
                forall|k: int| 0 <= k < list@.len() ==> self.cfg.has_block(#[trigger] list@[k]),
                forall|h: BlockRef| #[trigger] headers@.contains(h) ==> self.may_start(natural, h) && self.cfg.has_block(h),
                headers@.contains(natural),
                forall|k: int| 0 <= k < i && self.may_start(natural, #[trigger] list@[k]) ==> headers@.contains(list@[k]),
            decreases m - i,
        {
            let b = list[i];
            proof {
                assert(list@.to_set().contains(b));
                assert(self.cfg.linked_to(natural).contains(b));
            }
            if block_jumps_to(self.proto, self.cfg, b, natural) {
                headers.insert(b);
            }
            i = i + 1;
        }
        proof {
            assert forall|h: BlockRef| self.may_start(natural, h) implies #[trigger] headers@.contains(h) by {
                if h != natural {
                    assert(self.cfg.linked_to(natural).contains(h));
                    assert(list@.to_set().contains(h));
                    let k = choose|k: int| 0 <= k < list@.len() && list@[k] == h;
                    assert(headers@.contains(list@[k]));
                }
            }
        }
        let n = headers.len();
        let mut found: Option<(BlockRef, BlockRef)> = None;
        let mut k: usize = 0;
        while k < n
            invariant
                self.wf(),
                numeric_targets_exist(*latch, self.proto.instrs@.len()),
                n == headers.seq().len(),
                k <= n,
                headers.seq().no_duplicates(),
                forall|h: BlockRef| #[trigger] headers@.contains(h) <==> self.may_start(natural, h),
                forall|h: BlockRef| #[trigger] headers@.contains(h) ==> self.cfg.has_block(h),
                match found {
                    None => forall|j: int, p: BlockRef| 0 <= j < k ==> !#[trigger] self.opens(natural, *latch, #[trigger] headers.seq()[j], p),
                    Some(o) => {
                        &&& self.opens(natural, *latch, o.0, o.1)
                        &&& self.cfg.has_block(o.0)
                        &&& self.cfg.has_block(o.1)
                        &&& headers.seq().subrange(0, k as int).contains(o.0)
                        &&& forall|j: int, p: BlockRef| 0 <= j < k && #[trigger] self.opens(natural, *latch, #[trigger] headers.seq()[j], p) ==> (headers.seq()[j], p) == o
                    },
                },
            decreases n - k,
        {
            let h = headers.at(k);
            let ghost found0 = found;
            let (p, several) = self.openers_at(natural, latch, h);
            if several {
                proof {
                    assert forall|o: (BlockRef, BlockRef)| !#[trigger] self.is_owner(natural, *latch, o) by {
                        let (p, q) = choose|p: BlockRef, q: BlockRef| p != q && #[trigger] self.opens(natural, *latch, h, p) && #[trigger] self.opens(natural, *latch, h, q);
                        if self.is_owner(natural, *latch, o) {
                            assert((h, p) == o && (h, q) == o);
                        }
                    }
                }
                return None;
            }
            if let Some(p) = p {
                if let Some(o) = found {
                    proof {
                        let w = choose|w: int| 0 <= w < k && headers.seq().subrange(0, k as int)[w] == o.0;
                        assert(headers.seq()[w] == o.0);
                        assert(o.0 != h);
                        assert forall|c: (BlockRef, BlockRef)| !#[trigger] self.is_owner(natural, *latch, c) by {
                            if self.is_owner(natural, *latch, c) {
                                assert(self.opens(natural, *latch, h, p));
                                assert((h, p) == c);
                                assert(self.opens(natural, *latch, o.0, o.1));
                                assert((o.0, o.1) == c);
                            }
                        }
                    }
                    return None;
                }
                found = Some((h, p));
            }
            proof {
                let post = headers.seq().subrange(0, k as int + 1);
                if found is Some {
                    if p is Some {
                        assert(post[k as int] == h);
                    } else {
                        let pre = headers.seq().subrange(0, k as int);
                        let w = choose|w: int| 0 <= w < pre.len() && pre[w] == (found0->0).0;
                        assert(post[w] == (found->0).0);
                    }
                }
            }
            k = k + 1;
        }
        proof {
            assert forall|h: BlockRef, p: BlockRef| #[trigger] self.opens(natural, *latch, h, p) implies headers@.contains(h) by {}
            match found {
                Some(o) => {
                    assert forall|h: BlockRef, p: BlockRef| #[trigger] self.opens(natural, *latch, h, p) implies (h, p) == o by {
                        assert(headers@.contains(h));
                        let j = choose|j: int| 0 <= j < headers.seq().len() && headers.seq()[j] == h;
                        assert(self.opens(natural, *latch, headers.seq()[j], p));
                    }
                    assert(self.is_owner(natural, *latch, o));
                    let c = choose|c: (BlockRef, BlockRef)| #[trigger] self.is_owner(natural, *latch, c);
                    assert(self.opens(natural, *latch, c.0, c.1));
                    assert((c.0, c.1) == o);
                },
                None => {
                    assert forall|o: (BlockRef, BlockRef)| !#[trigger] self.is_owner(natural, *latch, o) by {
                        if self.is_owner(natural, *latch, o) {
                            assert(headers@.contains(o.0));
                            let j = choose|j: int| 0 <= j < headers.seq().len() && headers.seq()[j] == o.0;
                            assert(!self.opens(natural, *latch, headers.seq()[j], o.1));
                        }
                    }
                },
            }
        }
        found
    }
}

/// A numeric `for` that one of a loop's back edges closes.
pub struct NumericSite {
    /// The position of the back edge.
    pub at: int,
    pub protocol: EdgeRef,
    pub latch: BlockRef,
    pub header: BlockRef,
    pub preheader: BlockRef,
    pub exit: BlockRef,
    pub latch_exit: BlockRef,
    /// The latch leaves to a copy of the block to which the loop leaves at once.
    pub doubled: bool,
}

struct Site {
    protocol: EdgeRef,
    latch: BlockRef,
    header: BlockRef,
    preheader: BlockRef,
    exit: BlockRef,
    latch_exit: BlockRef,
    doubled: bool,
}

impl Site {
    spec fn describes(&self, s: NumericSite) -> bool {
        &&& self.protocol == s.protocol
        &&& self.latch == s.latch
        &&& self.header == s.header
        &&& self.preheader == s.preheader
        &&& self.exit == s.exit
        &&& self.latch_exit == s.latch_exit
        &&& self.doubled == s.doubled
    }
}

/// The first `n` edges that satisfy `p` by position, in order.
pub open spec fn picked(edges: Seq<EdgeRef>, p: spec_fn(int) -> bool, n: nat) -> Seq<EdgeRef>
    decreases n,
{
    if n == 0 {
        Seq::empty()
    } else if p(n - 1) {
        picked(edges, p, (n - 1) as nat).push(edges[n - 1])
    } else {
        picked(edges, p, (n - 1) as nat)
    }
}

pub open spec fn other_than(k: int) -> spec_fn(int) -> bool {
    |i: int| i != k
}

pub open spec fn negated(p: spec_fn(int) -> bool) -> spec_fn(int) -> bool {
    |i: int| !p(i)
}

impl<'a> LoopContext<'a> {
    /// Back edge `i` comes from the latch of a numeric `for` that is opened in one way.
    pub open spec fn numeric_backedge(&self, l: &NaturalLoop) -> spec_fn(int) -> bool {
        |i: int|
            match latch_at(self.proto, self.cfg, self.cfg.edge(l.backedges@[i]).from) {
                Some(latch) => self.owner_of(l.header, latch) is Some,
                None => false,
            }
    }

    /// The numeric `for` that one of the loop's back edges closes.
    pub open spec fn numeric_site(&self, l: &NaturalLoop) -> Option<NumericSite> {
        match only_where(l.backedges@.len(), self.numeric_backedge(l)) {
            Some(k) => {
                let latch = self.cfg.edge(l.backedges@[k]).from;
                let closing = latch_at(self.proto, self.cfg, latch)->0;
                let (header, preheader) = self.owner_of(l.header, closing)->0;
                let init = init_at(self.proto, self.cfg, preheader)->0;
                let exit = block_of(self.cfg, init.exit_target);
                let latch_exit = block_of(self.cfg, closing.exit_target);
                Some(
                    NumericSite {
                        at: k,
                        protocol: l.backedges@[k],
                        latch,
                        header,
                        preheader,
                        exit,
                        latch_exit,
                        doubled: latch_exit != exit && same_return(
                            self.proto,
                            self.cfg,
                            closing.exit_target,
                            init.exit_target,
                        ),
                    },
                )
            },
            None => None,
        }
    }

    /// The blocks of the numeric `for`: from its header to its exit, with its latch.
    pub open spec fn site_blocks(&self, s: NumericSite) -> Set<BlockRef> {
        let region = forward_region(
            self.cfg,
            seq![s.header],
            Some(s.exit),
            Some((s.header, &self.graph.dominator_tree)),
        );
        (if s.doubled {
            region.remove(s.latch_exit)
        } else {
            region
        }).insert(s.latch)
    }

    /// The numeric `for` as a loop; where its exit returns twice, both returns are its exit.
    pub open spec fn site_loop(&self, s: NumericSite) -> LoopModel {
        let blocks = self.site_blocks(s);
        let plain = self.built(s.header, blocks, seq![s.protocol]);
        let exits = if s.doubled {
            plain.exits.insert(s.exit)
        } else {
            plain.exits
        };
        LoopModel {
            exits,
            control: if s.latch_exit != s.exit {
                Set::empty().insert(s.latch_exit)
            } else {
                Set::empty()
            },
            aliases: if s.doubled {
                seq![LoopExitAlias { block: s.latch_exit, continuation: s.exit }]
            } else {
                Seq::empty()
            },
            exit_values: if s.doubled {
                self.values_at_exits(exits, blocks, blocks)
            } else {
                plain.exit_values
            },
            ..plain
        }
    }

    /// The site's loop holds the natural loop and is a numeric `for` indeed.
    pub open spec fn site_holds(&self, l: &NaturalLoop, s: NumericSite) -> bool {
        let outer = self.site_loop(s);
        &&& l.blocks@.subset_of(self.site_blocks(s))
        &&& reducible_at(self.cfg, s.header, self.site_blocks(s))
        &&& outer.kind == LoopKindHint::NumericForLike
        &&& outer.preheader == Some(s.preheader)
        &&& outer.exits.contains(s.exit)
    }

    /// A smaller loop with the natural header, closed by some of the back edges.
    pub open spec fn inner_loop(&self, l: &NaturalLoop, rest: Seq<EdgeRef>) -> Option<LoopModel> {
        match domain_of(self.cfg, l, rest) {
            Some(inner) => if is_nested(self.cfg, l, inner, rest) {
                Some(LoopModel { header_values: Seq::empty(), ..self.built(l.header, inner, rest) })
            } else {
                None
            },
            None => None,
        }
    }

    /// A numeric `for` loop in place of the natural loop, with a smaller loop of the other back
    /// edges inside, where there are any.
    pub open spec fn numeric_parts(&self, l: &NaturalLoop) -> Option<Seq<LoopModel>> {
        match self.numeric_site(l) {
            Some(s) => {
                let rest = picked(l.backedges@, other_than(s.at), l.backedges@.len());
                if !self.site_holds(l, s) {
                    None
                } else if rest.len() == 0 {
                    Some(seq![self.site_loop(s)])
                } else {
                    match self.inner_loop(l, rest) {
                        Some(inner) => Some(seq![inner, self.site_loop(s)]),
                        None => None,
                    }
                }
            },
            None => None,
        }
    }

    fn drop_edge(&self, l: &NaturalLoop, k: usize) -> (r: Vec<EdgeRef>)
        requires
            natural_wf(self.cfg, l),
        ensures
            r@ == picked(l.backedges@, other_than(k as int), l.backedges@.len()),
            forall|i: int| 0 <= i < r@.len() ==> self.cfg.has_edge(#[trigger] r@[i]),
    {
        let n = l.backedges.len();
        let mut r: Vec<EdgeRef> = Vec::new();
        let mut i: usize = 0;
        while i < n
            invariant
                natural_wf(self.cfg, l),
                n == l.backedges@.len(),
                i <= n,
                r@ == picked(l.backedges@, other_than(k as int), i as nat),
                forall|i: int| 0 <= i < r@.len() ==> self.cfg.has_edge(#[trigger] r@[i]),
            decreases n - i,
        {
            assert(self.cfg.has_edge(l.backedges@[i as int]));
            if i != k {
                r.push(l.backedges[i]);
            }
            i = i + 1;
        }
        r
    }

    fn find_numeric_backedge(&self, l: &NaturalLoop) -> (r: Option<usize>)
        requires
            self.wf(),
            natural_wf(self.cfg, l),
        ensures
            match only_where(l.backedges@.len(), self.numeric_backedge(l)) {
                Some(k) => 0 <= k < l.backedges@.len() && r is Some && (r->0) as int == k && self.numeric_backedge(l)(k),
                None => r is None,
            },
    {
        let n = l.backedges.len();
        let ghost p = self.numeric_backedge(l);
        let mut found: Option<usize> = None;
        let mut i: usize = 0;
        while i < n
            invariant
                self.wf(),
                natural_wf(self.cfg, l),
                n == l.backedges@.len(),
                p == self.numeric_backedge(l),
                i <= n,
                match found {
                    None => count_where(i as nat, p) == 0 && first_where(i as nat, p) is None,
                    Some(k) => count_where(i as nat, p) == 1 && first_where(i as nat, p) == Some(k as int) && k < i && p(k as int),
                },
            decreases n - i,
        {
            let e = l.backedges[i];
            assert(self.cfg.has_edge(l.backedges@[i as int]));
            let from = self.cfg.edges[e.0].from;
            let hit = match find_latch(self.proto, self.cfg, from) {
                Some(latch) => self.numeric_for_owner(l.header, &latch).is_some(),
                None => false,
            };
            assert(p(i as int) == hit);
            if hit {
                if found.is_some() {
                    proof {
                        count_where_monotone((i + 1) as nat, n as nat, p);
                    }
                    return None;
                }
                found = Some(i);
            }
            i = i + 1;
        }
        found
    }

    fn find_numeric_site(&self, l: &NaturalLoop) -> (r: Option<(usize, Site)>)
        requires
            self.wf(),
            natural_wf(self.cfg, l),
        ensures
            match self.numeric_site(l) {
                Some(s) => {
                    &&& r is Some
                    &&& (r->0).0 as int == s.at
                    &&& (r->0).1.describes(s)
                    &&& self.cfg.has_edge(s.protocol)
                    &&& self.cfg.has_block(s.latch)
                    &&& self.cfg.has_block(s.header)
                    &&& self.cfg.has_block(s.exit)
                    &&& self.cfg.has_block(s.latch_exit)
                },
                None => r is None,
            },
    {
        let k = match self.find_numeric_backedge(l) {
            None => {
                return None;
            },
            Some(k) => k,
        };
        let protocol = l.backedges[k];
        assert(self.cfg.has_edge(l.backedges@[k as int]));
        let latch = self.cfg.edges[protocol.0].from;
        let closing = find_latch(self.proto, self.cfg, latch).unwrap();
        let (header, preheader) = self.numeric_for_owner(l.header, &closing).unwrap();
        let init = find_init(self.proto, self.cfg, preheader).unwrap();
        let exit = self.cfg.instr_to_block[init.exit_target.0];
        let latch_exit = self.cfg.instr_to_block[closing.exit_target.0];
        let doubled = latch_exit != exit && equivalent_single_return_targets(
            self.proto,
            self.cfg,
            closing.exit_target,
            init.exit_target,
        );
        Some((k, Site { protocol, latch, header, preheader, exit, latch_exit, doubled }))
    }

    /// Builds the site's loop, when it holds the natural loop and is a numeric `for` indeed.
    fn build_site(&self, l: &NaturalLoop, site: &Site, Ghost(s): Ghost<NumericSite>) -> (r: Option<LoopCandidate>)
        requires
            self.wf(),
            site.describes(s),
            self.cfg.has_edge(s.protocol),
            self.cfg.has_block(s.latch),
            self.cfg.has_block(s.header),
            self.cfg.has_block(s.exit),
            self.cfg.has_block(s.latch_exit),
        ensures
            match r {
                Some(c) => self.site_holds(l, s) && c@ == self.site_loop(s) && c.wf(self.cfg),
                None => !self.site_holds(l, s),
            },
    {
        let mut entries: Vec<BlockRef> = Vec::new();
        entries.push(site.header);
        assert(entries@ =~= seq![s.header]);
        let mut blocks = collect_forward_region_blocks(
            self.cfg,
            &entries,
            Some(site.exit),
            Some((site.header, &self.graph.dominator_tree)),
        );
        if site.doubled {
            blocks.remove(site.latch_exit);
        }
        blocks.insert(site.latch);
        assert(blocks@ == self.site_blocks(s));
        proof {
            lists_hold_boundary(self.cfg, blocks@);
        }
        if !l.blocks.is_subset(&blocks) || !is_reducible_region(self.cfg, site.header, &blocks) {
            return None;
        }
        let mut only: Vec<EdgeRef> = Vec::new();
        only.push(site.protocol);
        assert(only@ =~= seq![s.protocol]);
        let mut outer = self.build_loop_candidate(site.header, blocks, only);
        let ghost plain = outer@;
        assert(plain == self.built(s.header, self.site_blocks(s), seq![s.protocol]));
        if site.doubled {
            outer.exits.insert(site.exit);
            outer.normalized_exit_aliases.push(LoopExitAlias { block: site.latch_exit, continuation: site.exit });
            assert(outer.normalized_exit_aliases@ =~= seq![
                LoopExitAlias { block: s.latch_exit, continuation: s.exit },
            ]);
            outer.exit_value_merges = self.collect_exit_values(&outer.exits, &outer.blocks, &outer.blocks);
        }
        if site.latch_exit != site.exit {
            outer.control_blocks.insert(site.latch_exit);
        }
        let is_numeric = match outer.kind_hint {
            LoopKindHint::NumericForLike => true,
            _ => false,
        };
        assert(outer@ == self.site_loop(s));
        if !is_numeric || outer.preheader != Some(site.preheader) || !outer.exits.contains(site.exit) {
            return None;
        }
        Some(outer)
    }

    /// Builds the smaller loop of some back edges, where they form one.
    fn build_inner(&self, l: &NaturalLoop, rest: Vec<EdgeRef>) -> (r: Option<LoopCandidate>)
        requires
            self.wf(),
            natural_wf(self.cfg, l),
            forall|i: int| 0 <= i < rest@.len() ==> self.cfg.has_edge(#[trigger] rest@[i]),
        ensures
            match r {
                Some(c) => self.inner_loop(l, rest@) == Some(c@) && c.wf(self.cfg),
                None => self.inner_loop(l, rest@) is None,
            },
    {
        let inner = match natural_loop_domain_for_backedges(self.cfg, l, &rest) {
            None => {
                return None;
            },
            Some(s) => s,
        };
        if !self.residual_cycle_is_nested(l, &inner, &rest) {
            return None;
        }
        let mut child = self.build_loop_candidate(l.header, inner, rest);
        child.header_value_merges = Vec::new();
        assert(merge_models(child.header_value_merges@) =~= Seq::empty());
        Some(child)
    }

    pub fn reachable_numeric_for_loop(&self, l: &NaturalLoop) -> (r: Option<Vec<LoopCandidate>>)
        requires
            self.wf(),
            natural_wf(self.cfg, l),
        ensures
            match r {
                Some(list) => self.numeric_parts(l) == Some(loop_models(list@)) && loops_wf(self.cfg, list@),
                None => self.numeric_parts(l) is None,
            },
    {
        let (k, site) = match self.find_numeric_site(l) {
            None => {
                return None;
            },
            Some(found) => found,
        };
        let ghost s = self.numeric_site(l)->0;
        let outer = match self.build_site(l, &site, Ghost(s)) {
            None => {
                return None;
            },
            Some(c) => c,
        };
        let rest = self.drop_edge(l, k);
        let mut list: Vec<LoopCandidate> = Vec::new();
        if rest.len() > 0 {
            match self.build_inner(l, rest) {
                None => {
                    return None;
                },
                Some(child) => {
                    list.push(child);
                },
            }
        }
        list.push(outer);
        assert(loop_models(list@) =~= self.numeric_parts(l)->0);
        Some(list)
    }

    /// Back edge `i` ends an iteration with a condition that may leave the loop.
    pub open spec fn outer_backedge(&self, l: &NaturalLoop) -> spec_fn(int) -> bool {
        |i: int|
            {
                let source = self.cfg.edge(l.backedges@[i]).from;
                to_or_out(self.cfg, source, l.header, l.blocks@) || repeat_condition(self.proto, self.cfg, source, l.blocks@) is Some
            }
    }

    /// A `repeat` whose body starts with another loop: two loops with one header.
    pub open spec fn repeat_parts(&self, l: &NaturalLoop) -> Option<Seq<LoopModel>> {
        let p = self.outer_backedge(l);
        let outer = picked(l.backedges@, p, l.backedges@.len());
        let rest = picked(l.backedges@, negated(p), l.backedges@.len());
        let inner = self.inner_loop(l, rest);
        if l.backedges@.len() >= 2 && outer.len() > 0 && rest.len() > 0 && inner is Some {
            Some(seq![inner->0, self.built(l.header, l.blocks@, outer)])
        } else {
            None
        }
    }

    pub fn partition_repeat_like_natural_loop(&self, l: &NaturalLoop) -> (r: Option<Vec<LoopCandidate>>)
        requires
            self.wf(),
            natural_wf(self.cfg, l),
        ensures
            match r {
                Some(list) => self.repeat_parts(l) == Some(loop_models(list@)) && loops_wf(self.cfg, list@),
                None => self.repeat_parts(l) is None,
            },
    {
        let n = l.backedges.len();
        if n < 2 {
            return None;
        }
        let ghost p = self.outer_backedge(l);
        let mut outer: Vec<EdgeRef> = Vec::new();
        let mut rest: Vec<EdgeRef> = Vec::new();
        let mut i: usize = 0;
        while i < n
            invariant
                self.wf(),
                natural_wf(self.cfg, l),
                n == l.backedges@.len(),
                p == self.outer_backedge(l),
                i <= n,
                outer@ == picked(l.backedges@, p, i as nat),
                rest@ == picked(l.backedges@, negated(p), i as nat),
                forall|k: int| 0 <= k < outer@.len() ==> self.cfg.has_edge(#[trigger] outer@[k]),
                forall|k: int| 0 <= k < rest@.len() ==> self.cfg.has_edge(#[trigger] rest@[k]),
            decreases n - i,
        {
            let e = l.backedges[i];
            assert(self.cfg.has_edge(l.backedges@[i as int]));
            let source = self.cfg.edges[e.0].from;
            let is_outer = branch_has_header_and_exit(self.cfg, source, l.header, &l.blocks)
                || repeat_continue_target_via_backedge_pad(self.proto, self.cfg, source, &l.blocks).is_some();
            assert(p(i as int) == is_outer);
            if is_outer {
                outer.push(e);
            } else {
                rest.push(e);
            }
            i = i + 1;
        }
        if outer.len() == 0 || rest.len() == 0 {
            return None;
        }
        let child = match self.build_inner(l, rest) {
            None => {
                return None;
            },
            Some(c) => c,
        };
        let whole = self.build_loop_candidate(l.header, l.blocks.clone(), outer);
        let mut list: Vec<LoopCandidate> = Vec::new();
        list.push(child);
        list.push(whole);
        assert(loop_models(list@) =~= self.repeat_parts(l)->0);
        Some(list)
    }

    /// The loops that stand for one natural loop.
    pub open spec fn parts(&self, l: &NaturalLoop) -> Seq<LoopModel> {
        match self.numeric_parts(l) {
            Some(list) => list,
            None => match self.repeat_parts(l) {
                Some(list) => list,
                None => seq![self.built(l.header, l.blocks@, l.backedges@)],
            },
        }
    }

    /// Finds the loops that stand for one natural loop.
    pub fn partition(&self, l: &NaturalLoop) -> (r: Vec<LoopCandidate>)
        requires
            self.wf(),
            natural_wf(self.cfg, l),
        ensures
            loop_models(r@) == self.parts(l),
            loops_wf(self.cfg, r@),
    {
        if let Some(list) = self.reachable_numeric_for_loop(l) {
            return list;
        }
        if let Some(list) = self.partition_repeat_like_natural_loop(l) {
            return list;
        }
        let n = l.backedges.len();
        let mut edges: Vec<EdgeRef> = Vec::new();
        let mut i: usize = 0;
        while i < n
            invariant
                n == l.backedges@.len(),
                i <= n,
                edges@ =~= l.backedges@.subrange(0, i as int),
            decreases n - i,
        {
            edges.push(l.backedges[i]);
            i = i + 1;
        }
        assert(edges@ =~= l.backedges@);
        let c = self.build_loop_candidate(l.header, l.blocks.clone(), edges);
        let mut list: Vec<LoopCandidate> = Vec::new();
        list.push(c);
        assert(loop_models(list@) =~= self.parts(l));
        list
    }
}

} // verus!
