//! Flooding: everything reachable inside a region of blocks, and the queries built on it.

use vstd::prelude::*;
use vstd::seq_lib::seq_to_set_is_finite;
use vstd::set_lib::lemma_len_subset;

use crate::cfg::Cfg;
use crate::ids::{BlockRef, EdgeRef};
use crate::idset::IdSet;
use crate::search::count_where;
use crate::walk::{
    closed_set_holds_reachable, is_walk, reaches, reaches_monotone, reaches_self,
    reaches_then_step, Step,
};

verus! {

/// The blocks whose flag is set.
pub open spec fn mask_set(mask: Seq<bool>) -> Set<BlockRef> {
    Set::new(|b: BlockRef| b.0 < mask.len() && mask[b.0 as int])
}

/// One step along an edge, or against one, that stays in `region`.
pub open spec fn step_in(cfg: &Cfg, region: Set<BlockRef>, backward: bool) -> Step {
    |a: BlockRef, b: BlockRef|
        region.contains(a) && region.contains(b) && if backward {
            cfg.links(b, a)
        } else {
            cfg.links(a, b)
        }
}

/// `b` is reached from one of `starts` without leaving `region`.
pub open spec fn floods_to(
    cfg: &Cfg,
    starts: Seq<BlockRef>,
    region: Set<BlockRef>,
    backward: bool,
    b: BlockRef,
) -> bool {
    exists|k: int|
        0 <= k < starts.len() && region.contains(#[trigger] starts[k]) && reaches(
            step_in(cfg, region, backward),
            starts[k],
            b,
        )
}

pub open spec fn unset(mask: Seq<bool>) -> spec_fn(int) -> bool {
    |i: int| !mask[i]
}

proof fn unset_unchanged(n: nat, a: Seq<bool>, b: Seq<bool>)
    requires
        forall|i: int| 0 <= i < n ==> a[i] == b[i],
    ensures
        count_where(n, unset(a)) == count_where(n, unset(b)),
    decreases n,
{
    if n > 0 {
        unset_unchanged((n - 1) as nat, a, b);
    }
}

/// Setting one more flag leaves one fewer unset.
pub proof fn unset_decreases(n: nat, mask: Seq<bool>, at: int)
    requires
        0 <= at < n <= mask.len(),
        !mask[at],
    ensures
        count_where(n, unset(mask.update(at, true))) + 1 == count_where(n, unset(mask)),
    decreases n,
{
    if at == n - 1 {
        unset_unchanged((n - 1) as nat, mask, mask.update(at, true));
    } else {
        unset_decreases((n - 1) as nat, mask, at);
    }
}

/// Flags for the members of `set` among the first `n` blocks.
pub fn set_to_mask(set: &IdSet<BlockRef>, n: usize) -> (mask: Vec<bool>)
    ensures
        mask@.len() == n,
        forall|i: int| 0 <= i < n ==> #[trigger] mask@[i] == set@.contains(BlockRef(i as usize)),
{
    let mut mask: Vec<bool> = Vec::new();
    let mut i: usize = 0;
    while i < n
        invariant
            mask@.len() == i,
            i <= n,
            forall|j: int| 0 <= j < i ==> #[trigger] mask@[j] == set@.contains(BlockRef(j as usize)),
        decreases n - i,
    {
        mask.push(set.contains(BlockRef(i)));
        i = i + 1;
    }
    mask
}

pub fn mask_to_set(mask: &Vec<bool>) -> (set: IdSet<BlockRef>)
    ensures
        set@ == mask_set(mask@),
{
    let n = mask.len();
    let mut set: IdSet<BlockRef> = IdSet::new();
    let mut i: usize = 0;
    while i < n
        invariant
            n == mask@.len(),
            i <= n,
            forall|b: BlockRef| #[trigger] set@.contains(b) <==> b.0 < i && mask@[b.0 as int],
        decreases n - i,
    {
        if mask[i] {
            set.insert(BlockRef(i));
        }
        i = i + 1;
    }
    assert(set@ =~= mask_set(mask@));
    set
}

/// Marks every block that some allowed start reaches inside the allowed blocks.
pub fn flood(cfg: &Cfg, starts: &Vec<BlockRef>, allowed: &Vec<bool>, backward: bool) -> (seen: Vec<bool>)
    requires
        cfg.adjacency_wf(),
        allowed@.len() == cfg.blocks@.len(),
        forall|k: int| 0 <= k < starts@.len() ==> cfg.has_block(#[trigger] starts@[k]),
    ensures
        seen@.len() == cfg.blocks@.len(),
        forall|b: BlockRef| #[trigger] mask_set(seen@).contains(b) <==> floods_to(
            cfg,
            starts@,
            mask_set(allowed@),
            backward,
            b,
        ),
{
    let n = cfg.blocks.len();
    let ghost region = mask_set(allowed@);
    let ghost step = step_in(cfg, region, backward);
    let mut seen: Vec<bool> = vec![false; n];
    let mut stack: Vec<BlockRef> = Vec::new();
    let mut i: usize = 0;
    while i < starts.len()
        invariant
            n == cfg.blocks@.len(),
            region == mask_set(allowed@),
            step == step_in(cfg, region, backward),
            allowed@.len() == n,
            seen@.len() == n,
            i <= starts@.len(),
            forall|k: int| 0 <= k < starts@.len() ==> cfg.has_block(#[trigger] starts@[k]),
            forall|b: BlockRef| #[trigger] mask_set(seen@).contains(b) ==> region.contains(b) && floods_to(
                cfg,
                starts@,
                region,
                backward,
                b,
            ),
            forall|k: int| 0 <= k < i && region.contains(#[trigger] starts@[k]) ==> mask_set(seen@).contains(starts@[k]),
            forall|b: BlockRef| #[trigger] mask_set(seen@).contains(b) ==> stack@.contains(b),
            forall|k: int| 0 <= k < stack@.len() ==> mask_set(seen@).contains(#[trigger] stack@[k]),
        decreases starts@.len() - i,
    {
        let s = starts[i];
        let ghost seen0 = seen@;
        let ghost stack0 = stack@;
        if allowed[s.0] && !seen[s.0] {
            seen[s.0] = true;
            stack.push(s);
            proof {
                reaches_self(step, s);
                assert(starts@[i as int] == s);
                assert(floods_to(cfg, starts@, region, backward, s));
                assert forall|b: BlockRef| #[trigger] mask_set(seen@).contains(b) implies region.contains(b)
                    && floods_to(cfg, starts@, region, backward, b) && stack@.contains(b) by {
                    if b != s {
                        assert(mask_set(seen0).contains(b));
                        let q = choose|q: int| 0 <= q < stack0.len() && stack0[q] == b;
                        assert(stack@[q] == b);
                    } else {
                        assert(stack@[stack0.len() as int] == s);
                    }
                }
                assert forall|k: int| 0 <= k < stack@.len() implies mask_set(seen@).contains(#[trigger] stack@[k]) by {
                    if k < stack0.len() {
                        assert(mask_set(seen0).contains(stack0[k]));
                    }
                }
                assert forall|k: int| 0 <= k < i && region.contains(#[trigger] starts@[k]) implies mask_set(
                    seen@,
                ).contains(starts@[k]) by {
                    assert(mask_set(seen0).contains(starts@[k]));
                }
            }
        }
        i = i + 1;
    }
    while stack.len() > 0
        invariant
            cfg.adjacency_wf(),
            n == cfg.blocks@.len(),
            region == mask_set(allowed@),
            step == step_in(cfg, region, backward),
            allowed@.len() == n,
            seen@.len() == n,
            forall|b: BlockRef| #[trigger] mask_set(seen@).contains(b) ==> region.contains(b) && floods_to(
                cfg,
                starts@,
                region,
                backward,
                b,
            ),
            forall|k: int| 0 <= k < starts@.len() && region.contains(#[trigger] starts@[k]) ==> mask_set(
                seen@,
            ).contains(starts@[k]),
            forall|k: int| 0 <= k < stack@.len() ==> mask_set(seen@).contains(#[trigger] stack@[k]),
            forall|x: BlockRef, y: BlockRef|
                mask_set(seen@).contains(x) && #[trigger] step(x, y) ==> mask_set(seen@).contains(y)
                    || stack@.contains(x),
        decreases count_where(n as nat, unset(seen@)), stack@.len(),
    {
        let ghost stack0 = stack@;
        let ghost seen0 = seen@;
        let x = stack.pop().unwrap();
        let ghost rest = stack@;
        assert(x == stack0[stack0.len() - 1]);
        assert(mask_set(seen@).contains(x));
        let m = if backward {
            cfg.preds[x.0].len()
        } else {
            cfg.succs[x.0].len()
        };
        let mut j: usize = 0;
        while j < m
            invariant
                cfg.adjacency_wf(),
                n == cfg.blocks@.len(),
                region == mask_set(allowed@),
                step == step_in(cfg, region, backward),
                allowed@.len() == n,
                seen@.len() == n,
                cfg.has_block(x),
                region.contains(x),
                floods_to(cfg, starts@, region, backward, x),
                m == (if backward {
                    cfg.in_edges(x).len()
                } else {
                    cfg.out_edges(x).len()
                }),
                j <= m,
                forall|b: BlockRef| #[trigger] mask_set(seen@).contains(b) ==> region.contains(b) && floods_to(
                    cfg,
                    starts@,
                    region,
                    backward,
                    b,
                ),
                forall|b: BlockRef| #[trigger] mask_set(seen0).contains(b) ==> mask_set(seen@).contains(b),
                forall|b: BlockRef| #[trigger] mask_set(seen@).contains(b) ==> mask_set(seen0).contains(b)
                    || stack@.contains(b),
                rest.len() <= stack@.len(),
                forall|k: int| 0 <= k < rest.len() ==> stack@[k] == #[trigger] rest[k],
                forall|k: int| 0 <= k < stack@.len() ==> mask_set(seen@).contains(#[trigger] stack@[k]),
                forall|k: int| 0 <= k < j && region.contains(
                    #[trigger] neighbour(cfg, x, k, backward),
                ) ==> mask_set(seen@).contains(neighbour(cfg, x, k, backward)),
                count_where(n as nat, unset(seen@)) <= count_where(n as nat, unset(seen0)),
                count_where(n as nat, unset(seen@)) == count_where(n as nat, unset(seen0)) ==> stack@.len()
                    == rest.len(),
            decreases m - j,
        {
            let y = if backward {
                let e = cfg.preds[x.0][j];
                assert(e == cfg.in_edges(x)[j as int]);
                assert(cfg.has_edge(e));
                cfg.edges[e.0].from
            } else {
                let e = cfg.succs[x.0][j];
                assert(e == cfg.out_edges(x)[j as int]);
                assert(cfg.has_edge(e));
                cfg.edges[e.0].to
            };
            assert(y == neighbour(cfg, x, j as int, backward));
            assert(if backward {
                cfg.links(y, x)
            } else {
                cfg.links(x, y)
            });
            if allowed[y.0] && !seen[y.0] {
                let ghost seen1 = seen@;
                let ghost stack1 = stack@;
                proof {
                    assert(step(x, y));
                    let k = choose|k: int|
                        0 <= k < starts@.len() && region.contains(#[trigger] starts@[k]) && reaches(
                            step_in(cfg, region, backward),
                            starts@[k],
                            x,
                        );
                    reaches_then_step(step, starts@[k], x, y);
                    assert(floods_to(cfg, starts@, region, backward, y));
                    unset_decreases(n as nat, seen@, y.0 as int);
                }
                seen[y.0] = true;
                stack.push(y);
                proof {
                    assert forall|b: BlockRef| #[trigger] mask_set(seen@).contains(b) implies region.contains(b)
                        && floods_to(cfg, starts@, region, backward, b) && (mask_set(seen0).contains(b)
                        || stack@.contains(b)) by {
                        if b != y {
                            assert(mask_set(seen1).contains(b));
                            if stack1.contains(b) {
                                let q = choose|q: int| 0 <= q < stack1.len() && stack1[q] == b;
                                assert(stack@[q] == b);
                            }
                        } else {
                            assert(stack@[stack1.len() as int] == y);
                        }
                    }
                    assert forall|b: BlockRef| #[trigger] mask_set(seen0).contains(b) implies mask_set(
                        seen@,
                    ).contains(b) by {
                        assert(mask_set(seen1).contains(b));
                    }
                    assert forall|k: int| 0 <= k < stack@.len() implies mask_set(seen@).contains(
                        #[trigger] stack@[k],
                    ) by {
                        if k < stack1.len() {
                            assert(mask_set(seen1).contains(stack1[k]));
                        }
                    }
                    assert forall|k: int| 0 <= k < j + 1 && region.contains(
                        #[trigger] neighbour(cfg, x, k, backward),
                    ) implies mask_set(seen@).contains(neighbour(cfg, x, k, backward)) by {
                        if k < j {
                            assert(mask_set(seen1).contains(neighbour(cfg, x, k, backward)));
                        }
                    }
                }
            }
            j = j + 1;
        }
        proof {
            assert forall|a: BlockRef, b: BlockRef|
                mask_set(seen@).contains(a) && #[trigger] step(a, b) implies mask_set(seen@).contains(b)
                || stack@.contains(a) by {
                if a == x {
                    neighbour_complete(cfg, x, b, backward);
                } else if mask_set(seen0).contains(a) {
                    if !mask_set(seen0).contains(b) {
                        assert(stack0.contains(a));
                        let q = choose|q: int| 0 <= q < stack0.len() && stack0[q] == a;
                        assert(q < rest.len());
                        assert(rest[q] == a);
                        assert(stack@[q] == a);
                    }
                }
            }
            assert forall|k: int| 0 <= k < starts@.len() && region.contains(#[trigger] starts@[k]) implies mask_set(
                seen@,
            ).contains(starts@[k]) by {
                assert(mask_set(seen0).contains(starts@[k]));
            }
        }
    }
    proof {
        assert forall|b: BlockRef| floods_to(cfg, starts@, region, backward, b) implies #[trigger] mask_set(
            seen@,
        ).contains(b) by {
            let k = choose|k: int|
                0 <= k < starts@.len() && region.contains(#[trigger] starts@[k]) && reaches(
                    step_in(cfg, region, backward),
                    starts@[k],
                    b,
                );
            closed_set_holds_reachable(step, mask_set(seen@), starts@[k], b);
        }
    }
    seen
}

/// The block at the other end of the `k`-th edge out of (or, backward, into) `x`.
pub open spec fn neighbour(cfg: &Cfg, x: BlockRef, k: int, backward: bool) -> BlockRef {
    if backward {
        cfg.edge(cfg.in_edges(x)[k]).from
    } else {
        cfg.edge(cfg.out_edges(x)[k]).to
    }
}

pub open spec fn degree(cfg: &Cfg, x: BlockRef, backward: bool) -> nat {
    if backward {
        cfg.in_edges(x).len()
    } else {
        cfg.out_edges(x).len()
    }
}

/// The adjacency lists name every linked block.
pub proof fn neighbour_complete(cfg: &Cfg, x: BlockRef, y: BlockRef, backward: bool)
    requires
        cfg.adjacency_wf(),
        if backward {
            cfg.links(y, x)
        } else {
            cfg.links(x, y)
        },
    ensures
        exists|k: int| 0 <= k < degree(cfg, x, backward) && #[trigger] neighbour(cfg, x, k, backward) == y,
        cfg.has_block(x),
        cfg.has_block(y),
{
    if backward {
        let e = choose|e: EdgeRef| #[trigger] cfg.has_edge(e) && cfg.edge(e).from == y && cfg.edge(e).to == x;
        let k = choose|k: int| 0 <= k < cfg.in_edges(x).len() && cfg.in_edges(x)[k] == e;
        assert(neighbour(cfg, x, k, backward) == y);
    } else {
        let e = choose|e: EdgeRef| #[trigger] cfg.has_edge(e) && cfg.edge(e).from == x && cfg.edge(e).to == y;
        let k = choose|k: int| 0 <= k < cfg.out_edges(x).len() && cfg.out_edges(x)[k] == e;
        assert(neighbour(cfg, x, k, backward) == y);
    }
}

/// Along steps inside a region a walk of more than zero steps ends in the region.
pub proof fn flood_stays(cfg: &Cfg, region: Set<BlockRef>, backward: bool, a: BlockRef, b: BlockRef)
    requires
        region.contains(a),
        reaches(step_in(cfg, region, backward), a, b),
    ensures
        region.contains(b),
{
    closed_set_holds_reachable(step_in(cfg, region, backward), region, a, b);
}

impl Cfg {
    /// One step along an outgoing edge that stays in `region`.
    pub open spec fn listed_step(&self, region: Set<BlockRef>) -> Step {
        |a: BlockRef, b: BlockRef| region.contains(a) && region.contains(b) && self.leads_to(a, b)
    }

    /// `b` is reached from `from` by outgoing edges without leaving `region`.
    pub open spec fn wanders_to(&self, region: Set<BlockRef>, from: BlockRef, b: BlockRef) -> bool {
        region.contains(from) && reaches(self.listed_step(region), from, b)
    }

    /// Reaching `to` through blocks that are reachable and allowed; `to` itself need not be
    /// allowed.
    pub open spec fn reaches_within(&self, from: BlockRef, to: BlockRef, allowed: Set<BlockRef>) -> bool {
        from == to || {
            let region = allowed.intersect(self.reachable_blocks@);
            exists|x: BlockRef| #[trigger] self.wanders_to(region, from, x) && self.leads_to(x, to)
        }
    }

    /// The blocks that a search from `from` comes to have lists of outgoing edges.
    pub open spec fn can_search(&self, from: BlockRef, allowed: Set<BlockRef>) -> bool {
        forall|x: BlockRef| #[trigger]
            self.wanders_to(allowed.intersect(self.reachable_blocks@), from, x) ==> self.lists_out(x)
    }

    /// Looks for an edge from `block` to `to`, and notes where else the edges lead.
    fn look_ahead(&self, block: BlockRef, to: BlockRef, pending: &mut Vec<BlockRef>) -> (found: bool)
        requires
            self.lists_out(block),
        ensures
            found == self.leads_to(block, to),
            old(pending)@.is_prefix_of(final(pending)@),
            forall|k: int| old(pending)@.len() <= k < final(pending)@.len() ==> self.leads_to(block, #[trigger] final(pending)@[k]),
            !found ==> forall|b: BlockRef| #[trigger] self.leads_to(block, b) ==> final(pending)@.contains(b),
    {
        let n = self.succs[block.0].len();
        let mut i: usize = 0;
        while i < n
            invariant
                self.lists_out(block),
                n == self.out_edges(block).len(),
                i <= n,
                old(pending)@.is_prefix_of(pending@),
                forall|k: int| old(pending)@.len() <= k < pending@.len() ==> self.leads_to(block, #[trigger] pending@[k]),
                forall|k: int|
                    0 <= k < i ==> self.edge(#[trigger] self.out_edges(block)[k]).to != to && pending@.contains(
                        self.edge(self.out_edges(block)[k]).to,
                    ),
            decreases n - i,
        {
            let e = self.succs[block.0][i];
            assert(e == self.out_edges(block)[i as int]);
            let next = self.edges[e.0].to;
            assert(self.edge(self.out_edges(block)[i as int]).to == next);
            if next == to {
                return true;
            }
            let ghost before = pending@;
            pending.push(next);
            proof {
                assert(pending@[before.len() as int] == next);
                assert forall|k: int| 0 <= k < i implies pending@.contains(self.edge(#[trigger] self.out_edges(block)[k]).to) by {
                    let b = self.edge(self.out_edges(block)[k]).to;
                    assert(pending@[before.index_of(b)] == b);
                }
            }
            i = i + 1;
        }
        proof {
            assert forall|b: BlockRef| #[trigger] self.leads_to(block, b) implies b != to && pending@.contains(b) by {
                let k = choose|k: int|
                    0 <= k < self.out_edges(block).len() && self.edge(#[trigger] self.out_edges(block)[k]).to == b;
                assert(self.edge(self.out_edges(block)[k]).to == b);
            }
        }
        false
    }

    pub fn can_reach_within(&self, from: BlockRef, to: BlockRef, allowed_blocks: &IdSet<BlockRef>) -> (r: bool)
        requires
            from != to ==> self.can_search(from, allowed_blocks@),
        ensures
            r == self.reaches_within(from, to, allowed_blocks@),
    {
        if from == to {
            return true;
        }
        let ghost region = allowed_blocks@.intersect(self.reachable_blocks@);
        let ghost step = self.listed_step(region);
        proof {
            seq_to_set_is_finite(allowed_blocks.seq());
            assert(region.finite());
        }
        let mut visited: IdSet<BlockRef> = IdSet::new();
        let mut pending: Vec<BlockRef> = Vec::new();
        pending.push(from);
        proof {
            reaches_self(step, from);
            assert(pending@[0] == from);
        }
        while pending.len() > 0
            invariant
                from != to,
                self.can_search(from, allowed_blocks@),
                region == allowed_blocks@.intersect(self.reachable_blocks@),
                region.finite(),
                step == self.listed_step(region),
                visited@.subset_of(region),
                region.contains(from) ==> visited@.contains(from) || pending@.contains(from),
                forall|x: BlockRef| #[trigger] visited@.contains(x) ==> self.wanders_to(region, from, x) && !self.leads_to(x, to),
                forall|k: int|
                    0 <= k < pending@.len() && region.contains(#[trigger] pending@[k]) ==> self.wanders_to(region, from, pending@[k]),
                forall|x: BlockRef, y: BlockRef|
                    #![trigger visited@.contains(x), self.leads_to(x, y)]
                    visited@.contains(x) && self.leads_to(x, y) && region.contains(y) ==> visited@.contains(y) || pending@.contains(y),
            decreases region.len() - visited@.len(), pending@.len(),
        {
            let ghost all = pending@;
            let block = pending[pending.len() - 1];
            pending.pop();
            proof {
                lemma_len_subset(visited@, region);
                assert forall|y: BlockRef| #[trigger] all.contains(y) && y != block implies pending@.contains(y) by {
                    let k = all.index_of(y);
                    assert(pending@[k] == y);
                }
                assert(all[all.len() - 1] == block);
            }
            if self.reachable_blocks.contains(block) && allowed_blocks.contains(block) && !visited.contains(block) {
                let ghost rest = pending@;
                let ghost before = visited@;
                assert(self.wanders_to(region, from, block));
                if self.look_ahead(block, to, &mut pending) {
                    return true;
                }
                visited.insert(block);
                proof {
                    lemma_len_subset(visited@, region);
                    assert forall|k: int|
                        0 <= k < pending@.len() && region.contains(#[trigger] pending@[k]) implies self.wanders_to(
                        region,
                        from,
                        pending@[k],
                    ) by {
                        if k < rest.len() {
                            assert(pending@[k] == rest[k] && rest[k] == all[k]);
                        } else {
                            assert(step(block, pending@[k]));
                            reaches_then_step(step, from, block, pending@[k]);
                        }
                    }
                    assert forall|y: BlockRef| #[trigger] rest.contains(y) implies pending@.contains(y) by {
                        let k = rest.index_of(y);
                        assert(pending@[k] == y);
                    }
                    assert forall|x: BlockRef, y: BlockRef|
                        #![trigger visited@.contains(x), self.leads_to(x, y)]
                        visited@.contains(x) && self.leads_to(x, y) && region.contains(y) implies visited@.contains(y)
                        || pending@.contains(y) by {
                        if x != block {
                            assert(before.contains(x));
                            assert(before.contains(y) || all.contains(y));
                            if !before.contains(y) && y != block {
                                assert(rest.contains(y));
                            }
                        }
                    }
                }
            } else {
                proof {
                    assert forall|k: int|
                        0 <= k < pending@.len() && region.contains(#[trigger] pending@[k]) implies self.wanders_to(
                        region,
                        from,
                        pending@[k],
                    ) by {
                        assert(pending@[k] == all[k]);
                    }
                }
            }
        }
        proof {
            if self.reaches_within(from, to, allowed_blocks@) {
                let x = choose|x: BlockRef| #[trigger] self.wanders_to(region, from, x) && self.leads_to(x, to);
                assert forall|u: BlockRef, v: BlockRef| visited@.contains(u) && #[trigger] step(u, v) implies visited@.contains(v) by {
                    assert(self.leads_to(u, v));
                }
                closed_set_holds_reachable(step, visited@, from, x);
            }
        }
        false
    }

    pub fn can_reach(&self, from: BlockRef, to: BlockRef) -> (r: bool)
        requires
            from != to ==> self.can_search(from, self.reachable_blocks@),
        ensures
            r == self.reaches_within(from, to, self.reachable_blocks@),
            self.adjacency_wf() && self.reachability_wf() && self.has_block(self.entry_block) ==> r == (from == to || (
            self.is_reachable(from) && reaches(self.step(), from, to))),
    {
        proof {
            if self.adjacency_wf() && self.reachability_wf() && self.has_block(self.entry_block) {
                reach_in_reachable(self, from, to);
            }
        }
        self.can_reach_within(from, to, &self.reachable_blocks)
    }
}

/// In a consistent graph a search may start anywhere.
pub proof fn searches_everywhere(cfg: &Cfg, from: BlockRef, allowed: Set<BlockRef>)
    requires
        cfg.adjacency_wf(),
        forall|b: BlockRef| #[trigger] cfg.is_reachable(b) ==> cfg.has_block(b),
    ensures
        cfg.can_search(from, allowed),
{
    let region = allowed.intersect(cfg.reachable_blocks@);
    assert forall|x: BlockRef| #[trigger] cfg.wanders_to(region, from, x) implies cfg.lists_out(x) by {
        closed_set_holds_reachable(cfg.listed_step(region), region, from, x);
        assert(cfg.is_reachable(x));
        cfg.lists_hold_links(x);
    }
}

/// Every reachable block exists.
pub proof fn reachable_in_range(cfg: &Cfg)
    requires
        cfg.adjacency_wf(),
        cfg.reachability_wf(),
        cfg.has_block(cfg.entry_block),
    ensures
        forall|b: BlockRef| #[trigger] cfg.is_reachable(b) ==> cfg.has_block(b),
{
    assert forall|b: BlockRef| #[trigger] cfg.is_reachable(b) implies cfg.has_block(b) by {
        let all = Set::new(|x: BlockRef| cfg.has_block(x));
        closed_set_holds_reachable(cfg.step(), all, cfg.entry_block, b);
    }
}

/// The reachable blocks are closed under the edges.
pub proof fn reachable_closed(cfg: &Cfg, a: BlockRef, b: BlockRef)
    requires
        cfg.reachability_wf(),
        cfg.is_reachable(a),
        cfg.links(a, b),
    ensures
        cfg.is_reachable(b),
{
    assert((cfg.step())(a, b));
    reaches_then_step(cfg.step(), cfg.entry_block, a, b);
}

/// A walk of more than zero steps ends with one step.
pub proof fn reaches_last_step(step: Step, a: BlockRef, b: BlockRef) -> (x: BlockRef)
    requires
        reaches(step, a, b),
        a != b,
    ensures
        step(x, b),
        reaches(step, a, x),
{
    let p = choose|p: Seq<BlockRef>| #[trigger] is_walk(step, p) && p.first() == a && p.last() == b;
    assert(p.len() > 1);
    let i = p.len() - 2;
    assert(step(p[i], p[i + 1]));
    let q = p.drop_last();
    assert forall|k: int| 0 <= k < q.len() - 1 implies step(#[trigger] q[k], q[k + 1]) by {
        assert(step(p[k], p[k + 1]));
    }
    assert(is_walk(step, q));
    assert(q.first() == a && q.last() == p[i]);
    p[i]
}

/// Walking inside the reachable blocks is walking.
proof fn reach_in_reachable(cfg: &Cfg, from: BlockRef, to: BlockRef)
    requires
        cfg.adjacency_wf(),
        cfg.reachability_wf(),
        cfg.has_block(cfg.entry_block),
    ensures
        cfg.reaches_within(from, to, cfg.reachable_blocks@) == (from == to || (cfg.is_reachable(from) && reaches(
            cfg.step(),
            from,
            to,
        ))),
{
    let all = cfg.reachable_blocks@;
    let region = all.intersect(all);
    assert(region =~= all);
    reachable_in_range(cfg);
    let inner = cfg.listed_step(region);
    assert forall|u: BlockRef, v: BlockRef| cfg.is_reachable(u) implies (#[trigger] cfg.leads_to(u, v) <==> cfg.links(u, v)) by {
        cfg.lists_hold_links(u);
    }
    if from != to {
        if cfg.reaches_within(from, to, all) {
            let x = choose|x: BlockRef| #[trigger] cfg.wanders_to(region, from, x) && cfg.leads_to(x, to);
            assert forall|u: BlockRef, v: BlockRef| #[trigger] inner(u, v) implies (cfg.step())(u, v) by {
                assert(cfg.leads_to(u, v));
            }
            closed_set_holds_reachable(inner, region, from, x);
            reaches_monotone(inner, cfg.step(), from, x);
            assert((cfg.step())(x, to));
            reaches_then_step(cfg.step(), from, x, to);
        }
        if cfg.is_reachable(from) && reaches(cfg.step(), from, to) {
            let x = reaches_last_step(cfg.step(), from, to);
            let s = Set::new(|y: BlockRef| reaches(inner, from, y) && region.contains(y));
            reaches_self(inner, from);
            assert forall|u: BlockRef, v: BlockRef| s.contains(u) && #[trigger] (cfg.step())(u, v) implies s.contains(v) by {
                reachable_closed(cfg, u, v);
                assert(cfg.leads_to(u, v));
                assert(inner(u, v));
                reaches_then_step(inner, from, u, v);
            }
            closed_set_holds_reachable(cfg.step(), s, from, x);
            assert(cfg.wanders_to(region, from, x));
            assert(cfg.leads_to(x, to));
        }
    }
}

} // verus!
