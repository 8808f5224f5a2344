//! Dominance along a step relation, and the tree of immediate dominators.

use vstd::prelude::*;

use crate::cfg::Cfg;
use crate::flood::{flood, floods_to, mask_set, step_in};
use crate::forest::{is_ancestor, up, up_extends};
use crate::ids::BlockRef;
use crate::search::{count_where, count_where_bound, count_where_zero, least_where, least_where_least};
use crate::tree::{build_tree, covers_is_ancestry, depth_wf, members, Tree};
use crate::walk::{is_walk, reaches, reaches_self, Step};

verus! {

/// `b` is reachable from `root`, and every walk from `root` to `b` passes `d`.
pub open spec fn dominates(step: Step, root: BlockRef, d: BlockRef, b: BlockRef) -> bool {
    &&& reaches(step, root, b)
    &&& forall|p: Seq<BlockRef>| #[trigger]
        is_walk(step, p) && p.first() == root && p.last() == b ==> p.contains(d)
}

pub open spec fn strictly_dominates(step: Step, root: BlockRef, d: BlockRef, b: BlockRef) -> bool {
    d != b && dominates(step, root, d, b)
}

/// `d` is the strict dominator of `b` that every other one dominates.
pub open spec fn immediately_dominates(step: Step, root: BlockRef, d: BlockRef, b: BlockRef) -> bool {
    &&& strictly_dominates(step, root, d, b)
    &&& forall|e: BlockRef| #[trigger] strictly_dominates(step, root, e, b) ==> dominates(step, root, e, d)
}

proof fn prefix_walk(step: Step, p: Seq<BlockRef>, i: int)
    requires
        is_walk(step, p),
        0 <= i < p.len(),
    ensures
        is_walk(step, p.subrange(0, i + 1)),
        p.subrange(0, i + 1).first() == p.first(),
        p.subrange(0, i + 1).last() == p[i],
{
    let q = p.subrange(0, i + 1);
    assert forall|k: int| 0 <= k < q.len() - 1 implies step(#[trigger] q[k], q[k + 1]) by {
        assert(step(p[k], p[k + 1]));
    }
}

/// A walk's tail after index `i` can follow any other walk to the same node.
proof fn spliced_walk(step: Step, q: Seq<BlockRef>, p: Seq<BlockRef>, i: int)
    requires
        is_walk(step, p),
        is_walk(step, q),
        0 <= i < p.len(),
        q.last() == p[i],
    ensures
        is_walk(step, q + p.subrange(i + 1, p.len() as int)),
        (q + p.subrange(i + 1, p.len() as int)).first() == q.first(),
        (q + p.subrange(i + 1, p.len() as int)).last() == p.last(),
{
    let t = p.subrange(i + 1, p.len() as int);
    let w = q + t;
    assert forall|k: int| 0 <= k < w.len() - 1 implies step(#[trigger] w[k], w[k + 1]) by {
        if k + 1 < q.len() {
            assert(step(q[k], q[k + 1]));
        } else {
            let j = k - q.len() + 1 + i;
            assert(w[k] == p[j]);
            assert(w[k + 1] == p[j + 1]);
            assert(step(p[j], p[j + 1]));
        }
    }
}

pub proof fn dominates_reflexive(step: Step, root: BlockRef, b: BlockRef)
    requires
        reaches(step, root, b),
    ensures
        dominates(step, root, b, b),
{
    assert forall|p: Seq<BlockRef>| #[trigger] is_walk(step, p) && p.first() == root && p.last() == b implies p.contains(b) by {
        assert(p[p.len() - 1] == b);
    }
}

/// The root dominates everything that it reaches.
pub proof fn root_dominates(step: Step, root: BlockRef, b: BlockRef)
    requires
        reaches(step, root, b),
    ensures
        dominates(step, root, root, b),
{
    assert forall|p: Seq<BlockRef>| #[trigger] is_walk(step, p) && p.first() == root && p.last() == b implies p.contains(
        root,
    ) by {
        assert(p[0] == root);
    }
}

/// A dominator is itself reachable.
pub proof fn dominator_reached(step: Step, root: BlockRef, d: BlockRef, b: BlockRef)
    requires
        dominates(step, root, d, b),
    ensures
        reaches(step, root, d),
{
    let p = choose|p: Seq<BlockRef>| #[trigger] is_walk(step, p) && p.first() == root && p.last() == b;
    let i = choose|i: int| 0 <= i < p.len() && p[i] == d;
    prefix_walk(step, p, i);
}

pub proof fn dominates_transitive(step: Step, root: BlockRef, a: BlockRef, b: BlockRef, c: BlockRef)
    requires
        dominates(step, root, a, b),
        dominates(step, root, b, c),
    ensures
        dominates(step, root, a, c),
{
    assert forall|p: Seq<BlockRef>| #[trigger] is_walk(step, p) && p.first() == root && p.last() == c implies p.contains(a) by {
        let i = choose|i: int| 0 <= i < p.len() && p[i] == b;
        prefix_walk(step, p, i);
        let q = p.subrange(0, i + 1);
        assert(q.contains(a));
        let j = choose|j: int| 0 <= j < q.len() && q[j] == a;
        assert(p[j] == a);
    }
}

/// The shortest prefix that holds `d`.
proof fn first_visit(p: Seq<BlockRef>, d: BlockRef, n: nat) -> (i: int)
    requires
        n <= p.len(),
        p.subrange(0, n as int).contains(d),
    ensures
        0 <= i < n,
        p[i] == d,
        forall|k: int| 0 <= k < i ==> p[k] != d,
    decreases n,
{
    if n > 1 && p.subrange(0, n - 1).contains(d) {
        first_visit(p, d, (n - 1) as nat)
    } else {
        let k = choose|k: int| 0 <= k < n && p.subrange(0, n as int)[k] == d;
        if k < n - 1 {
            assert(p.subrange(0, n - 1)[k] == d);
        }
        assert forall|q: int| 0 <= q < n - 1 implies p[q] != d by {
            if p[q] == d {
                assert(p.subrange(0, n - 1)[q] == d);
            }
        }
        n - 1
    }
}

/// The last place at which `d` stands.
proof fn last_visit(p: Seq<BlockRef>, d: BlockRef) -> (i: int)
    requires
        p.contains(d),
    ensures
        0 <= i < p.len(),
        p[i] == d,
        forall|k: int| i < k < p.len() ==> p[k] != d,
    decreases p.len(),
{
    if p.last() == d {
        p.len() - 1
    } else {
        let q = p.drop_last();
        let k = choose|k: int| 0 <= k < p.len() && p[k] == d;
        assert(q[k] == d);
        let i = last_visit(q, d);
        assert forall|k: int| i < k < p.len() implies p[k] != d by {
            if k < q.len() {
                assert(q[k] != d);
            }
        }
        i
    }
}

/// On the way to a node a walk passes each of its dominators.
proof fn passes_dominator(step: Step, root: BlockRef, d: BlockRef, p: Seq<BlockRef>, i: int) -> (j: int)
    requires
        is_walk(step, p),
        p.first() == root,
        0 <= i < p.len(),
        dominates(step, root, d, p[i]),
    ensures
        0 <= j <= i,
        p[j] == d,
{
    prefix_walk(step, p, i);
    let q = p.subrange(0, i + 1);
    assert(q.contains(d));
    let j = choose|j: int| 0 <= j < q.len() && q[j] == d;
    j
}

pub proof fn dominates_antisymmetric(step: Step, root: BlockRef, a: BlockRef, b: BlockRef)
    requires
        dominates(step, root, a, b),
        dominates(step, root, b, a),
    ensures
        a == b,
{
    let p = choose|p: Seq<BlockRef>| #[trigger] is_walk(step, p) && p.first() == root && p.last() == b;
    let k = passes_dominator(step, root, a, p, p.len() - 1);
    assert(p.subrange(0, p.len() as int)[k] == a);
    let i = first_visit(p, a, p.len());
    let j = passes_dominator(step, root, b, p, i);
    let h = passes_dominator(step, root, a, p, j);
}

/// The dominators of a node form a chain.
pub proof fn dominators_chain(step: Step, root: BlockRef, a: BlockRef, b: BlockRef, c: BlockRef)
    requires
        dominates(step, root, a, c),
        dominates(step, root, b, c),
    ensures
        dominates(step, root, a, b) || dominates(step, root, b, a),
{
    let p = choose|p: Seq<BlockRef>| #[trigger] is_walk(step, p) && p.first() == root && p.last() == c;
    dominator_reached(step, root, a, c);
    dominator_reached(step, root, b, c);
    let i = last_visit(p, a);
    let j = last_visit(p, b);
    if a == b {
        dominates_reflexive(step, root, a);
    } else if i < j {
        if !dominates(step, root, a, b) {
            let q = choose|q: Seq<BlockRef>| #[trigger]
                is_walk(step, q) && q.first() == root && q.last() == b && !q.contains(a);
            detour(step, root, a, c, q, p, j);
        }
    } else {
        if !dominates(step, root, b, a) {
            let q = choose|q: Seq<BlockRef>| #[trigger]
                is_walk(step, q) && q.first() == root && q.last() == a && !q.contains(b);
            detour(step, root, b, c, q, p, i);
        }
    }
}

proof fn detour(step: Step, root: BlockRef, d: BlockRef, c: BlockRef, q: Seq<BlockRef>, p: Seq<BlockRef>, j: int)
    requires
        is_walk(step, p),
        p.last() == c,
        is_walk(step, q),
        q.first() == root,
        0 <= j < p.len(),
        q.last() == p[j],
        !q.contains(d),
        forall|k: int| j < k < p.len() ==> p[k] != d,
    ensures
        !dominates(step, root, d, c),
{
    spliced_walk(step, q, p, j);
    let t = p.subrange(j + 1, p.len() as int);
    let w = q + t;
    assert(!w.contains(d)) by {
        if w.contains(d) {
            let k = choose|k: int| 0 <= k < w.len() && w[k] == d;
            if k < q.len() {
                assert(q[k] == d);
            } else {
                assert(p[k - q.len() + j + 1] == d);
            }
        }
    }
}

/// `i` is a strict dominator of `b`.
pub open spec fn strict_dominator(step: Step, root: BlockRef, b: BlockRef) -> spec_fn(int) -> bool {
    |i: int| strictly_dominates(step, root, BlockRef(i as usize), b)
}

/// The number of strict dominators among the first `n` nodes.
pub open spec fn dom_depth(n: nat, step: Step, root: BlockRef, b: BlockRef) -> nat {
    count_where(n, strict_dominator(step, root, b))
}

proof fn count_where_subset(n: nat, p: spec_fn(int) -> bool, q: spec_fn(int) -> bool, extra: int)
    requires
        0 <= extra,
        forall|i: int| 0 <= i < n ==> (#[trigger] p(i) ==> q(i)),
        !p(extra),
        q(extra),
    ensures
        count_where(n, p) + (if extra < n {
            1nat
        } else {
            0nat
        }) <= count_where(n, q),
    decreases n,
{
    if n > 0 {
        assert(p(n - 1) ==> q(n - 1));
        count_where_subset((n - 1) as nat, p, q, extra);
    }
}

proof fn count_where_plus(n: nat, p: spec_fn(int) -> bool, q: spec_fn(int) -> bool, extra: int)
    requires
        0 <= extra,
        forall|i: int| 0 <= i < n ==> (#[trigger] q(i) <==> p(i) || i == extra),
        !p(extra),
    ensures
        count_where(n, q) == count_where(n, p) + if extra < n {
            1nat
        } else {
            0nat
        },
    decreases n,
{
    if n > 0 {
        assert(q(n - 1) <==> p(n - 1) || n - 1 == extra);
        count_where_plus((n - 1) as nat, p, q, extra);
    }
}

/// A strict dominator lies higher.
proof fn strict_dominator_higher(n: nat, step: Step, root: BlockRef, d: BlockRef, b: BlockRef)
    requires
        strictly_dominates(step, root, d, b),
        d.0 < n,
    ensures
        dom_depth(n, step, root, d) < dom_depth(n, step, root, b),
{
    let p = strict_dominator(step, root, d);
    let q = strict_dominator(step, root, b);
    assert forall|i: int| 0 <= i < n implies (#[trigger] p(i) ==> q(i)) by {
        let e = BlockRef(i as usize);
        if p(i) {
            dominates_transitive(step, root, e, d, b);
            if e == b {
                dominates_antisymmetric(step, root, d, b);
            }
        }
    }
    assert(BlockRef(d.0 as int as usize) == d);
    assert(!p(d.0 as int));
    assert(q(d.0 as int));
    count_where_subset(n, p, q, d.0 as int);
}

/// The immediate dominator lies exactly one higher.
proof fn immediate_dominator_depth(n: nat, step: Step, root: BlockRef, d: BlockRef, b: BlockRef)
    requires
        immediately_dominates(step, root, d, b),
        d.0 < n <= usize::MAX,
    ensures
        dom_depth(n, step, root, b) == dom_depth(n, step, root, d) + 1,
{
    let p = strict_dominator(step, root, d);
    let q = strict_dominator(step, root, b);
    assert(BlockRef(d.0 as int as usize) == d);
    assert forall|i: int| 0 <= i < n implies (#[trigger] q(i) <==> p(i) || i == d.0) by {
        let e = BlockRef(i as usize);
        if p(i) {
            dominates_transitive(step, root, e, d, b);
            if e == b {
                dominates_antisymmetric(step, root, d, b);
            }
        }
        if q(i) {
            assert(strictly_dominates(step, root, e, b));
        }
    }
    count_where_plus(n, p, q, d.0 as int);
}

/// A node other than the root has an immediate dominator.
pub proof fn immediate_dominator_exists(n: nat, step: Step, root: BlockRef, b: BlockRef) -> (d: BlockRef)
    requires
        reaches(step, root, b),
        b != root,
        n <= usize::MAX,
        forall|e: BlockRef| #[trigger] reaches(step, root, e) ==> e.0 < n,
    ensures
        immediately_dominates(step, root, d, b),
        d.0 < n,
{
    let p = strict_dominator(step, root, b);
    let key = |i: int| -(dom_depth(n, step, root, BlockRef(i as usize)) as int);
    least_where_least(n, p, key);
    root_dominates(step, root, b);
    reaches_self(step, root);
    assert(BlockRef(root.0 as int as usize) == root);
    assert(p(root.0 as int));
    let i = least_where(n, p, key)->0;
    let d = BlockRef(i as usize);
    assert forall|e: BlockRef| #[trigger] strictly_dominates(step, root, e, b) implies dominates(step, root, e, d) by {
        dominator_reached(step, root, e, b);
        dominator_reached(step, root, d, b);
        dominators_chain(step, root, e, d, b);
        if !dominates(step, root, e, d) {
            assert(e != d) by {
                if e == d {
                    dominates_reflexive(step, root, d);
                }
            }
            strict_dominator_higher(n, step, root, d, e);
            assert(BlockRef(e.0 as int as usize) == e);
            assert(p(e.0 as int));
            assert(key(i) <= key(e.0 as int));
        }
    }
    d
}

/// Immediate dominators are strict dominators one level up, and the other way round.
proof fn immediate_by_depth(n: nat, step: Step, root: BlockRef, d: BlockRef, b: BlockRef)
    requires
        reaches(step, root, b),
        n <= usize::MAX,
        forall|e: BlockRef| #[trigger] reaches(step, root, e) ==> e.0 < n,
    ensures
        immediately_dominates(step, root, d, b) <==> strictly_dominates(step, root, d, b) && dom_depth(
            n,
            step,
            root,
            b,
        ) == dom_depth(n, step, root, d) + 1,
{
    if strictly_dominates(step, root, d, b) {
        dominator_reached(step, root, d, b);
    }
    if immediately_dominates(step, root, d, b) {
        immediate_dominator_depth(n, step, root, d, b);
    }
    if strictly_dominates(step, root, d, b) && dom_depth(n, step, root, b) == dom_depth(n, step, root, d) + 1 {
        if b == root {
            root_dominates(step, root, d);
            dominates_antisymmetric(step, root, d, b);
        }
        let i = immediate_dominator_exists(n, step, root, b);
        immediate_dominator_depth(n, step, root, i, b);
        assert(dominates(step, root, d, i));
        if d != i {
            strict_dominator_higher(n, step, root, d, i);
        }
    }
}

/// Walks that avoid `d` are walks of the region without `d`.
proof fn avoiding_is_not_dominating(
    cfg: &Cfg,
    region: Set<BlockRef>,
    backward: bool,
    root: BlockRef,
    d: BlockRef,
    b: BlockRef,
)
    requires
        region.contains(root),
        reaches(step_in(cfg, region, backward), root, b),
    ensures
        dominates(step_in(cfg, region, backward), root, d, b) <==> !(region.remove(d).contains(root) && reaches(
            step_in(cfg, region.remove(d), backward),
            root,
            b,
        )),
{
    let step = step_in(cfg, region, backward);
    let small = region.remove(d);
    let inner = step_in(cfg, small, backward);
    if small.contains(root) && reaches(inner, root, b) {
        let p = choose|p: Seq<BlockRef>| #[trigger] is_walk(inner, p) && p.first() == root && p.last() == b;
        assert forall|i: int| 0 <= i < p.len() - 1 implies step(#[trigger] p[i], p[i + 1]) by {
            assert(inner(p[i], p[i + 1]));
        }
        assert(is_walk(step, p));
        assert(!p.contains(d)) by {
            if p.contains(d) {
                let i = choose|i: int| 0 <= i < p.len() && p[i] == d;
                if i > 0 {
                    assert(inner(p[i - 1], p[i - 1 + 1]));
                }
            }
        }
    }
    if !dominates(step, root, d, b) {
        let p = choose|p: Seq<BlockRef>| #[trigger]
            is_walk(step, p) && p.first() == root && p.last() == b && !p.contains(d);
        assert(p[0] == root);
        assert forall|i: int| 0 <= i < p.len() - 1 implies inner(#[trigger] p[i], p[i + 1]) by {
            assert(step(p[i], p[i + 1]));
            assert(p[i] != d && p[i + 1] != d);
        }
        assert(is_walk(inner, p));
    }
}

/// Marks the nodes that `d` strictly dominates.
fn dominated_by(
    cfg: &Cfg,
    visible: &Vec<bool>,
    seen: &Vec<bool>,
    root: BlockRef,
    backward: bool,
    d: usize,
) -> (r: Vec<bool>)
    requires
        cfg.adjacency_wf(),
        visible@.len() == cfg.blocks@.len(),
        seen@.len() == cfg.blocks@.len(),
        cfg.has_block(root),
        visible@[root.0 as int],
        d < cfg.blocks@.len(),
        forall|b: BlockRef| #[trigger] mask_set(seen@).contains(b) <==> reaches(
            step_in(cfg, mask_set(visible@), backward),
            root,
            b,
        ),
    ensures
        r@.len() == cfg.blocks@.len(),
        forall|b: int| 0 <= b < r@.len() ==> #[trigger] r@[b] == strictly_dominates(
            step_in(cfg, mask_set(visible@), backward),
            root,
            BlockRef(d),
            BlockRef(b as usize),
        ),
{
    let n = cfg.blocks.len();
    let ghost region = mask_set(visible@);
    let ghost step = step_in(cfg, region, backward);
    let mut allowed: Vec<bool> = Vec::new();
    let mut i: usize = 0;
    while i < n
        invariant
            n == visible@.len(),
            i <= n,
            allowed@.len() == i,
            forall|j: int| 0 <= j < i ==> #[trigger] allowed@[j] == (visible@[j] && j != d),
        decreases n - i,
    {
        allowed.push(visible[i] && i != d);
        i = i + 1;
    }
    assert(mask_set(allowed@) =~= region.remove(BlockRef(d)));
    let mut starts: Vec<BlockRef> = Vec::new();
    starts.push(root);
    let avoiding = flood(cfg, &starts, &allowed, backward);
    let mut r: Vec<bool> = Vec::new();
    let mut b: usize = 0;
    while b < n
        invariant
            n == cfg.blocks@.len(),
            seen@.len() == n,
            avoiding@.len() == n,
            region == mask_set(visible@),
            region.contains(root),
            step == step_in(cfg, region, backward),
            b <= n,
            r@.len() == b,
            starts@ == seq![root],
            d < n,
            forall|q: BlockRef| #[trigger] mask_set(seen@).contains(q) <==> reaches(step, root, q),
            forall|q: BlockRef| #[trigger] mask_set(avoiding@).contains(q) <==> floods_to(
                cfg,
                starts@,
                region.remove(BlockRef(d)),
                backward,
                q,
            ),
            forall|q: int| 0 <= q < b ==> #[trigger] r@[q] == strictly_dominates(step, root, BlockRef(d), BlockRef(q as usize)),
        decreases n - b,
    {
        let dominated = b != d && seen[b] && !avoiding[b];
        proof {
            let q = BlockRef(b);
            assert(mask_set(seen@).contains(q) == seen@[b as int]);
            assert(mask_set(avoiding@).contains(q) == avoiding@[b as int]);
            let small = region.remove(BlockRef(d));
            assert(starts@[0] == root);
            assert(floods_to(cfg, starts@, small, backward, q) <==> small.contains(root) && reaches(
                step_in(cfg, small, backward),
                root,
                q,
            ));
            if seen@[b as int] {
                avoiding_is_not_dominating(cfg, region, backward, root, BlockRef(d), q);
            }
        }
        r.push(dominated);
        b = b + 1;
    }
    r
}

/// The tree is the tree of immediate dominators of what `root` reaches in `region`.
pub open spec fn is_dominator_tree(t: &Tree, cfg: &Cfg, region: Set<BlockRef>, backward: bool, root: BlockRef) -> bool {
    let step = step_in(cfg, region, backward);
    &&& t.wf()
    &&& t.parent@.len() == cfg.blocks@.len()
    &&& forall|b: BlockRef| #[trigger] t.has(b.0) <==> region.contains(root) && reaches(step, root, b)
    &&& forall|b: BlockRef, d: BlockRef|
        cfg.has_block(b) && region.contains(root) ==> (#[trigger] is_parent(t, d, b) <==> immediately_dominates(step, root, d, b))
    &&& forall|b: BlockRef|
        cfg.has_block(b) && region.contains(root) && (#[trigger] t.depth@[b.0 as int]) is Some ==> t.depth@[b.0 as int]->0 == dom_depth(
            cfg.blocks@.len(),
            step,
            root,
            b,
        )
}

pub open spec fn is_parent(t: &Tree, d: BlockRef, b: BlockRef) -> bool {
    t.parent@[b.0 as int] == Some(d.0)
}

/// Builds the dominator tree of what `root` reaches over visible blocks. When the root is
/// not visible the tree is empty.
pub fn compute_tree(cfg: &Cfg, visible: &Vec<bool>, root: BlockRef, backward: bool) -> (t: Tree)
    requires
        cfg.adjacency_wf(),
        visible@.len() == cfg.blocks@.len(),
        cfg.has_block(root),
    ensures
        is_dominator_tree(&t, cfg, mask_set(visible@), backward, root),
{
    let n = cfg.blocks.len();
    let ghost region = mask_set(visible@);
    let ghost step = step_in(cfg, region, backward);
    let mut parent: Vec<Option<usize>> = vec![None; n];
    let mut depth: Vec<Option<usize>> = vec![None; n];
    if !visible[root.0] {
        assert(depth_wf(parent@, depth@));
        return build_tree(parent, depth);
    }
    let mut starts: Vec<BlockRef> = Vec::new();
    starts.push(root);
    let seen = flood(cfg, &starts, visible, backward);
    proof {
        assert forall|b: BlockRef| #[trigger] mask_set(seen@).contains(b) <==> reaches(step, root, b) by {
            assert(starts@[0] == root);
            assert(floods_to(cfg, starts@, region, backward, b) <==> reaches(step, root, b));
        }
        assert forall|b: BlockRef| #[trigger] reaches(step, root, b) implies b.0 < n by {
            assert(mask_set(seen@).contains(b));
        }
    }
    let mut count: Vec<usize> = vec![0; n];
    let mut d: usize = 0;
    while d < n
        invariant
            cfg.adjacency_wf(),
            n == cfg.blocks@.len(),
            visible@.len() == n,
            cfg.has_block(root),
            visible@[root.0 as int],
            region == mask_set(visible@),
            step == step_in(cfg, region, backward),
            seen@.len() == n,
            forall|b: BlockRef| #[trigger] mask_set(seen@).contains(b) <==> reaches(step, root, b),
            count@.len() == n,
            d <= n,
            forall|b: int| 0 <= b < n ==> #[trigger] count@[b] == count_where(
                d as nat,
                strict_dominator(step, root, BlockRef(b as usize)),
            ),
        decreases n - d,
    {
        let dominated = dominated_by(cfg, visible, &seen, root, backward, d);
        let ghost before = count@;
        let mut b: usize = 0;
        while b < n
            invariant
                n == cfg.blocks@.len(),
                d < n,
                b <= n,
                dominated@.len() == n,
                count@.len() == n,
                forall|q: int| 0 <= q < n ==> #[trigger] dominated@[q] == strictly_dominates(
                    step,
                    root,
                    BlockRef(d),
                    BlockRef(q as usize),
                ),
                forall|q: int| b <= q < n ==> #[trigger] count@[q] == count_where(
                    d as nat,
                    strict_dominator(step, root, BlockRef(q as usize)),
                ),
                forall|q: int| 0 <= q < b ==> #[trigger] count@[q] == count_where(
                    (d + 1) as nat,
                    strict_dominator(step, root, BlockRef(q as usize)),
                ),
            decreases n - b,
        {
            proof {
                let p = strict_dominator(step, root, BlockRef(b));
                count_where_bound(d as nat, p);
                assert(BlockRef(d as int as usize) == BlockRef(d));
                assert(p(d as int) == dominated@[b as int]);
            }
            if dominated[b] {
                let c: usize = count[b];
                count[b] = c + 1;
            }
            b = b + 1;
        }
        d = d + 1;
    }
    let mut b: usize = 0;
    while b < n
        invariant
            n == seen@.len(),
            depth@.len() == n,
            count@.len() == n,
            b <= n,
            forall|q: int| 0 <= q < b ==> #[trigger] depth@[q] == (if seen@[q] {
                Some(count@[q])
            } else {
                None
            }),
            forall|q: int| b <= q < n ==> (#[trigger] depth@[q]) is None,
        decreases n - b,
    {
        if seen[b] {
            depth[b] = Some(count[b]);
        }
        b = b + 1;
    }
    let mut d: usize = 0;
    while d < n
        invariant
            cfg.adjacency_wf(),
            n == cfg.blocks@.len(),
            visible@.len() == n,
            cfg.has_block(root),
            visible@[root.0 as int],
            region == mask_set(visible@),
            step == step_in(cfg, region, backward),
            seen@.len() == n,
            forall|b: BlockRef| #[trigger] mask_set(seen@).contains(b) <==> reaches(step, root, b),
            forall|b: BlockRef| #[trigger] reaches(step, root, b) ==> b.0 < n,
            count@.len() == n,
            parent@.len() == n,
            d <= n,
            forall|b: int| 0 <= b < n ==> #[trigger] count@[b] == dom_depth(n as nat, step, root, BlockRef(b as usize)),
            forall|b: int, q: usize| 0 <= b < n && q < d ==> ((#[trigger] parent@[b]) == Some(q) <==> #[trigger] immediately_dominates(
                step,
                root,
                BlockRef(q),
                BlockRef(b as usize),
            )),
            forall|b: int| 0 <= b < n ==> match #[trigger] parent@[b] {
                Some(q) => q < d,
                None => true,
            },
        decreases n - d,
    {
        let dominated = dominated_by(cfg, visible, &seen, root, backward, d);
        let mut b: usize = 0;
        while b < n
            invariant
                n == cfg.blocks@.len(),
                d < n,
                b <= n,
                dominated@.len() == n,
                count@.len() == n,
                parent@.len() == n,
                forall|b: BlockRef| #[trigger] reaches(step, root, b) ==> b.0 < n,
                forall|q: int| 0 <= q < n ==> #[trigger] dominated@[q] == strictly_dominates(
                    step,
                    root,
                    BlockRef(d),
                    BlockRef(q as usize),
                ),
                forall|b: int| 0 <= b < n ==> #[trigger] count@[b] == dom_depth(n as nat, step, root, BlockRef(b as usize)),
                forall|x: int, q: usize| 0 <= x < n && q < d ==> ((#[trigger] parent@[x]) == Some(q) <==> #[trigger] immediately_dominates(
                    step,
                    root,
                    BlockRef(q),
                    BlockRef(x as usize),
                )),
                forall|x: int| 0 <= x < b ==> ((#[trigger] parent@[x]) == Some(d) <==> immediately_dominates(
                    step,
                    root,
                    BlockRef(d),
                    BlockRef(x as usize),
                )),
                forall|x: int| 0 <= x < b ==> match #[trigger] parent@[x] {
                    Some(q) => q < d + 1,
                    None => true,
                },
                forall|x: int| b <= x < n ==> match #[trigger] parent@[x] {
                    Some(q) => q < d,
                    None => true,
                },
            decreases n - b,
        {
            proof {
                let x = BlockRef(b);
                assert(dominated@[b as int] == strictly_dominates(step, root, BlockRef(d), x));
                count_where_bound(n as nat, strict_dominator(step, root, BlockRef(d)));
                assert(count@[d as int] == dom_depth(n as nat, step, root, BlockRef(d)));
                assert(count@[b as int] == dom_depth(n as nat, step, root, x));
                if dominated@[b as int] {
                    immediate_by_depth(n as nat, step, root, BlockRef(d), x);
                }
                // Two immediate dominators would dominate each other.
                assert forall|q: usize| immediately_dominates(step, root, BlockRef(d), x) && #[trigger] immediately_dominates(
                    step,
                    root,
                    BlockRef(q),
                    x,
                ) implies q == d by {
                    dominates_antisymmetric(step, root, BlockRef(d), BlockRef(q));
                }
            }
            if dominated[b] && count[b] > 0 && count[b] - 1 == count[d] {
                parent[b] = Some(d);
            }
            b = b + 1;
        }
        d = d + 1;
    }
    proof {
        assert forall|b: BlockRef| #[trigger] mask_set(seen@).contains(b) <==> (b.0 < n && seen@[b.0 as int]) by {}
        assert forall|b: int| 0 <= b < n implies match #[trigger] parent@[b] {
            Some(p) => p < n && depth@[p as int] is Some && depth@[b] is Some && depth@[b]->0 == depth@[p as int]->0 + 1,
            None => true,
        } by {
            if let Some(p) = parent@[b] {
                let x = BlockRef(b as usize);
                let q = BlockRef(p);
                assert(immediately_dominates(step, root, q, x));
                dominator_reached(step, root, q, x);
                assert(mask_set(seen@).contains(q));
                assert(mask_set(seen@).contains(x));
                immediate_dominator_depth(n as nat, step, root, q, x);
                assert(count@[b] == dom_depth(n as nat, step, root, x));
                assert(count@[p as int] == dom_depth(n as nat, step, root, q));
            }
        }
        assert forall|b: int| 0 <= b < n && (#[trigger] depth@[b]) is Some implies match parent@[b] {
            Some(p) => depth@[b]->0 == depth@[p as int]->0 + 1,
            None => depth@[b]->0 == 0,
        } by {
            let x = BlockRef(b as usize);
            assert(mask_set(seen@).contains(x));
            if parent@[b] is None {
                if x != root {
                    let q = immediate_dominator_exists(n as nat, step, root, x);
                    assert(BlockRef(q.0) == q);
                    assert(parent@[b] == Some(q.0));
                } else {
                    let p = strict_dominator(step, root, root);
                    assert forall|i: int| 0 <= i < n implies !#[trigger] p(i) by {
                        if p(i) {
                            let e = BlockRef(i as usize);
                            dominator_reached(step, root, e, root);
                            root_dominates(step, root, e);
                            dominates_antisymmetric(step, root, e, root);
                        }
                    }
                    count_where_zero(n as nat, p);
                    assert(count@[b] == dom_depth(n as nat, step, root, x));
                }
            }
        }
        assert(depth_wf(parent@, depth@));
    }
    let t = build_tree(parent, depth);
    proof {
        assert forall|b: BlockRef| #[trigger] t.has(b.0) <==> region.contains(root) && reaches(step, root, b) by {
            assert(mask_set(seen@).contains(b) <==> reaches(step, root, b));
            if b.0 < n {
                assert(depth@[b.0 as int] is Some <==> seen@[b.0 as int]);
            }
        }
        assert forall|b: BlockRef, x: BlockRef| cfg.has_block(b) && region.contains(root) implies (#[trigger] is_parent(
            &t,
            x,
            b,
        ) <==> immediately_dominates(step, root, x, b)) by {
            if immediately_dominates(step, root, x, b) {
                dominator_reached(step, root, x, b);
            }
            assert(BlockRef(x.0) == x && BlockRef(b.0 as int as usize) == b);
            if x.0 < n {
                assert(parent@[b.0 as int] == Some(x.0) <==> immediately_dominates(step, root, BlockRef(x.0), BlockRef(b.0)));
            }
        }
        assert forall|b: BlockRef| cfg.has_block(b) && (#[trigger] t.depth@[b.0 as int]) is Some implies t.depth@[b.0 as int]->0 == dom_depth(
            cfg.blocks@.len(),
            step,
            root,
            b,
        ) by {
            assert(count@[b.0 as int] == dom_depth(n as nat, step, root, BlockRef(b.0)));
        }
    }
    t
}

/// In the tree of immediate dominators, being above is dominating.
pub proof fn tree_answers_dominance(
    t: &Tree,
    cfg: &Cfg,
    region: Set<BlockRef>,
    backward: bool,
    root: BlockRef,
    a: BlockRef,
    b: BlockRef,
)
    requires
        is_dominator_tree(t, cfg, region, backward, root),
    ensures
        t.covers(a.0, b.0) <==> a == b || (region.contains(root) && dominates(step_in(cfg, region, backward), root, a, b)),
{
    let step = step_in(cfg, region, backward);
    covers_is_ancestry(t, a.0, b.0);
    if region.contains(root) {
        if t.has(b.0) && is_ancestor(t.parent@, a.0, b.0) {
            let k = choose|k: nat| #[trigger] up(t.parent@, b.0, k) == Some(a.0);
            ancestor_dominates(t, cfg, region, backward, root, b, k);
        }
        if dominates(step, root, a, b) {
            dominator_is_ancestor(t, cfg, region, backward, root, a, b);
        }
    } else {
        assert(!t.has(b.0));
    }
}

proof fn ancestor_dominates(t: &Tree, cfg: &Cfg, region: Set<BlockRef>, backward: bool, root: BlockRef, b: BlockRef, k: nat)
    requires
        is_dominator_tree(t, cfg, region, backward, root),
        region.contains(root),
        t.has(b.0),
        up(t.parent@, b.0, k) is Some,
    ensures
        dominates(step_in(cfg, region, backward), root, BlockRef(up(t.parent@, b.0, k)->0), b),
    decreases k,
{
    let step = step_in(cfg, region, backward);
    if k == 0 {
        assert(BlockRef(b.0) == b);
        assert(reaches(step, root, b));
        dominates_reflexive(step, root, b);
    } else {
        ancestor_dominates(t, cfg, region, backward, root, b, (k - 1) as nat);
        let c = BlockRef(up(t.parent@, b.0, (k - 1) as nat)->0);
        let a = BlockRef(up(t.parent@, b.0, k)->0);
        assert(cfg.has_block(c));
        assert(is_parent(t, a, c));
        dominates_transitive(step, root, a, c, b);
    }
}

proof fn dominator_is_ancestor(
    t: &Tree,
    cfg: &Cfg,
    region: Set<BlockRef>,
    backward: bool,
    root: BlockRef,
    a: BlockRef,
    b: BlockRef,
)
    requires
        is_dominator_tree(t, cfg, region, backward, root),
        region.contains(root),
        dominates(step_in(cfg, region, backward), root, a, b),
    ensures
        t.has(b.0),
        is_ancestor(t.parent@, a.0, b.0),
    decreases t.depth@[b.0 as int]->0,
{
    let step = step_in(cfg, region, backward);
    assert(t.has(b.0));
    if a == b {
        assert(up(t.parent@, b.0, 0) == Some(a.0));
    } else {
        if b == root {
            dominator_reached(step, root, a, b);
            root_dominates(step, root, a);
            dominates_antisymmetric(step, root, a, b);
        }
        let limit = t.parent.len();
        assert(t.parent@.len() == limit);
        assert forall|e: BlockRef| #[trigger] reaches(step, root, e) implies e.0 < cfg.blocks@.len() by {
            assert(t.has(e.0));
        }
        let d = immediate_dominator_exists(cfg.blocks@.len(), step, root, b);
        assert(is_parent(t, d, b));
        assert(strictly_dominates(step, root, a, b));
        assert(t.depth@[b.0 as int] is Some);
        assert(members(t.depth@)[d.0 as int]);
        dominator_is_ancestor(t, cfg, region, backward, root, a, d);
        let k = choose|k: nat| #[trigger] up(t.parent@, d.0, k) == Some(a.0);
        up_extends(t.parent@, b.0, k);
        assert(up(t.parent@, b.0, k + 1) == Some(a.0));
    }
}

} // verus!
