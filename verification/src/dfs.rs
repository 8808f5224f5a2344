//! Depth-first order: the order in which a walk that takes edges in adjacency order leaves
//! the blocks.

use vstd::prelude::*;

use crate::cfg::Cfg;
use crate::flood::{degree, mask_set, neighbour, neighbour_complete, step_in, unset, unset_decreases};
use crate::ids::BlockRef;
use crate::search::count_where;
use crate::walk::{closed_set_holds_reachable, reaches, reaches_self, reaches_then_step};

verus! {

/// A moment of the walk: the blocks met so far, the open blocks with the number of edges
/// tried from each, and the blocks left so far.
pub struct DfsState {
    pub seen: Set<BlockRef>,
    pub open: Seq<(BlockRef, nat)>,
    pub post: Seq<BlockRef>,
}

pub open spec fn dfs_start(root: BlockRef) -> DfsState {
    DfsState { seen: Set::empty().insert(root), open: seq![(root, 0nat)], post: Seq::empty() }
}

/// Tries the next edge of the innermost open block, or leaves the block when none is left.
pub open spec fn dfs_next(cfg: &Cfg, visible: Set<BlockRef>, s: DfsState) -> DfsState {
    if s.open.len() == 0 {
        s
    } else {
        let (b, k) = s.open.last();
        if k >= cfg.out_edges(b).len() {
            DfsState { seen: s.seen, open: s.open.drop_last(), post: s.post.push(b) }
        } else {
            let y = neighbour(cfg, b, k as int, false);
            let tried = s.open.drop_last().push((b, k + 1));
            if visible.contains(y) && !s.seen.contains(y) {
                DfsState { seen: s.seen.insert(y), open: tried.push((y, 0nat)), post: s.post }
            } else {
                DfsState { seen: s.seen, open: tried, post: s.post }
            }
        }
    }
}

pub open spec fn dfs_after(cfg: &Cfg, visible: Set<BlockRef>, s: DfsState, moves: nat) -> DfsState
    decreases moves,
{
    if moves == 0 {
        s
    } else {
        dfs_next(cfg, visible, dfs_after(cfg, visible, s, (moves - 1) as nat))
    }
}

/// `post` is the order in which the walk from `root` leaves the blocks.
pub open spec fn is_postorder(cfg: &Cfg, visible: Set<BlockRef>, root: BlockRef, post: Seq<BlockRef>) -> bool {
    exists|moves: nat|
        {
            let s = #[trigger] dfs_after(cfg, visible, dfs_start(root), moves);
            s.open.len() == 0 && s.post == post
        }
}

/// What every moment of the walk satisfies.
pub open spec fn dfs_inv(cfg: &Cfg, visible: Set<BlockRef>, root: BlockRef, s: DfsState) -> bool {
    let step = step_in(cfg, visible, false);
    &&& forall|b: BlockRef| #[trigger] s.seen.contains(b) <==> is_open(s, b) || s.post.contains(b)
    &&& forall|b: BlockRef| #[trigger] s.seen.contains(b) ==> visible.contains(b) && cfg.has_block(b) && reaches(step, root, b)
    &&& s.seen.contains(root)
    &&& s.post.no_duplicates()
    &&& forall|i: int| 0 <= i < s.open.len() ==> !s.post.contains((#[trigger] s.open[i]).0)
    &&& forall|i: int, j: int| 0 <= i < j < s.open.len() ==> (#[trigger] s.open[i]).0 != (#[trigger] s.open[j]).0
    &&& forall|i: int, j: int| 0 <= i <= j < s.open.len() ==> reaches(step, (#[trigger] s.open[i]).0, (#[trigger] s.open[j]).0)
    &&& forall|i: int, k: int|
        0 <= i < s.open.len() && 0 <= k < s.open[i].1 && k < cfg.out_edges(s.open[i].0).len() && visible.contains(
            #[trigger] neighbour(cfg, (#[trigger] s.open[i]).0, k, false),
        ) ==> s.seen.contains(neighbour(cfg, s.open[i].0, k, false))
    &&& forall|i: int, k: int|
        0 <= i < s.post.len() && 0 <= k < cfg.out_edges(s.post[i]).len() && visible.contains(
            #[trigger] neighbour(cfg, #[trigger] s.post[i], k, false),
        ) ==> s.seen.contains(neighbour(cfg, s.post[i], k, false)) && (s.post.subrange(0, i).contains(
            neighbour(cfg, s.post[i], k, false),
        ) || reaches(step, neighbour(cfg, s.post[i], k, false), s.post[i]))
}

pub open spec fn is_open(s: DfsState, b: BlockRef) -> bool {
    exists|i: int| 0 <= i < s.open.len() && (#[trigger] s.open[i]).0 == b
}

proof fn dfs_start_inv(cfg: &Cfg, visible: Set<BlockRef>, root: BlockRef)
    requires
        visible.contains(root),
        cfg.has_block(root),
    ensures
        dfs_inv(cfg, visible, root, dfs_start(root)),
{
    let s = dfs_start(root);
    reaches_self(step_in(cfg, visible, false), root);
    assert(s.open[0].0 == root);
    assert(is_open(s, root));
}

proof fn dfs_next_inv(cfg: &Cfg, visible: Set<BlockRef>, root: BlockRef, s: DfsState)
    requires
        cfg.adjacency_wf(),
        dfs_inv(cfg, visible, root, s),
        s.open.len() > 0,
    ensures
        dfs_inv(cfg, visible, root, dfs_next(cfg, visible, s)),
{
    let step = step_in(cfg, visible, false);
    let t = dfs_next(cfg, visible, s);
    let m = s.open.len();
    let (b, k) = s.open[m - 1];
    assert(s.open.last() == s.open[m - 1]);
    assert(is_open(s, b));
    assert(s.seen.contains(b));
    if k >= cfg.out_edges(b).len() {
        assert forall|i: int| 0 <= i < t.open.len() implies #[trigger] t.open[i] == s.open[i] by {}
        assert(!s.post.contains(s.open[m - 1].0));
        assert(t.post.no_duplicates());
        assert(t.post[t.post.len() - 1] == b);
        assert forall|x: BlockRef| #[trigger] t.post.contains(x) <==> s.post.contains(x) || x == b by {
            if s.post.contains(x) {
                let i = choose|i: int| 0 <= i < s.post.len() && s.post[i] == x;
                assert(t.post[i] == x);
            }
        }
        assert forall|x: BlockRef| #[trigger] t.seen.contains(x) <==> is_open(t, x) || t.post.contains(x) by {
            if is_open(s, x) && x != b {
                let i = choose|i: int| 0 <= i < s.open.len() && (#[trigger] s.open[i]).0 == x;
                assert(t.open[i].0 == x);
            }
            if is_open(t, x) {
                let i = choose|i: int| 0 <= i < t.open.len() && (#[trigger] t.open[i]).0 == x;
                assert(s.open[i].0 == x);
            }
        }
        assert forall|i: int| 0 <= i < t.open.len() implies !t.post.contains((#[trigger] t.open[i]).0) by {
            assert(s.open[i].0 != s.open[m - 1].0);
        }
        assert forall|i: int, q: int|
            0 <= i < t.post.len() && 0 <= q < cfg.out_edges(t.post[i]).len() && visible.contains(
                #[trigger] neighbour(cfg, #[trigger] t.post[i], q, false),
            ) implies t.seen.contains(neighbour(cfg, t.post[i], q, false)) && (t.post.subrange(0, i).contains(
            neighbour(cfg, t.post[i], q, false),
        ) || reaches(step, neighbour(cfg, t.post[i], q, false), t.post[i])) by {
            if i < s.post.len() {
                assert(t.post[i] == s.post[i]);
                assert(t.post.subrange(0, i) =~= s.post.subrange(0, i));
            } else {
                let y = neighbour(cfg, b, q, false);
                assert(neighbour(cfg, s.open[m - 1].0, q, false) == y);
                assert(s.seen.contains(y));
                if s.post.contains(y) {
                    assert(t.post.subrange(0, i) =~= s.post);
                } else {
                    let j = choose|j: int| 0 <= j < s.open.len() && (#[trigger] s.open[j]).0 == y;
                    assert(reaches(step, s.open[j].0, s.open[m - 1].0));
                }
            }
        }
    } else {
        let y = neighbour(cfg, b, k as int, false);
        let e = cfg.out_edges(b)[k as int];
        assert(cfg.has_edge(e) && cfg.edge(e).from == b && cfg.edge(e).to == y);
        assert(cfg.links(b, y));
        assert(cfg.has_block(y));
        assert forall|i: int| 0 <= i < m - 1 implies #[trigger] t.open[i] == s.open[i] by {}
        assert(t.open[m - 1] == (b, k + 1));
        if visible.contains(y) && !s.seen.contains(y) {
            assert(t.open.len() == m + 1);
            assert(t.open[m as int] == (y, 0nat));
            assert(step(b, y));
            reaches_then_step(step, root, b, y);
            assert forall|x: BlockRef| #[trigger] t.seen.contains(x) <==> is_open(t, x) || t.post.contains(x) by {
                if is_open(s, x) {
                    let i = choose|i: int| 0 <= i < s.open.len() && (#[trigger] s.open[i]).0 == x;
                    assert(t.open[i].0 == x);
                }
                if x == y {
                    assert(t.open[m as int].0 == y);
                }
                if is_open(t, x) && x != y {
                    let i = choose|i: int| 0 <= i < t.open.len() && (#[trigger] t.open[i]).0 == x;
                    assert(s.open[i].0 == x);
                }
            }
            assert forall|i: int, j: int| 0 <= i < j < t.open.len() implies (#[trigger] t.open[i]).0 != (#[trigger] t.open[j]).0 by {
                assert(t.open[i].0 == s.open[i].0);
                if j == m {
                    assert(is_open(s, s.open[i].0));
                    assert(s.seen.contains(s.open[i].0));
                } else {
                    assert(s.open[i].0 != s.open[j].0);
                }
            }
            assert forall|i: int, j: int| 0 <= i <= j < t.open.len() implies reaches(step, (#[trigger] t.open[i]).0, (#[trigger] t.open[j]).0) by {
                if j == m {
                    if i == m {
                        reaches_self(step, y);
                    } else {
                        assert(reaches(step, s.open[i].0, s.open[m - 1].0));
                        reaches_then_step(step, s.open[i].0, b, y);
                    }
                } else {
                    assert(reaches(step, s.open[i].0, s.open[j].0));
                }
            }
            assert forall|i: int| 0 <= i < t.open.len() implies !t.post.contains((#[trigger] t.open[i]).0) by {
                if i < m {
                    assert(!s.post.contains(s.open[i].0));
                }
            }
            assert forall|i: int, q: int|
                0 <= i < t.open.len() && 0 <= q < t.open[i].1 && q < cfg.out_edges(t.open[i].0).len() && visible.contains(
                    #[trigger] neighbour(cfg, (#[trigger] t.open[i]).0, q, false),
                ) implies t.seen.contains(neighbour(cfg, t.open[i].0, q, false)) by {
                if i < m {
                    assert(t.open[i].0 == s.open[i].0);
                    if q < s.open[i].1 {
                        assert(s.seen.contains(neighbour(cfg, s.open[i].0, q, false)));
                    }
                }
            }
        } else {
            assert(t.open.len() == m);
            assert forall|x: BlockRef| #[trigger] t.seen.contains(x) <==> is_open(t, x) || t.post.contains(x) by {
                if is_open(s, x) {
                    let i = choose|i: int| 0 <= i < s.open.len() && (#[trigger] s.open[i]).0 == x;
                    assert(t.open[i].0 == x);
                }
                if is_open(t, x) {
                    let i = choose|i: int| 0 <= i < t.open.len() && (#[trigger] t.open[i]).0 == x;
                    assert(s.open[i].0 == x);
                }
            }
            assert forall|i: int, j: int| 0 <= i < j < t.open.len() implies (#[trigger] t.open[i]).0 != (#[trigger] t.open[j]).0 by {
                assert(s.open[i].0 != s.open[j].0);
            }
            assert forall|i: int, j: int| 0 <= i <= j < t.open.len() implies reaches(step, (#[trigger] t.open[i]).0, (#[trigger] t.open[j]).0) by {
                assert(reaches(step, s.open[i].0, s.open[j].0));
            }
            assert forall|i: int| 0 <= i < t.open.len() implies !t.post.contains((#[trigger] t.open[i]).0) by {
                assert(!s.post.contains(s.open[i].0));
            }
            assert forall|i: int, q: int|
                0 <= i < t.open.len() && 0 <= q < t.open[i].1 && q < cfg.out_edges(t.open[i].0).len() && visible.contains(
                    #[trigger] neighbour(cfg, (#[trigger] t.open[i]).0, q, false),
                ) implies t.seen.contains(neighbour(cfg, t.open[i].0, q, false)) by {
                assert(t.open[i].0 == s.open[i].0);
                if q < s.open[i].1 {
                    assert(s.seen.contains(neighbour(cfg, s.open[i].0, q, false)));
                }
            }
        }
    }
}

/// The postorder lists exactly the reachable visible blocks, each once; along an edge the
/// target is left first, unless it also leads back.
pub open spec fn postorder_facts(cfg: &Cfg, visible: Set<BlockRef>, root: BlockRef, post: Seq<BlockRef>) -> bool {
    let step = step_in(cfg, visible, false);
    &&& post.no_duplicates()
    &&& forall|b: BlockRef| #[trigger] post.contains(b) <==> reaches(step, root, b)
    &&& forall|i: int, y: BlockRef|
        0 <= i < post.len() && #[trigger] step(post[i], y) ==> post.subrange(0, i).contains(y) || reaches(step, y, post[i])
}

proof fn dfs_end_facts(cfg: &Cfg, visible: Set<BlockRef>, root: BlockRef, s: DfsState)
    requires
        cfg.adjacency_wf(),
        dfs_inv(cfg, visible, root, s),
        s.open.len() == 0,
    ensures
        postorder_facts(cfg, visible, root, s.post),
{
    let step = step_in(cfg, visible, false);
    assert forall|x: BlockRef| #[trigger] s.seen.contains(x) implies s.post.contains(x) by {}
    assert forall|x: BlockRef, y: BlockRef| s.seen.contains(x) && #[trigger] step(x, y) implies s.seen.contains(y) by {
        let i = choose|i: int| 0 <= i < s.post.len() && s.post[i] == x;
        neighbour_complete(cfg, x, y, false);
        let k = choose|k: int| 0 <= k < degree(cfg, x, false) && #[trigger] neighbour(cfg, x, k, false) == y;
        assert(visible.contains(neighbour(cfg, s.post[i], k, false)));
    }
    assert forall|b: BlockRef| #[trigger] s.post.contains(b) <==> reaches(step, root, b) by {
        if s.post.contains(b) {
            assert(s.seen.contains(b));
        }
        if reaches(step, root, b) {
            closed_set_holds_reachable(step, s.seen, root, b);
        }
    }
    assert forall|i: int, y: BlockRef| 0 <= i < s.post.len() && #[trigger] step(s.post[i], y) implies s.post.subrange(0, i).contains(y)
        || reaches(step, y, s.post[i]) by {
        neighbour_complete(cfg, s.post[i], y, false);
        let k = choose|k: int| 0 <= k < degree(cfg, s.post[i], false) && #[trigger] neighbour(cfg, s.post[i], k, false) == y;
        assert(visible.contains(neighbour(cfg, s.post[i], k, false)));
    }
}

/// Walks the visible blocks from `root` and returns them in the order of leaving.
pub fn postorder(cfg: &Cfg, root: BlockRef, visible: &Vec<bool>) -> (post: Vec<BlockRef>)
    requires
        cfg.adjacency_wf(),
        visible@.len() == cfg.blocks@.len(),
        cfg.has_block(root),
        visible@[root.0 as int],
    ensures
        is_postorder(cfg, mask_set(visible@), root, post@),
        postorder_facts(cfg, mask_set(visible@), root, post@),
{
    let n = cfg.blocks.len();
    let ghost region = mask_set(visible@);
    let mut seen: Vec<bool> = vec![false; n];
    let mut open: Vec<(BlockRef, usize)> = Vec::new();
    let mut post: Vec<BlockRef> = Vec::new();
    seen[root.0] = true;
    open.push((root, 0));
    let ghost mut s = dfs_start(root);
    let ghost mut moves: nat = 0;
    proof {
        dfs_start_inv(cfg, region, root);
        assert(mask_set(seen@) =~= s.seen);
        assert(s == dfs_after(cfg, region, dfs_start(root), 0));
    }
    while open.len() > 0
        invariant
            cfg.adjacency_wf(),
            n == cfg.blocks@.len(),
            visible@.len() == n,
            region == mask_set(visible@),
            seen@.len() == n,
            mask_set(seen@) == s.seen,
            post@ == s.post,
            open@.len() == s.open.len(),
            forall|i: int| 0 <= i < open@.len() ==> (#[trigger] open@[i]).0 == s.open[i].0 && open@[i].1 == s.open[i].1,
            forall|i: int| 0 <= i < open@.len() ==> (#[trigger] open@[i]).1 <= cfg.out_edges(open@[i].0).len(),
            dfs_inv(cfg, region, root, s),
            s == dfs_after(cfg, region, dfs_start(root), moves),
        decreases count_where(n as nat, unset(seen@)), open_work(cfg, s.open, s.open.len()),
    {
        let top: usize = open.len() - 1;
        let (b, k) = open[top];
        let ghost t = dfs_next(cfg, region, s);
        proof {
            assert(s.open.last() == s.open[top as int]);
            assert(is_open(s, b));
            assert(s.seen.contains(b));
            dfs_next_inv(cfg, region, root, s);
            moves = moves + 1;
            assert(t == dfs_after(cfg, region, dfs_start(root), moves));
            open_work_extend(cfg, s.open, s.open.len());
        }
        if k == cfg.succs[b.0].len() {
            post.push(b);
            open.pop();
            proof {
                open_work_same(cfg, s.open, t.open, t.open.len());
                s = t;
            }
        } else {
            let e = cfg.succs[b.0][k];
            assert(e == cfg.out_edges(b)[k as int]);
            assert(cfg.has_edge(e));
            let y = cfg.edges[e.0].to;
            assert(y == neighbour(cfg, b, k as int, false));
            open[top] = (b, k + 1);
            let ghost seen0 = seen@;
            if visible[y.0] && !seen[y.0] {
                proof {
                    assert(region.contains(y));
                    assert(!mask_set(seen@).contains(y));
                    unset_decreases(n as nat, seen@, y.0 as int);
                }
                seen[y.0] = true;
                open.push((y, 0));
                proof {
                    assert(mask_set(seen@) =~= s.seen.insert(y));
                    s = t;
                }
            } else {
                proof {
                    assert(region.contains(y) == visible@[y.0 as int]);
                    assert(mask_set(seen@).contains(y) == seen@[y.0 as int]);
                    open_work_same(cfg, s.open, t.open, (t.open.len() - 1) as nat);
                    open_work_extend(cfg, t.open, t.open.len());
                    s = t;
                }
            }
        }
    }
    proof {
        dfs_end_facts(cfg, region, root, s);
    }
    post
}

/// The edges still to be tried from the open blocks, and the open blocks still to be left.
spec fn open_work(cfg: &Cfg, open: Seq<(BlockRef, nat)>, n: nat) -> nat
    decreases n,
{
    if n == 0 {
        0
    } else {
        let (b, k) = open[n - 1];
        open_work(cfg, open, (n - 1) as nat) + 1 + (if k < cfg.out_edges(b).len() {
            (cfg.out_edges(b).len() - k) as nat
        } else {
            0
        })
    }
}

proof fn open_work_same(cfg: &Cfg, a: Seq<(BlockRef, nat)>, b: Seq<(BlockRef, nat)>, n: nat)
    requires
        n <= a.len(),
        n <= b.len(),
        forall|i: int| 0 <= i < n ==> a[i] == b[i],
    ensures
        open_work(cfg, a, n) == open_work(cfg, b, n),
    decreases n,
{
    if n > 0 {
        open_work_same(cfg, a, b, (n - 1) as nat);
    }
}

proof fn open_work_extend(cfg: &Cfg, a: Seq<(BlockRef, nat)>, n: nat)
    requires
        0 < n <= a.len(),
    ensures
        open_work(cfg, a, n) == open_work(cfg, a, (n - 1) as nat) + 1 + (if a[n - 1].1 < cfg.out_edges(a[n - 1].0).len() {
            (cfg.out_edges(a[n - 1].0).len() - a[n - 1].1) as nat
        } else {
            0
        }),
{
}

} // verus!
