//! Forests given by parent pointers: preorder intervals and ancestor queries.

use vstd::prelude::*;

use crate::search::count_where;

verus! {

/// The ancestor of `b` that lies `k` parents up.
pub open spec fn up(parent: Seq<Option<usize>>, b: usize, k: nat) -> Option<usize>
    decreases k,
{
    if k == 0 {
        Some(b)
    } else {
        match up(parent, b, (k - 1) as nat) {
            Some(x) => if x < parent.len() {
                parent[x as int]
            } else {
                None
            },
            None => None,
        }
    }
}

/// `a` is `b` or one of its ancestors.
pub open spec fn is_ancestor(parent: Seq<Option<usize>>, a: usize, b: usize) -> bool {
    exists|k: nat| #[trigger] up(parent, b, k) == Some(a)
}

/// Parents exist, belong to the forest and have a smaller rank; nodes outside have none.
pub open spec fn forest_wf(parent: Seq<Option<usize>>, member: Seq<bool>, rank: Seq<nat>) -> bool {
    &&& member.len() == parent.len()
    &&& rank.len() == parent.len()
    &&& parent.len() <= usize::MAX
    &&& forall|b: int| 0 <= b < parent.len() ==> match #[trigger] parent[b] {
        Some(p) => p < parent.len() && member[p as int] && member[b] && rank[p as int] < rank[b],
        None => true,
    }
}

/// The children of `p` among the first `n` nodes, in ascending order.
pub open spec fn kids(parent: Seq<Option<usize>>, p: usize, n: nat) -> Seq<usize>
    decreases n,
{
    if n == 0 {
        Seq::empty()
    } else {
        let rest = kids(parent, p, (n - 1) as nat);
        if parent[n - 1] == Some(p) {
            rest.push((n - 1) as usize)
        } else {
            rest
        }
    }
}

/// The members without a parent among the first `n` nodes, in ascending order.
pub open spec fn roots(parent: Seq<Option<usize>>, member: Seq<bool>, n: nat) -> Seq<usize>
    decreases n,
{
    if n == 0 {
        Seq::empty()
    } else {
        let rest = roots(parent, member, (n - 1) as nat);
        if member[n - 1] && parent[n - 1] is None {
            rest.push((n - 1) as usize)
        } else {
            rest
        }
    }
}

pub proof fn kids_listed(parent: Seq<Option<usize>>, p: usize, n: nat)
    requires
        n <= parent.len() <= usize::MAX,
    ensures
        forall|i: int|
            0 <= i < kids(parent, p, n).len() ==> (#[trigger] kids(parent, p, n)[i]) < n && parent[kids(
                parent,
                p,
                n,
            )[i] as int] == Some(p),
        forall|i: int, j: int|
            0 <= i < j < kids(parent, p, n).len() ==> #[trigger] kids(parent, p, n)[i] < #[trigger] kids(parent, p, n)[j],
        forall|x: usize| x < n && #[trigger] parent[x as int] == Some(p) ==> kids(parent, p, n).contains(x),
    decreases n,
{
    if n > 0 {
        kids_listed(parent, p, (n - 1) as nat);
        let rest = kids(parent, p, (n - 1) as nat);
        let all = kids(parent, p, n);
        assert forall|x: usize| x < n && #[trigger] parent[x as int] == Some(p) implies all.contains(x) by {
            if x < n - 1 {
                assert(rest.contains(x));
                let i = choose|i: int| 0 <= i < rest.len() && rest[i] == x;
                assert(all[i] == x);
            } else {
                assert(all[rest.len() as int] == x);
            }
        }
    }
}

pub proof fn roots_listed(parent: Seq<Option<usize>>, member: Seq<bool>, n: nat)
    requires
        n <= parent.len() <= usize::MAX,
        member.len() == parent.len(),
    ensures
        forall|i: int|
            0 <= i < roots(parent, member, n).len() ==> (#[trigger] roots(parent, member, n)[i]) < n
                && parent[roots(parent, member, n)[i] as int] is None && member[roots(parent, member, n)[i] as int],
        forall|i: int, j: int|
            0 <= i < j < roots(parent, member, n).len() ==> #[trigger] roots(parent, member, n)[i]
                < #[trigger] roots(parent, member, n)[j],
        forall|x: usize|
            x < n && #[trigger] member[x as int] && parent[x as int] is None ==> roots(parent, member, n).contains(x),
    decreases n,
{
    if n > 0 {
        roots_listed(parent, member, (n - 1) as nat);
        let rest = roots(parent, member, (n - 1) as nat);
        let all = roots(parent, member, n);
        assert forall|x: usize| x < n && #[trigger] member[x as int] && parent[x as int] is None implies all.contains(
            x,
        ) by {
            if x < n - 1 {
                assert(rest.contains(x));
                let i = choose|i: int| 0 <= i < rest.len() && rest[i] == x;
                assert(all[i] == x);
            } else {
                assert(all[rest.len() as int] == x);
            }
        }
    }
}

/// The list in which `x` stands: the children of its parent, or the roots.
pub open spec fn siblings(parent: Seq<Option<usize>>, member: Seq<bool>, x: usize) -> Seq<usize> {
    match parent[x as int] {
        Some(p) => kids(parent, p, parent.len()),
        None => roots(parent, member, parent.len()),
    }
}

proof fn siblings_listed(parent: Seq<Option<usize>>, member: Seq<bool>, rank: Seq<nat>, x: usize)
    requires
        forest_wf(parent, member, rank),
        x < parent.len(),
        member[x as int],
    ensures
        siblings(parent, member, x).contains(x),
        forall|i: int|
            0 <= i < siblings(parent, member, x).len() ==> {
                let y = #[trigger] siblings(parent, member, x)[i];
                y < parent.len() && member[y as int] && parent[y as int] == parent[x as int]
            },
        forall|i: int, j: int|
            0 <= i < j < siblings(parent, member, x).len() ==> #[trigger] siblings(parent, member, x)[i]
                < #[trigger] siblings(parent, member, x)[j],
{
    match parent[x as int] {
        Some(p) => {
            kids_listed(parent, p, parent.len());
            let s = kids(parent, p, parent.len());
            assert forall|i: int| 0 <= i < s.len() implies {
                let y = #[trigger] s[i];
                y < parent.len() && member[y as int] && parent[y as int] == parent[x as int]
            } by {
                assert(parent[s[i] as int] == Some(p));
            }
        },
        None => {
            roots_listed(parent, member, parent.len());
        },
    }
}

/// `x` was entered right behind its predecessor in its list, or right behind its parent.
pub open spec fn entry_ok(
    parent: Seq<Option<usize>>,
    member: Seq<bool>,
    pre: Seq<Option<usize>>,
    end: Seq<Option<usize>>,
    x: usize,
    at: int,
) -> bool {
    let s = siblings(parent, member, x);
    exists|i: int|
        0 <= i < s.len() && #[trigger] s[i] == x && if i == 0 {
            match parent[x as int] {
                Some(p) => pre[p as int] is Some && pre[p as int]->0 + 1 == at,
                None => at == 0,
            }
        } else {
            end[s[i - 1] as int] is Some && end[s[i - 1] as int]->0 == at
        }
}

/// `x` was left right behind its last child, or right behind itself.
pub open spec fn exit_ok(
    parent: Seq<Option<usize>>,
    pre: Seq<Option<usize>>,
    end: Seq<Option<usize>>,
    x: usize,
    at: int,
) -> bool {
    let k = kids(parent, x, parent.len());
    if k.len() == 0 {
        pre[x as int] is Some && pre[x as int]->0 + 1 == at
    } else {
        end[k.last() as int] is Some && end[k.last() as int]->0 == at
    }
}

/// Entry and exit numbers of a depth-first walk that takes children in ascending order.
pub open spec fn laid_out(
    parent: Seq<Option<usize>>,
    member: Seq<bool>,
    pre: Seq<Option<usize>>,
    end: Seq<Option<usize>>,
) -> bool {
    &&& pre.len() == parent.len()
    &&& end.len() == parent.len()
    &&& forall|x: usize|
        x < parent.len() ==> if #[trigger] member[x as int] {
            &&& pre[x as int] is Some
            &&& end[x as int] is Some
            &&& entry_ok(parent, member, pre, end, x, pre[x as int]->0 as int)
            &&& exit_ok(parent, pre, end, x, end[x as int]->0 as int)
        } else {
            pre[x as int] is None && end[x as int] is None
        }
}

/// `b` was entered between the entry and the exit of `a`.
pub open spec fn in_interval(pre: Seq<Option<usize>>, end: Seq<Option<usize>>, a: usize, b: usize) -> bool {
    a < pre.len() && a < end.len() && b < pre.len() && match (pre[a as int], end[a as int], pre[b as int]) {
        (Some(s), Some(e), Some(x)) => s <= x < e,
        _ => false,
    }
}

spec fn max_rank(rank: Seq<nat>, n: nat) -> nat
    decreases n,
{
    if n == 0 {
        0
    } else {
        let m = max_rank(rank, (n - 1) as nat);
        if rank[n - 1] > m {
            rank[n - 1]
        } else {
            m
        }
    }
}

proof fn max_rank_bounds(rank: Seq<nat>, n: nat)
    requires
        n <= rank.len(),
    ensures
        forall|i: int| 0 <= i < n ==> #[trigger] rank[i] <= max_rank(rank, n),
    decreases n,
{
    if n > 0 {
        max_rank_bounds(rank, (n - 1) as nat);
    }
}

/// A node's interval is not empty.
proof fn interval_nonempty(
    parent: Seq<Option<usize>>,
    member: Seq<bool>,
    rank: Seq<nat>,
    pre: Seq<Option<usize>>,
    end: Seq<Option<usize>>,
    x: usize,
)
    requires
        forest_wf(parent, member, rank),
        laid_out(parent, member, pre, end),
        x < parent.len(),
        member[x as int],
    ensures
        pre[x as int]->0 < end[x as int]->0,
    decreases max_rank(rank, rank.len()) - rank[x as int], kids(parent, x, parent.len()).len(),
{
    max_rank_bounds(rank, rank.len());
    let k = kids(parent, x, parent.len());
    kids_listed(parent, x, parent.len());
    assert(exit_ok(parent, pre, end, x, end[x as int]->0 as int));
    if k.len() > 0 {
        kids_follow(parent, member, rank, pre, end, x, (k.len() - 1) as nat);
    }
}

/// The intervals of the children of `x` follow one another, starting right behind its entry.
proof fn kids_follow(
    parent: Seq<Option<usize>>,
    member: Seq<bool>,
    rank: Seq<nat>,
    pre: Seq<Option<usize>>,
    end: Seq<Option<usize>>,
    x: usize,
    i: nat,
)
    requires
        forest_wf(parent, member, rank),
        laid_out(parent, member, pre, end),
        x < parent.len(),
        member[x as int],
        i < kids(parent, x, parent.len()).len(),
    ensures
        ({
            let k = kids(parent, x, parent.len());
            &&& forall|j: int| 0 <= j <= i ==> {
                let y = #[trigger] k[j];
                &&& y < parent.len()
                &&& member[y as int]
                &&& pre[x as int]->0 < pre[y as int]->0 < end[y as int]->0
                &&& end[y as int]->0 <= end[k[i as int] as int]->0
                &&& j < i ==> end[y as int]->0 <= pre[k[i as int] as int]->0
            }
        }),
    decreases max_rank(rank, rank.len()) - rank[x as int], i,
{
    let k = kids(parent, x, parent.len());
    kids_listed(parent, x, parent.len());
    max_rank_bounds(rank, rank.len());
    let y = k[i as int];
    assert(parent[y as int] == Some(x));
    assert(rank[x as int] < rank[y as int]);
    interval_nonempty(parent, member, rank, pre, end, y);
    siblings_listed(parent, member, rank, y);
    assert(member[y as int]);
    assert(entry_ok(parent, member, pre, end, y, pre[y as int]->0 as int));
    if i > 0 {
        kids_follow(parent, member, rank, pre, end, x, (i - 1) as nat);
    }
}

proof fn kid_inside(
    parent: Seq<Option<usize>>,
    member: Seq<bool>,
    rank: Seq<nat>,
    pre: Seq<Option<usize>>,
    end: Seq<Option<usize>>,
    y: usize,
)
    requires
        forest_wf(parent, member, rank),
        laid_out(parent, member, pre, end),
        y < parent.len(),
        parent[y as int] is Some,
    ensures
        ({
            let x = parent[y as int]->0;
            pre[x as int]->0 < pre[y as int]->0 && end[y as int]->0 <= end[x as int]->0
        }),
{
    let x = parent[y as int]->0;
    let k = kids(parent, x, parent.len());
    kids_listed(parent, x, parent.len());
    let j = choose|j: int| 0 <= j < k.len() && k[j] == y;
    kids_follow(parent, member, rank, pre, end, x, (k.len() - 1) as nat);
    assert(k[j] == y);
    assert(member[x as int]);
    assert(exit_ok(parent, pre, end, x, end[x as int]->0 as int));
}

/// Siblings have disjoint intervals.
proof fn siblings_disjoint(
    parent: Seq<Option<usize>>,
    member: Seq<bool>,
    rank: Seq<nat>,
    pre: Seq<Option<usize>>,
    end: Seq<Option<usize>>,
    x: usize,
    i: int,
    j: int,
)
    requires
        forest_wf(parent, member, rank),
        laid_out(parent, member, pre, end),
        x < parent.len(),
        member[x as int],
        0 <= i < j < siblings(parent, member, x).len(),
    ensures
        end[siblings(parent, member, x)[i] as int]->0 <= pre[siblings(parent, member, x)[j] as int]->0,
    decreases j,
{
    let s = siblings(parent, member, x);
    siblings_listed(parent, member, rank, x);
    let y = s[j];
    siblings_listed(parent, member, rank, y);
    assert(siblings(parent, member, y) == s);
    assert(member[y as int]);
    assert(entry_ok(parent, member, pre, end, y, pre[y as int]->0 as int));
    let q = choose|q: int|
        0 <= q < s.len() && #[trigger] s[q] == y && if q == 0 {
            match parent[y as int] {
                Some(p) => pre[p as int] is Some && pre[p as int]->0 + 1 == pre[y as int]->0,
                None => pre[y as int]->0 == 0,
            }
        } else {
            end[s[q - 1] as int] is Some && end[s[q - 1] as int]->0 == pre[y as int]->0
        };
    assert(q == j) by {
        if q < j {
            assert(s[q] < s[j]);
        } else if j < q {
            assert(s[j] < s[q]);
        }
    }
    if i < j - 1 {
        siblings_disjoint(parent, member, rank, pre, end, x, i, j - 1);
        interval_nonempty(parent, member, rank, pre, end, s[j - 1]);
    }
}

/// A node's interval lies in the interval of each of its ancestors.
pub proof fn ancestor_interval(
    parent: Seq<Option<usize>>,
    member: Seq<bool>,
    rank: Seq<nat>,
    pre: Seq<Option<usize>>,
    end: Seq<Option<usize>>,
    b: usize,
    k: nat,
)
    requires
        forest_wf(parent, member, rank),
        laid_out(parent, member, pre, end),
        b < parent.len(),
        member[b as int],
        up(parent, b, k) is Some,
    ensures
        ({
            let a = up(parent, b, k)->0;
            &&& a < parent.len()
            &&& member[a as int]
            &&& pre[a as int]->0 + k <= pre[b as int]->0
            &&& end[b as int]->0 <= end[a as int]->0
            &&& rank[a as int] + k <= rank[b as int]
        }),
    decreases k,
{
    if k > 0 {
        ancestor_interval(parent, member, rank, pre, end, b, (k - 1) as nat);
        let c = up(parent, b, (k - 1) as nat)->0;
        kid_inside(parent, member, rank, pre, end, c);
        assert(parent[c as int] is Some);
    }
}

pub proof fn up_extends(parent: Seq<Option<usize>>, b: usize, k: nat)
    requires
        b < parent.len(),
    ensures
        up(parent, b, k + 1) == match parent[b as int] {
            Some(p) => up(parent, p, k),
            None => None,
        },
    decreases k,
{
    if k == 0 {
        assert(up(parent, b, 0) == Some(b));
        assert(up(parent, b, 1) == parent[b as int]);
        match parent[b as int] {
            Some(p) => {
                assert(up(parent, p, 0) == Some(p));
            },
            None => {},
        }
    } else {
        up_extends(parent, b, (k - 1) as nat);
        assert(up(parent, b, k + 1) == match up(parent, b, k) {
            Some(x) => if x < parent.len() {
                parent[x as int]
            } else {
                None
            },
            None => None,
        });
    }
}

/// Every node has a root above it.
proof fn root_above(parent: Seq<Option<usize>>, member: Seq<bool>, rank: Seq<nat>, b: usize) -> (k: nat)
    requires
        forest_wf(parent, member, rank),
        b < parent.len(),
        member[b as int],
    ensures
        up(parent, b, k) is Some,
        up(parent, b, k)->0 < parent.len(),
        parent[up(parent, b, k)->0 as int] is None,
    decreases rank[b as int],
{
    match parent[b as int] {
        None => 0,
        Some(p) => {
            let k = root_above(parent, member, rank, p);
            up_extends(parent, b, k);
            k + 1
        },
    }
}

/// Entry inside the interval of `a` means being below `a`.
proof fn interval_ancestor(
    parent: Seq<Option<usize>>,
    member: Seq<bool>,
    rank: Seq<nat>,
    pre: Seq<Option<usize>>,
    end: Seq<Option<usize>>,
    a: usize,
    b: usize,
)
    requires
        forest_wf(parent, member, rank),
        laid_out(parent, member, pre, end),
        a < parent.len(),
        b < parent.len(),
        member[a as int],
        member[b as int],
        pre[a as int]->0 <= pre[b as int]->0 < end[a as int]->0,
    ensures
        is_ancestor(parent, a, b),
    decreases rank[a as int] + rank[b as int],
{
    if a == b {
        assert(up(parent, b, 0) == Some(a));
    } else {
        interval_nonempty(parent, member, rank, pre, end, b);
        let below: Option<(usize, nat)> = match parent[b as int] {
            Some(p) => {
                kid_inside(parent, member, rank, pre, end, b);
                if pre[a as int]->0 <= pre[p as int]->0 {
                    interval_ancestor(parent, member, rank, pre, end, a, p);
                    let k = choose|k: nat| #[trigger] up(parent, p, k) == Some(a);
                    up_extends(parent, b, k);
                    assert(up(parent, b, k + 1) == Some(a));
                    None
                } else {
                    interval_ancestor(parent, member, rank, pre, end, p, a);
                    let k = choose|k: nat| #[trigger] up(parent, a, k) == Some(p);
                    assert(k > 0);
                    let c = up(parent, a, (k - 1) as nat)->0;
                    ancestor_interval(parent, member, rank, pre, end, a, (k - 1) as nat);
                    assert(parent[c as int] == Some(p));
                    Some((c, (k - 1) as nat))
                }
            },
            None => {
                let k = root_above(parent, member, rank, a);
                ancestor_interval(parent, member, rank, pre, end, a, k);
                Some((up(parent, a, k)->0, k))
            },
        };
        if let Some((c, k)) = below {
            // `c` stands in the list of `b`, and `a` lies below it: so `c` is `b`, which is
            // entered before `a` and not before it at once.
            let s = siblings(parent, member, b);
            siblings_listed(parent, member, rank, b);
            siblings_listed(parent, member, rank, c);
            assert(siblings(parent, member, c) == s);
            let i = choose|i: int| 0 <= i < s.len() && s[i] == b;
            let j = choose|j: int| 0 <= j < s.len() && s[j] == c;
            if i < j {
                siblings_disjoint(parent, member, rank, pre, end, b, i, j);
            } else if j < i {
                siblings_disjoint(parent, member, rank, pre, end, b, j, i);
            }
            assert(c == b);
            if k == 0 {
                assert(up(parent, a, 0) == Some(a));
            }
            assert(false);
        }
    }
}

/// The interval test decides ancestry.
pub proof fn interval_is_ancestry(
    parent: Seq<Option<usize>>,
    member: Seq<bool>,
    rank: Seq<nat>,
    pre: Seq<Option<usize>>,
    end: Seq<Option<usize>>,
    a: usize,
    b: usize,
)
    requires
        forest_wf(parent, member, rank),
        laid_out(parent, member, pre, end),
    ensures
        in_interval(pre, end, a, b) <==> b < parent.len() && member[b as int] && is_ancestor(parent, a, b),
{
    if in_interval(pre, end, a, b) {
        assert(member[a as int] && member[b as int]);
        interval_ancestor(parent, member, rank, pre, end, a, b);
    }
    if b < parent.len() && member[b as int] && is_ancestor(parent, a, b) {
        let k = choose|k: nat| #[trigger] up(parent, b, k) == Some(a);
        ancestor_interval(parent, member, rank, pre, end, b, k);
        interval_nonempty(parent, member, rank, pre, end, b);
        assert(member[a as int]);
    }
}

/// The children of every node, in ascending order.
pub fn child_lists(parent: &Vec<Option<usize>>) -> (children: Vec<Vec<usize>>)
    requires
        forall|b: int| 0 <= b < parent@.len() ==> match #[trigger] parent@[b] {
            Some(p) => p < parent@.len(),
            None => true,
        },
    ensures
        children@.len() == parent@.len(),
        forall|p: int| 0 <= p < parent@.len() ==> (#[trigger] children@[p])@ == kids(
            parent@,
            p as usize,
            parent@.len(),
        ),
{
    let n = parent.len();
    let mut children: Vec<Vec<usize>> = Vec::new();
    let mut i: usize = 0;
    while i < n
        invariant
            n == parent@.len(),
            i <= n,
            children@.len() == i,
            forall|p: int| 0 <= p < i ==> (#[trigger] children@[p])@ == kids(parent@, p as usize, 0),
        decreases n - i,
    {
        children.push(Vec::new());
        assert(children@[i as int]@ =~= kids(parent@, i, 0));
        i = i + 1;
    }
    let mut b: usize = 0;
    while b < n
        invariant
            n == parent@.len(),
            b <= n,
            children@.len() == n,
            forall|q: int| 0 <= q < parent@.len() ==> match #[trigger] parent@[q] {
                Some(p) => p < parent@.len(),
                None => true,
            },
            forall|p: int| 0 <= p < n ==> (#[trigger] children@[p])@ == kids(parent@, p as usize, b as nat),
        decreases n - b,
    {
        let ghost before = children@;
        if let Some(p) = parent[b] {
            let mut row: Vec<usize> = Vec::new();
            std::mem::swap(&mut row, &mut children[p]);
            row.push(b);
            children[p] = row;
            assert(children@[p as int]@ == before[p as int]@.push(b));
        }
        proof {
            assert forall|p: int| 0 <= p < n implies (#[trigger] children@[p])@ == kids(
                parent@,
                p as usize,
                (b + 1) as nat,
            ) by {
                assert(before[p]@ == kids(parent@, p as usize, b as nat));
            }
        }
        b = b + 1;
    }
    children
}

pub fn root_list(parent: &Vec<Option<usize>>, member: &Vec<bool>) -> (r: Vec<usize>)
    requires
        member@.len() == parent@.len(),
    ensures
        r@ == roots(parent@, member@, parent@.len()),
{
    let n = parent.len();
    let mut r: Vec<usize> = Vec::new();
    let mut b: usize = 0;
    while b < n
        invariant
            n == parent@.len(),
            member@.len() == n,
            b <= n,
            r@ == roots(parent@, member@, b as nat),
        decreases n - b,
    {
        if member[b] && parent[b].is_none() {
            r.push(b);
        }
        b = b + 1;
    }
    r
}

/// A pending step of the walk: enter a node, or leave it.
type Visit = (usize, bool);

/// What comes after `x` and everything below it: its next sibling, or the way out of its
/// parent.
#[verifier::opaque]
spec fn follows(parent: Seq<Option<usize>>, member: Seq<bool>, x: usize, next: Option<Visit>) -> bool {
    let s = siblings(parent, member, x);
    exists|i: int|
        0 <= i < s.len() && #[trigger] s[i] == x && next == (if i + 1 < s.len() {
            Some((s[i + 1], true))
        } else {
            match parent[x as int] {
                Some(p) => Some((p, false)),
                None => None,
            }
        })
}

/// The step at the top of the stack is due when `clock` nodes have been entered.
spec fn ready(
    parent: Seq<Option<usize>>,
    member: Seq<bool>,
    pre: Seq<Option<usize>>,
    end: Seq<Option<usize>>,
    v: Visit,
    clock: int,
) -> bool {
    if v.1 {
        entry_ok(parent, member, pre, end, v.0, clock)
    } else {
        exit_ok(parent, pre, end, v.0, clock)
    }
}

spec fn unvisited(pre: Seq<Option<usize>>) -> spec_fn(int) -> bool {
    |i: int| pre[i] is None
}

proof fn unvisited_unchanged(n: nat, a: Seq<Option<usize>>, b: Seq<Option<usize>>)
    requires
        forall|i: int| 0 <= i < n ==> a[i] == b[i],
    ensures
        count_where(n, unvisited(a)) == count_where(n, unvisited(b)),
    decreases n,
{
    if n > 0 {
        unvisited_unchanged((n - 1) as nat, a, b);
    }
}

proof fn unvisited_decreases(n: nat, pre: Seq<Option<usize>>, at: int, v: usize)
    requires
        0 <= at < n <= pre.len(),
        pre[at] is None,
    ensures
        count_where(n, unvisited(pre.update(at, Some(v)))) + 1 == count_where(n, unvisited(pre)),
    decreases n,
{
    if at == n - 1 {
        unvisited_unchanged((n - 1) as nat, pre, pre.update(at, Some(v)));
    } else {
        unvisited_decreases((n - 1) as nat, pre, at, v);
    }
}

/// Pending nodes belong to the forest; a node to enter has no entry number, a node to leave
/// has no exit number; no step is pending twice.
#[verifier::opaque]
spec fn inv_stack(
    parent: Seq<Option<usize>>,
    member: Seq<bool>,
    pre: Seq<Option<usize>>,
    end: Seq<Option<usize>>,
    stack: Seq<Visit>,
) -> bool {
    &&& forall|i: int| 0 <= i < stack.len() ==> {
        let v = #[trigger] stack[i];
        &&& v.0 < parent.len()
        &&& member[v.0 as int]
        &&& v.1 ==> pre[v.0 as int] is None
        &&& !v.1 ==> pre[v.0 as int] is Some && end[v.0 as int] is None
        &&& v.1 && parent[v.0 as int] is Some ==> pre[parent[v.0 as int]->0 as int] is Some
    }
    &&& forall|i: int, j: int| 0 <= i < j < stack.len() ==> #[trigger] stack[i] != #[trigger] stack[j]
}

spec fn chained(parent: Seq<Option<usize>>, member: Seq<bool>, stack: Seq<Visit>, i: int) -> bool {
    follows(parent, member, stack[i + 1].0, Some(stack[i]))
}

proof fn follows_at(
    parent: Seq<Option<usize>>,
    member: Seq<bool>,
    x: usize,
    i: int,
    next: Option<Visit>,
)
    requires
        0 <= i < siblings(parent, member, x).len(),
        siblings(parent, member, x)[i] == x,
        next == (if i + 1 < siblings(parent, member, x).len() {
            Some((siblings(parent, member, x)[i + 1], true))
        } else {
            match parent[x as int] {
                Some(p) => Some((p, false)),
                None => None,
            }
        }),
    ensures
        follows(parent, member, x, next),
{
    reveal(follows);
}

proof fn followed_by(
    parent: Seq<Option<usize>>,
    member: Seq<bool>,
    x: usize,
    next: Option<Visit>,
) -> (i: int)
    requires
        follows(parent, member, x, next),
    ensures
        0 <= i < siblings(parent, member, x).len(),
        siblings(parent, member, x)[i] == x,
        next == (if i + 1 < siblings(parent, member, x).len() {
            Some((siblings(parent, member, x)[i + 1], true))
        } else {
            match parent[x as int] {
                Some(p) => Some((p, false)),
                None => None,
            }
        }),
{
    reveal(follows);
    let s = siblings(parent, member, x);
    choose|i: int|
        0 <= i < s.len() && #[trigger] s[i] == x && next == (if i + 1 < s.len() {
            Some((s[i + 1], true))
        } else {
            match parent[x as int] {
                Some(p) => Some((p, false)),
                None => None,
            }
        })
}

/// Each pending step is what follows the one above it.
#[verifier::opaque]
spec fn inv_chain(parent: Seq<Option<usize>>, member: Seq<bool>, stack: Seq<Visit>) -> bool {
    &&& forall|i: int| 0 <= i < stack.len() - 1 ==> #[trigger] chained(parent, member, stack, i)
    &&& stack.len() > 0 ==> follows(parent, member, stack[0].0, None)
}

/// An entered node belongs to the forest, was entered in its place, and so was its parent.
#[verifier::opaque]
spec fn inv_entered(
    parent: Seq<Option<usize>>,
    member: Seq<bool>,
    pre: Seq<Option<usize>>,
    end: Seq<Option<usize>>,
) -> bool {
    forall|x: usize|
        x < parent.len() && (#[trigger] pre[x as int]) is Some ==> {
            &&& member[x as int]
            &&& entry_ok(parent, member, pre, end, x, pre[x as int]->0 as int)
            &&& parent[x as int] is Some ==> pre[parent[x as int]->0 as int] is Some
        }
}

#[verifier::opaque]
spec fn inv_left(parent: Seq<Option<usize>>, pre: Seq<Option<usize>>, end: Seq<Option<usize>>) -> bool {
    forall|x: usize|
        x < parent.len() && (#[trigger] end[x as int]) is Some ==> pre[x as int] is Some && exit_ok(
            parent,
            pre,
            end,
            x,
            end[x as int]->0 as int,
        )
}

/// The entry numbers are the positions in `order`.
#[verifier::opaque]
spec fn inv_order(parent: Seq<Option<usize>>, pre: Seq<Option<usize>>, order: Seq<usize>) -> bool {
    &&& forall|k: int|
        0 <= k < order.len() ==> (#[trigger] order[k]) < parent.len() && pre[order[k] as int] == Some(k as usize)
    &&& forall|x: usize|
        x < parent.len() && (#[trigger] pre[x as int]) is Some ==> pre[x as int]->0 < order.len() && order[pre[x as int]->0 as int]
            == x
}

/// Nothing is forgotten: what is due is pending.
#[verifier::opaque]
spec fn inv_pending(
    parent: Seq<Option<usize>>,
    member: Seq<bool>,
    pre: Seq<Option<usize>>,
    end: Seq<Option<usize>>,
    stack: Seq<Visit>,
) -> bool {
    &&& forall|y: usize|
        y < parent.len() && #[trigger] member[y as int] && pre[y as int] is None && (parent[y as int] is None
            || pre[parent[y as int]->0 as int] is Some) ==> stack.contains((y, true))
    &&& forall|x: usize|
        x < parent.len() && (#[trigger] pre[x as int]) is Some && end[x as int] is None ==> stack.contains((x, false))
}

/// What holds between two steps of the walk, apart from the step due next.
spec fn walk_inv(
    parent: Seq<Option<usize>>,
    member: Seq<bool>,
    pre: Seq<Option<usize>>,
    end: Seq<Option<usize>>,
    order: Seq<usize>,
    stack: Seq<Visit>,
) -> bool {
    &&& pre.len() == parent.len()
    &&& end.len() == parent.len()
    &&& inv_stack(parent, member, pre, end, stack)
    &&& inv_chain(parent, member, stack)
    &&& inv_entered(parent, member, pre, end)
    &&& inv_left(parent, pre, end)
    &&& inv_order(parent, pre, order)
    &&& inv_pending(parent, member, pre, end, stack)
}

proof fn entry_ok_stable(
    parent: Seq<Option<usize>>,
    member: Seq<bool>,
    rank: Seq<nat>,
    pre0: Seq<Option<usize>>,
    end0: Seq<Option<usize>>,
    pre1: Seq<Option<usize>>,
    end1: Seq<Option<usize>>,
    x: usize,
    at: int,
)
    requires
        forest_wf(parent, member, rank),
        x < parent.len(),
        member[x as int],
        entry_ok(parent, member, pre0, end0, x, at),
        forall|i: int| 0 <= i < parent.len() && (#[trigger] pre0[i]) is Some ==> pre1[i] == pre0[i],
        forall|i: int| 0 <= i < parent.len() && (#[trigger] end0[i]) is Some ==> end1[i] == end0[i],
    ensures
        entry_ok(parent, member, pre1, end1, x, at),
{
    siblings_listed(parent, member, rank, x);
    let s = siblings(parent, member, x);
    let i = choose|i: int|
        0 <= i < s.len() && #[trigger] s[i] == x && if i == 0 {
            match parent[x as int] {
                Some(p) => pre0[p as int] is Some && pre0[p as int]->0 + 1 == at,
                None => at == 0,
            }
        } else {
            end0[s[i - 1] as int] is Some && end0[s[i - 1] as int]->0 == at
        };
    if i > 0 {
        let q = s[i - 1];
        assert(q < parent.len());
    }
    assert(s[i] == x);
}

proof fn exit_ok_stable(
    parent: Seq<Option<usize>>,
    pre0: Seq<Option<usize>>,
    end0: Seq<Option<usize>>,
    pre1: Seq<Option<usize>>,
    end1: Seq<Option<usize>>,
    x: usize,
    at: int,
)
    requires
        x < parent.len() <= usize::MAX,
        exit_ok(parent, pre0, end0, x, at),
        forall|i: int| 0 <= i < parent.len() && (#[trigger] pre0[i]) is Some ==> pre1[i] == pre0[i],
        forall|i: int| 0 <= i < parent.len() && (#[trigger] end0[i]) is Some ==> end1[i] == end0[i],
    ensures
        exit_ok(parent, pre1, end1, x, at),
{
    kids_listed(parent, x, parent.len());
    let k = kids(parent, x, parent.len());
    if k.len() > 0 {
        assert(k[k.len() - 1] < parent.len());
    }
}

spec fn after_enter(parent: Seq<Option<usize>>, stack: Seq<Visit>, x: usize) -> Seq<Visit> {
    let k = kids(parent, x, parent.len());
    stack.drop_last().push((x, false)) + Seq::new(k.len(), |i: int| (k[k.len() - 1 - i], true))
}

proof fn after_enter_shape(parent: Seq<Option<usize>>, stack: Seq<Visit>, x: usize)
    requires
        stack.len() > 0,
    ensures
        ({
            let k = kids(parent, x, parent.len());
            let m = stack.len();
            let s1 = after_enter(parent, stack, x);
            &&& s1.len() == m + k.len()
            &&& forall|i: int| 0 <= i < m - 1 ==> #[trigger] s1[i] == stack[i]
            &&& s1[m - 1] == (x, false)
            &&& forall|i: int| m <= i < s1.len() ==> #[trigger] s1[i] == (k[k.len() - 1 - (i - m)], true)
        }),
{
}

proof fn enter_stack(
    parent: Seq<Option<usize>>,
    member: Seq<bool>,
    rank: Seq<nat>,
    pre: Seq<Option<usize>>,
    end: Seq<Option<usize>>,
    stack: Seq<Visit>,
    v: usize,
)
    requires
        forest_wf(parent, member, rank),
        pre.len() == parent.len(),
        end.len() == parent.len(),
        inv_stack(parent, member, pre, end, stack),
        inv_entered(parent, member, pre, end),
        inv_left(parent, pre, end),
        stack.len() > 0,
        stack.last().1,
    ensures
        ({
            let x = stack.last().0;
            inv_stack(parent, member, pre.update(x as int, Some(v)), end, after_enter(parent, stack, x))
        }),
{
    reveal(inv_stack);
    let m = stack.len();
    assert(stack.last() == stack[m - 1]);
    let x = stack[m - 1].0;
    let k = kids(parent, x, parent.len());
    kids_listed(parent, x, parent.len());
    after_enter_shape(parent, stack, x);
    let pre1 = pre.update(x as int, Some(v));
    let stack1 = after_enter(parent, stack, x);
    assert(end[x as int] is None) by {
        reveal(inv_left);
        if end[x as int] is Some {
            assert(pre[x as int] is Some);
        }
    }
    assert forall|i: int| 0 <= i < k.len() implies {
        let y = #[trigger] k[i];
        y < parent.len() && member[y as int] && parent[y as int] == Some(x) && pre[y as int] is None && y != x
    } by {
        reveal(inv_entered);
        let y = k[i];
        assert(parent[y as int] == Some(x));
        if pre[y as int] is Some {
            assert(pre[parent[y as int]->0 as int] is Some);
        }
    }
    assert forall|i: int| 0 <= i < stack1.len() implies {
        let v = #[trigger] stack1[i];
        &&& v.0 < parent.len()
        &&& member[v.0 as int]
        &&& v.1 ==> pre1[v.0 as int] is None
        &&& !v.1 ==> pre1[v.0 as int] is Some && end[v.0 as int] is None
        &&& v.1 && parent[v.0 as int] is Some ==> pre1[parent[v.0 as int]->0 as int] is Some
    } by {
        if i >= m {
            let y = k[k.len() - 1 - (i - m)];
            assert(stack1[i] == (y, true));
        } else if i < m - 1 {
            assert(stack[i] != stack[m - 1]);
            assert(stack1[i] == stack[i]);
            let w = stack[i];
            if w.1 && parent[w.0 as int] is Some {
                let q = parent[w.0 as int]->0;
                assert(pre[q as int] is Some);
                assert(parent[w.0 as int] == Some(q));
            }
        }
    }
    assert forall|i: int, j: int| 0 <= i < j < stack1.len() implies #[trigger] stack1[i] != #[trigger] stack1[j] by {
        if j < m - 1 {
            assert(stack[i] != stack[j]);
        } else if j == m - 1 {
            assert(stack1[i] == stack[i]);
            assert(stack1[j] == (x, false));
        } else {
            let y = k[k.len() - 1 - (j - m)];
            assert(stack1[j] == (y, true));
            if i < m - 1 {
                assert(stack1[i] == stack[i]);
            } else if i >= m {
                assert(stack1[i] == (k[k.len() - 1 - (i - m)], true));
                assert(k[k.len() - 1 - (j - m)] < k[k.len() - 1 - (i - m)]);
            }
        }
    }
}

proof fn enter_chain(
    parent: Seq<Option<usize>>,
    member: Seq<bool>,
    rank: Seq<nat>,
    stack: Seq<Visit>,
)
    requires
        forest_wf(parent, member, rank),
        inv_chain(parent, member, stack),
        stack.len() > 0,
        stack.last().0 < parent.len(),
    ensures
        inv_chain(parent, member, after_enter(parent, stack, stack.last().0)),
{
    reveal(inv_chain);
    let m = stack.len();
    assert(stack.last() == stack[m - 1]);
    let x = stack[m - 1].0;
    let k = kids(parent, x, parent.len());
    kids_listed(parent, x, parent.len());
    after_enter_shape(parent, stack, x);
    let stack1 = after_enter(parent, stack, x);
    assert forall|i: int| 0 <= i < stack1.len() - 1 implies #[trigger] chained(parent, member, stack1, i) by {
        if i < m - 1 {
            assert(stack1[i] == stack[i]);
            assert(chained(parent, member, stack, i));
            if i + 1 < m - 1 {
                assert(stack1[i + 1] == stack[i + 1]);
            }
        } else {
            let q = k.len() - 1 - (i + 1 - m);
            let y = k[q];
            assert(stack1[i + 1] == (y, true));
            assert(parent[y as int] == Some(x));
            if i >= m {
                assert(stack1[i] == (k[q + 1], true));
            }
            follows_at(parent, member, y, q, Some(stack1[i]));
        }
    }
    if m == 1 {
        assert(stack1[0].0 == stack[0].0);
    } else {
        assert(stack1[0] == stack[0]);
    }
}

proof fn enter_numbers(
    parent: Seq<Option<usize>>,
    member: Seq<bool>,
    rank: Seq<nat>,
    pre: Seq<Option<usize>>,
    end: Seq<Option<usize>>,
    order: Seq<usize>,
    x: usize,
)
    requires
        forest_wf(parent, member, rank),
        pre.len() == parent.len(),
        end.len() == parent.len(),
        inv_entered(parent, member, pre, end),
        inv_left(parent, pre, end),
        inv_order(parent, pre, order),
        x < parent.len(),
        member[x as int],
        pre[x as int] is None,
        parent[x as int] is Some ==> pre[parent[x as int]->0 as int] is Some,
        entry_ok(parent, member, pre, end, x, order.len() as int),
        order.len() <= usize::MAX,
    ensures
        ({
            let pre1 = pre.update(x as int, Some(order.len() as usize));
            &&& inv_entered(parent, member, pre1, end)
            &&& inv_left(parent, pre1, end)
            &&& inv_order(parent, pre1, order.push(x))
        }),
{
    let pre1 = pre.update(x as int, Some(order.len() as usize));
    let order1 = order.push(x);
    assert(inv_entered(parent, member, pre1, end)) by {
        reveal(inv_entered);
        assert forall|y: usize| y < parent.len() && (#[trigger] pre1[y as int]) is Some implies {
            &&& member[y as int]
            &&& entry_ok(parent, member, pre1, end, y, pre1[y as int]->0 as int)
            &&& parent[y as int] is Some ==> pre1[parent[y as int]->0 as int] is Some
        } by {
            if y == x {
                entry_ok_stable(parent, member, rank, pre, end, pre1, end, x, order.len() as int);
            } else {
                assert(pre[y as int] is Some);
                entry_ok_stable(parent, member, rank, pre, end, pre1, end, y, pre[y as int]->0 as int);
            }
        }
    }
    assert(inv_left(parent, pre1, end)) by {
        reveal(inv_left);
        assert forall|y: usize| y < parent.len() && (#[trigger] end[y as int]) is Some implies pre1[y as int] is Some
            && exit_ok(parent, pre1, end, y, end[y as int]->0 as int) by {
            exit_ok_stable(parent, pre, end, pre1, end, y, end[y as int]->0 as int);
        }
    }
    assert(inv_order(parent, pre1, order1)) by {
        reveal(inv_order);
        assert forall|q: int| 0 <= q < order1.len() implies (#[trigger] order1[q]) < parent.len() && pre1[order1[q] as int]
            == Some(q as usize) by {
            if q < order.len() {
                assert(order1[q] == order[q]);
                assert(pre[order[q] as int] == Some(q as usize));
            }
        }
        assert forall|y: usize| y < parent.len() && (#[trigger] pre1[y as int]) is Some implies pre1[y as int]->0 < order1.len()
            && order1[pre1[y as int]->0 as int] == y by {
            if y != x {
                assert(pre[y as int] is Some);
            }
        }
    }
}

proof fn enter_pending(
    parent: Seq<Option<usize>>,
    member: Seq<bool>,
    rank: Seq<nat>,
    pre: Seq<Option<usize>>,
    end: Seq<Option<usize>>,
    stack: Seq<Visit>,
    v: usize,
)
    requires
        forest_wf(parent, member, rank),
        pre.len() == parent.len(),
        end.len() == parent.len(),
        inv_pending(parent, member, pre, end, stack),
        stack.len() > 0,
        stack.last().1,
        stack.last().0 < parent.len(),
    ensures
        ({
            let x = stack.last().0;
            inv_pending(parent, member, pre.update(x as int, Some(v)), end, after_enter(parent, stack, x))
        }),
{
    reveal(inv_pending);
    let m = stack.len();
    assert(stack.last() == stack[m - 1]);
    let x = stack[m - 1].0;
    let k = kids(parent, x, parent.len());
    kids_listed(parent, x, parent.len());
    after_enter_shape(parent, stack, x);
    let pre1 = pre.update(x as int, Some(v));
    let stack1 = after_enter(parent, stack, x);
    assert forall|y: usize|
        y < parent.len() && #[trigger] member[y as int] && pre1[y as int] is None && (parent[y as int] is None
            || pre1[parent[y as int]->0 as int] is Some) implies stack1.contains((y, true)) by {
        if parent[y as int] == Some(x) {
            let i = choose|i: int| 0 <= i < k.len() && k[i] == y;
            assert(stack1[m + (k.len() - 1 - i)] == (y, true));
        } else {
            let i = choose|i: int| 0 <= i < stack.len() && stack[i] == (y, true);
            assert(i < m - 1);
            assert(stack1[i] == (y, true));
        }
    }
    assert forall|y: usize| y < parent.len() && (#[trigger] pre1[y as int]) is Some && end[y as int] is None implies stack1.contains(
        (y, false),
    ) by {
        if y == x {
            assert(stack1[m - 1] == (x, false));
        } else {
            assert(pre[y as int] is Some);
            let i = choose|i: int| 0 <= i < stack.len() && stack[i] == (y, false);
            assert(i < m - 1);
            assert(stack1[i] == (y, false));
        }
    }
}

/// Entering a node keeps the invariant, and the step that is then on top is due.
proof fn enter_keeps(
    parent: Seq<Option<usize>>,
    member: Seq<bool>,
    rank: Seq<nat>,
    pre: Seq<Option<usize>>,
    end: Seq<Option<usize>>,
    order: Seq<usize>,
    stack: Seq<Visit>,
)
    requires
        forest_wf(parent, member, rank),
        walk_inv(parent, member, pre, end, order, stack),
        stack.len() > 0,
        stack.last().1,
        ready(parent, member, pre, end, stack.last(), order.len() as int),
        order.len() <= usize::MAX,
    ensures
        ({
            let x = stack.last().0;
            let pre1 = pre.update(x as int, Some(order.len() as usize));
            let stack1 = after_enter(parent, stack, x);
            &&& walk_inv(parent, member, pre1, end, order.push(x), stack1)
            &&& stack1.len() > 0
            &&& ready(parent, member, pre1, end, stack1.last(), order.len() as int + 1)
        }),
{
    let m = stack.len();
    let x = stack[m - 1].0;
    assert(stack.last() == stack[m - 1]);
    assert(x < parent.len() && member[x as int] && pre[x as int] is None && (parent[x as int] is Some
        ==> pre[parent[x as int]->0 as int] is Some)) by {
        reveal(inv_stack);
        assert(stack[m - 1].1);
    }
    let k = kids(parent, x, parent.len());
    let pre1 = pre.update(x as int, Some(order.len() as usize));
    let stack1 = after_enter(parent, stack, x);
    enter_stack(parent, member, rank, pre, end, stack, order.len() as usize);
    enter_chain(parent, member, rank, stack);
    enter_numbers(parent, member, rank, pre, end, order, x);
    enter_pending(parent, member, rank, pre, end, stack, order.len() as usize);
    after_enter_shape(parent, stack, x);
    kids_listed(parent, x, parent.len());
    if k.len() > 0 {
        let y = k[0];
        assert(stack1.last() == (y, true));
        assert(parent[y as int] == Some(x));
        assert(siblings(parent, member, y) == k);
        assert(k[0] == y);
    } else {
        assert(stack1.last() == (x, false));
    }
}

/// Leaving a node keeps the invariant, and the step that is then on top is due.
proof fn leave_keeps(
    parent: Seq<Option<usize>>,
    member: Seq<bool>,
    rank: Seq<nat>,
    pre: Seq<Option<usize>>,
    end: Seq<Option<usize>>,
    order: Seq<usize>,
    stack: Seq<Visit>,
)
    requires
        forest_wf(parent, member, rank),
        walk_inv(parent, member, pre, end, order, stack),
        stack.len() > 0,
        !stack.last().1,
        ready(parent, member, pre, end, stack.last(), order.len() as int),
        order.len() <= usize::MAX,
    ensures
        ({
            let x = stack.last().0;
            let end1 = end.update(x as int, Some(order.len() as usize));
            let stack1 = stack.drop_last();
            &&& walk_inv(parent, member, pre, end1, order, stack1)
            &&& stack1.len() > 0 ==> ready(parent, member, pre, end1, stack1.last(), order.len() as int)
        }),
{
    let m = stack.len();
    let x = stack[m - 1].0;
    assert(stack.last() == stack[m - 1]);
    let end1 = end.update(x as int, Some(order.len() as usize));
    let stack1 = stack.drop_last();
    assert(x < parent.len() && member[x as int] && pre[x as int] is Some && end[x as int] is None) by {
        reveal(inv_stack);
        assert(!stack[m - 1].1);
    }
    assert(inv_stack(parent, member, pre, end1, stack1)) by {
        reveal(inv_stack);
        assert forall|i: int| 0 <= i < stack1.len() implies {
            let v = #[trigger] stack1[i];
            &&& v.0 < parent.len()
            &&& member[v.0 as int]
            &&& v.1 ==> pre[v.0 as int] is None
            &&& !v.1 ==> pre[v.0 as int] is Some && end1[v.0 as int] is None
            &&& v.1 && parent[v.0 as int] is Some ==> pre[parent[v.0 as int]->0 as int] is Some
        } by {
            assert(stack[i] != stack[m - 1]);
            assert(stack1[i] == stack[i]);
        }
        assert forall|i: int, j: int| 0 <= i < j < stack1.len() implies #[trigger] stack1[i] != #[trigger] stack1[j] by {
            assert(stack[i] != stack[j]);
        }
    }
    assert(inv_chain(parent, member, stack1)) by {
        reveal(inv_chain);
        assert forall|i: int| 0 <= i < stack1.len() - 1 implies #[trigger] chained(parent, member, stack1, i) by {
            assert(chained(parent, member, stack, i));
        }
    }
    assert(inv_entered(parent, member, pre, end1)) by {
        reveal(inv_entered);
        assert forall|y: usize| y < parent.len() && (#[trigger] pre[y as int]) is Some implies {
            &&& member[y as int]
            &&& entry_ok(parent, member, pre, end1, y, pre[y as int]->0 as int)
            &&& parent[y as int] is Some ==> pre[parent[y as int]->0 as int] is Some
        } by {
            entry_ok_stable(parent, member, rank, pre, end, pre, end1, y, pre[y as int]->0 as int);
        }
    }
    assert(inv_left(parent, pre, end1)) by {
        reveal(inv_left);
        assert forall|y: usize| y < parent.len() && (#[trigger] end1[y as int]) is Some implies pre[y as int] is Some
            && exit_ok(parent, pre, end1, y, end1[y as int]->0 as int) by {
            if y != x {
                assert(end[y as int] is Some);
                exit_ok_stable(parent, pre, end, pre, end1, y, end[y as int]->0 as int);
            } else {
                exit_ok_stable(parent, pre, end, pre, end1, x, order.len() as int);
            }
        }
    }
    assert(inv_pending(parent, member, pre, end1, stack1)) by {
        reveal(inv_pending);
        assert forall|y: usize|
            y < parent.len() && #[trigger] member[y as int] && pre[y as int] is None && (parent[y as int] is None
                || pre[parent[y as int]->0 as int] is Some) implies stack1.contains((y, true)) by {
            let i = choose|i: int| 0 <= i < stack.len() && stack[i] == (y, true);
            assert(i < m - 1);
            assert(stack1[i] == (y, true));
        }
        assert forall|y: usize| y < parent.len() && (#[trigger] pre[y as int]) is Some && end1[y as int] is None implies stack1.contains(
            (y, false),
        ) by {
            let i = choose|i: int| 0 <= i < stack.len() && stack[i] == (y, false);
            assert(i < m - 1);
            assert(stack1[i] == (y, false));
        }
    }
    if stack1.len() > 0 {
        let e = stack1.last();
        assert(e == stack[m - 2]);
        assert(chained(parent, member, stack, m - 2)) by {
            reveal(inv_chain);
        }
        let s = siblings(parent, member, x);
        siblings_listed(parent, member, rank, x);
        let i = followed_by(parent, member, x, Some(e));
        if i + 1 < s.len() {
            assert(s[i] < s[i + 1]);
            assert(siblings(parent, member, e.0) == s);
            assert(s[i + 1] == e.0);
            assert(end1[s[i] as int] == Some(order.len() as usize));
        } else {
            let p = parent[x as int]->0;
            assert(kids(parent, p, parent.len()) == s);
            assert(s.last() == x);
        }
    }
}

/// At the end of the walk every member has been entered.
proof fn all_entered(
    parent: Seq<Option<usize>>,
    member: Seq<bool>,
    rank: Seq<nat>,
    pre: Seq<Option<usize>>,
    end: Seq<Option<usize>>,
    order: Seq<usize>,
    x: usize,
)
    requires
        forest_wf(parent, member, rank),
        walk_inv(parent, member, pre, end, order, Seq::empty()),
        x < parent.len(),
        member[x as int],
    ensures
        pre[x as int] is Some,
    decreases rank[x as int],
{
    if let Some(p) = parent[x as int] {
        all_entered(parent, member, rank, pre, end, order, p);
    }
    reveal(inv_pending);
    if pre[x as int] is None {
        assert(member[x as int]);
        assert(Seq::<Visit>::empty().contains((x, true)));
    }
}

/// Numbers the members in preorder; `end` is one past the last number below a node.
pub fn intervals(
    parent: &Vec<Option<usize>>,
    member: &Vec<bool>,
    children: &Vec<Vec<usize>>,
    Ghost(rank): Ghost<Seq<nat>>,
) -> (r: (Vec<Option<usize>>, Vec<Option<usize>>, Vec<usize>))
    requires
        forest_wf(parent@, member@, rank),
        children@.len() == parent@.len(),
        forall|p: int| 0 <= p < parent@.len() ==> (#[trigger] children@[p])@ == kids(
            parent@,
            p as usize,
            parent@.len(),
        ),
    ensures
        laid_out(parent@, member@, r.0@, r.1@),
        forall|k: int| 0 <= k < r.2@.len() ==> (#[trigger] r.2@[k]) < parent@.len() && r.0@[r.2@[k] as int] == Some(
            k as usize,
        ),
        forall|x: int|
            0 <= x < parent@.len() && (#[trigger] r.0@[x]) is Some ==> r.0@[x]->0 < r.2@.len() && r.2@[r.0@[x]->0 as int] == x,
{
    let n = parent.len();
    let mut pre: Vec<Option<usize>> = vec![None; n];
    let mut end: Vec<Option<usize>> = vec![None; n];
    let mut order: Vec<usize> = Vec::new();
    let mut stack: Vec<Visit> = Vec::new();
    let root_nodes = root_list(parent, member);
    let ghost rs = roots(parent@, member@, parent@.len());
    let mut i: usize = root_nodes.len();
    while i > 0
        invariant
            root_nodes@ == rs,
            i <= rs.len(),
            stack@ =~= Seq::new((rs.len() - i) as nat, |j: int| (rs[rs.len() - 1 - j], true)),
        decreases i,
    {
        i = i - 1;
        stack.push((root_nodes[i], true));
    }
    proof {
        roots_listed(parent@, member@, parent@.len());
        let st = stack@;
        assert forall|j: int| 0 <= j < st.len() implies #[trigger] st[j] == (rs[rs.len() - 1 - j], true) by {}
        assert forall|j: int| 0 <= j < st.len() - 1 implies #[trigger] chained(parent@, member@, st, j) by {
            let q = rs.len() - 1 - (j + 1);
            assert(siblings(parent@, member@, rs[q]) == rs);
            follows_at(parent@, member@, rs[q], q, Some(st[j]));
        }
        if st.len() > 0 {
            assert(siblings(parent@, member@, rs[rs.len() - 1]) == rs);
            follows_at(parent@, member@, rs[rs.len() - 1], rs.len() - 1, None);
            assert(st.last() == (rs[0], true));
            assert(siblings(parent@, member@, rs[0]) == rs);
            assert(entry_ok(parent@, member@, pre@, end@, rs[0], 0));
        }
        assert forall|x: usize| x < parent@.len() && #[trigger] member@[x as int] && parent@[x as int] is None implies st.contains((x, true)) by {
            let q = choose|q: int| 0 <= q < rs.len() && rs[q] == x;
            assert(st[rs.len() - 1 - q] == (x, true));
        }
        reveal(inv_stack);
        reveal(inv_chain);
        reveal(inv_entered);
        reveal(inv_left);
        reveal(inv_order);
        reveal(inv_pending);
        assert(walk_inv(parent@, member@, pre@, end@, order@, st));
    }
    while stack.len() > 0
        invariant
            n == parent@.len(),
            forest_wf(parent@, member@, rank),
            children@.len() == parent@.len(),
            forall|p: int| 0 <= p < parent@.len() ==> (#[trigger] children@[p])@ == kids(
                parent@,
                p as usize,
                parent@.len(),
            ),
            walk_inv(parent@, member@, pre@, end@, order@, stack@),
            stack@.len() > 0 ==> ready(parent@, member@, pre@, end@, stack@.last(), order@.len() as int),
        decreases count_where(n as nat, unvisited(pre@)), stack@.len(),
    {
        let ghost stack0 = stack@;
        let top = stack.pop().unwrap();
        assert(top == stack0[stack0.len() - 1]);
        assert(stack@ =~= stack0.drop_last());
        let x = top.0;
        let clock: usize = order.len();
        if top.1 {
            proof {
                enter_keeps(parent@, member@, rank, pre@, end@, order@, stack0);
                reveal(inv_stack);
                assert(stack0[stack0.len() - 1].1);
                unvisited_decreases(n as nat, pre@, x as int, clock);
            }
            pre[x] = Some(clock);
            order.push(x);
            stack.push((x, false));
            let ghost k = kids(parent@, x, parent@.len());
            let ghost base = stack@;
            let mut j: usize = children[x].len();
            while j > 0
                invariant
                    x < children@.len(),
                    children@[x as int]@ == k,
                    j <= k.len(),
                    stack@ =~= base + Seq::new((k.len() - j) as nat, |q: int| (k[k.len() - 1 - q], true)),
                decreases j,
            {
                j = j - 1;
                stack.push((children[x][j], true));
            }
            assert(stack@ =~= after_enter(parent@, stack0, x));
        } else {
            proof {
                reveal(inv_stack);
                assert(stack0[stack0.len() - 1].0 < parent@.len());
                leave_keeps(parent@, member@, rank, pre@, end@, order@, stack0);
            }
            end[x] = Some(clock);
        }
    }
    proof {
        assert(stack@ =~= Seq::empty());
        assert forall|x: usize| x < parent@.len() implies if #[trigger] member@[x as int] {
            &&& pre@[x as int] is Some
            &&& end@[x as int] is Some
            &&& entry_ok(parent@, member@, pre@, end@, x, pre@[x as int]->0 as int)
            &&& exit_ok(parent@, pre@, end@, x, end@[x as int]->0 as int)
        } else {
            pre@[x as int] is None && end@[x as int] is None
        } by {
            reveal(inv_entered);
            reveal(inv_left);
            if member@[x as int] {
                all_entered(parent@, member@, rank, pre@, end@, order@, x);
                assert(pre@[x as int] is Some);
                assert(end@[x as int] is Some) by {
                    reveal(inv_pending);
                    if end@[x as int] is None {
                        assert(Seq::<Visit>::empty().contains((x, false)));
                    }
                }
            } else {
                assert(pre@[x as int] is None);
                assert(end@[x as int] is None);
            }
        }
        reveal(inv_order);
        assert forall|x: int| 0 <= x < parent@.len() && (#[trigger] pre@[x]) is Some implies pre@[x]->0 < order@.len()
            && order@[pre@[x]->0 as int] == x by {
            let y = x as usize;
            assert(pre@[y as int] is Some);
        }
    }
    (pre, end, order)
}

} // verus!
