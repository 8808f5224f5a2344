//! Rooted trees over dense indices: ancestry by interval, common ancestors by lifting.

use vstd::prelude::*;

use crate::forest::{
    ancestor_interval, child_lists, forest_wf, in_interval, interval_is_ancestry, intervals,
    is_ancestor, kids, laid_out, up, up_extends,
};

verus! {

/// `2^l`.
pub open spec fn two_to(l: nat) -> nat
    decreases l,
{
    if l == 0 {
        1
    } else {
        2 * two_to((l - 1) as nat)
    }
}

proof fn two_to_monotone(a: nat, b: nat)
    requires
        a <= b,
    ensures
        1 <= two_to(a) <= two_to(b),
    decreases b,
{
    if a < b {
        two_to_monotone(a, (b - 1) as nat);
    } else if a > 0 {
        two_to_monotone((a - 1) as nat, (a - 1) as nat);
    }
}

/// Going up twice.
pub proof fn up_compose(parent: Seq<Option<usize>>, b: usize, j: nat, k: nat)
    ensures
        up(parent, b, j + k) == match up(parent, b, j) {
            Some(x) => up(parent, x, k),
            None => None,
        },
    decreases k,
{
    if k > 0 {
        up_compose(parent, b, j, (k - 1) as nat);
        assert((j + k - 1) as nat == j + (k - 1) as nat);
    }
}

/// Both have `y` above them, or are `y`.
pub open spec fn common(parent: Seq<Option<usize>>, y: usize, a: usize, b: usize) -> bool {
    is_ancestor(parent, y, a) && is_ancestor(parent, y, b)
}

/// `y` is a common ancestor, and every other common ancestor lies above it.
pub open spec fn nearest_common(parent: Seq<Option<usize>>, y: usize, a: usize, b: usize) -> bool {
    &&& common(parent, y, a, b)
    &&& forall|z: usize| #[trigger] common(parent, z, a, b) ==> is_ancestor(parent, z, y)
}

/// A forest with its child lists, preorder intervals, depths and power-of-two ancestors.
#[derive(Debug)]
pub struct Tree {
    pub parent: Vec<Option<usize>>,
    pub children: Vec<Vec<usize>>,
    pub order: Vec<usize>,
    pub preorder_index: Vec<Option<usize>>,
    pub subtree_end: Vec<Option<usize>>,
    pub depth: Vec<Option<usize>>,
    pub ancestors: Vec<Vec<Option<usize>>>,
}

pub open spec fn members(depth: Seq<Option<usize>>) -> Seq<bool> {
    Seq::new(depth.len(), |i: int| depth[i] is Some)
}

pub open spec fn ranks(depth: Seq<Option<usize>>) -> Seq<nat> {
    Seq::new(
        depth.len(),
        |i: int|
            match depth[i] {
                Some(d) => d as nat,
                None => 0nat,
            },
    )
}

/// The depth of a root is zero, and a child lies one deeper than its parent.
pub open spec fn depth_wf(parent: Seq<Option<usize>>, depth: Seq<Option<usize>>) -> bool {
    &&& forest_wf(parent, members(depth), ranks(depth))
    &&& forall|b: int| 0 <= b < parent.len() && (#[trigger] depth[b]) is Some ==> match parent[b] {
        Some(p) => depth[b]->0 == depth[p as int]->0 + 1,
        None => depth[b]->0 == 0,
    }
}

/// Level `l` holds the ancestors that lie `2^l` up.
pub open spec fn level_wf(parent: Seq<Option<usize>>, level: Seq<Option<usize>>, l: nat) -> bool {
    &&& level.len() == parent.len()
    &&& forall|b: int| 0 <= b < parent.len() ==> #[trigger] level[b] == up(parent, b as usize, two_to(l))
}

impl Tree {
    pub open spec fn wf(&self) -> bool {
        let n = self.parent@.len();
        &&& self.depth@.len() == n
        &&& depth_wf(self.parent@, self.depth@)
        &&& laid_out(self.parent@, members(self.depth@), self.preorder_index@, self.subtree_end@)
        &&& self.children@.len() == n
        &&& forall|p: int| 0 <= p < n ==> (#[trigger] self.children@[p])@ == kids(self.parent@, p as usize, n)
        &&& forall|l: int|
            0 <= l < self.ancestors@.len() ==> level_wf(self.parent@, (#[trigger] self.ancestors@[l])@, l as nat)
        &&& n <= two_to(self.ancestors@.len())
        &&& forall|k: int|
            0 <= k < self.order@.len() ==> (#[trigger] self.order@[k]) < n && self.preorder_index@[self.order@[k] as int]
                == Some(k as usize)
        &&& forall|x: int|
            0 <= x < n && (#[trigger] self.preorder_index@[x]) is Some ==> self.preorder_index@[x]->0 < self.order@.len()
                && self.order@[self.preorder_index@[x]->0 as int] == x
    }

    /// The node belongs to the tree.
    pub open spec fn has(&self, b: usize) -> bool {
        b < self.depth@.len() && self.depth@[b as int] is Some
    }

    /// What the interval test answers.
    pub open spec fn covers(&self, a: usize, b: usize) -> bool {
        a == b || in_interval(self.preorder_index@, self.subtree_end@, a, b)
    }

    /// The nearest common ancestor, when there is one.
    pub open spec fn nca(&self, a: usize, b: usize) -> Option<usize> {
        if self.has(a) && self.has(b) && exists|y: usize| #[trigger] nearest_common(self.parent@, y, a, b) {
            Some(choose|y: usize| #[trigger] nearest_common(self.parent@, y, a, b))
        } else {
            None
        }
    }

    /// Whether `a` is `b` or lies above it; false for a node outside of the tree, unless it
    /// is asked about itself.
    pub fn above(&self, a: usize, b: usize) -> (r: bool)
        ensures
            r == self.covers(a, b),
    {
        if a == b {
            return true;
        }
        if a >= self.preorder_index.len() || a >= self.subtree_end.len() || b >= self.preorder_index.len() {
            return false;
        }
        match (self.preorder_index[a], self.subtree_end[a], self.preorder_index[b]) {
            (Some(s), Some(e), Some(x)) => s <= x && x < e,
            _ => false,
        }
    }

    /// The ancestor `distance` parents up.
    fn lift(&self, node: usize, distance: usize) -> (r: Option<usize>)
        requires
            self.wf(),
            node < self.parent@.len(),
            distance < two_to(self.ancestors@.len()),
        ensures
            r == up(self.parent@, node, distance as nat),
            r is Some ==> r->0 < self.parent@.len(),
    {
        let mut at: usize = node;
        let mut rest: usize = distance;
        let mut level: usize = 0;
        let ghost parent = self.parent@;
        let level_count: usize = self.ancestors.len();
        assert(two_to(0) == 1);
        assert(rest * two_to(0) == distance) by (nonlinear_arith)
            requires
                rest == distance,
                two_to(0) == 1,
        ;
        while rest != 0
            invariant
                self.wf(),
                parent == self.parent@,
                node < parent.len(),
                at < parent.len(),
                level_count == self.ancestors@.len(),
                distance < two_to(self.ancestors@.len()),
                rest * two_to(level as nat) <= distance,
                up(parent, node, distance as nat) == up(parent, at, (rest * two_to(level as nat)) as nat),
                rest != 0 ==> level < self.ancestors@.len(),
            decreases rest,
        {
            let ghost unit = two_to(level as nat);
            proof {
                two_to_monotone(level as nat, level as nat);
                assert(rest >= 1 && unit >= 1 ==> rest * unit >= unit) by (nonlinear_arith);
            }
            let half: usize = rest / 2;
            if rest % 2 != 0 {
                proof {
                    assert(rest == 2 * half + 1);
                    assert(rest * unit == unit + half * (2 * unit)) by (nonlinear_arith)
                        requires
                            rest == 2 * half + 1,
                    ;
                    up_compose(parent, at, unit, (half * (2 * unit)) as nat);
                    assert(self.ancestors@[level as int]@[at as int] == up(parent, at, unit));
                }
                match self.ancestors[level][at] {
                    None => {
                        return None;
                    },
                    Some(x) => {
                        proof {
                            up_in_range(parent, members(self.depth@), ranks(self.depth@), at, unit);
                        }
                        at = x;
                    },
                }
            } else {
                proof {
                    assert(rest == 2 * half);
                    assert(rest * unit == half * (2 * unit)) by (nonlinear_arith)
                        requires
                            rest == 2 * half,
                    ;
                }
            }
            proof {
                assert(two_to((level + 1) as nat) == 2 * unit);
                if half != 0 {
                    assert(half * (2 * unit) >= 2 * unit) by (nonlinear_arith)
                        requires
                            half >= 1,
                            unit >= 1,
                    ;
                    if level + 1 >= self.ancestors@.len() {
                        two_to_monotone(self.ancestors@.len(), (level + 1) as nat);
                    }
                }
            }
            rest = half;
            level = level + 1;
        }
        assert(0 * two_to(level as nat) == 0);
        Some(at)
    }

    pub fn nearest_common_ancestor(&self, left: usize, right: usize) -> (r: Option<usize>)
        requires
            self.wf(),
        ensures
            r == self.nca(left, right),
            match r {
                Some(y) => y < self.parent@.len() && self.has(y) && nearest_common(self.parent@, y, left, right),
                None => !(self.has(left) && self.has(right)) || forall|y: usize| !#[trigger] common(self.parent@, y, left, right),
            },
    {
        if left >= self.depth.len() || right >= self.depth.len() {
            return None;
        }
        let (dl, dr) = match (self.depth[left], self.depth[right]) {
            (Some(dl), Some(dr)) => (dl, dr),
            _ => {
                return None;
            },
        };
        let ghost parent = self.parent@;
        let ghost depth = self.depth@;
        let mut a: usize = left;
        let mut b: usize = right;
        proof {
            depth_below(self, left);
            depth_below(self, right);
        }
        if dl < dr {
            proof {
                up_depth(self, right, (dr - dl) as nat);
            }
            match self.lift(right, dr - dl) {
                Some(x) => {
                    b = x;
                },
                None => {
                    assert(false);
                    return None;
                },
            }
            proof {
                common_lifted(self, right, left, (dr - dl) as nat);
                assert forall|y: usize| #[trigger] common(parent, y, left, right) <==> common(parent, y, a, b) by {
                    assert(common(parent, y, right, left) <==> common(parent, y, b, left));
                }
            }
        } else if dr < dl {
            proof {
                up_depth(self, left, (dl - dr) as nat);
            }
            match self.lift(left, dl - dr) {
                Some(x) => {
                    a = x;
                },
                None => {
                    assert(false);
                    return None;
                },
            }
            proof {
                common_lifted(self, left, right, (dl - dr) as nat);
            }
        }
        proof {
            assert(depth[a as int] == depth[b as int]);
            assert(forall|y: usize| #[trigger] common(parent, y, left, right) <==> common(parent, y, a, b));
        }
        if a == b {
            proof {
                assert(up(parent, a, 0) == Some(a));
                assert(common(parent, a, a, a));
                assert(nearest_common(parent, a, left, right));
                nca_unique(self, a, left, right);
            }
            return Some(a);
        }
        let mut level: usize = self.ancestors.len();
        proof {
            up_depth(self, a, two_to(level as nat));
            up_depth(self, b, two_to(level as nat));
        }
        while level > 0
            invariant
                self.wf(),
                parent == self.parent@,
                depth == self.depth@,
                level <= self.ancestors@.len(),
                a != b,
                self.has(a),
                self.has(b),
                depth[a as int] == depth[b as int],
                up(parent, a, two_to(level as nat)) == up(parent, b, two_to(level as nat)),
                forall|y: usize| #[trigger] common(parent, y, left, right) <==> common(parent, y, a, b),
            decreases level,
        {
            level = level - 1;
            let ghost unit = two_to(level as nat);
            let next_a = self.ancestors[level][a];
            let next_b = self.ancestors[level][b];
            proof {
                assert(self.ancestors@[level as int]@[a as int] == up(parent, a, unit));
                assert(self.ancestors@[level as int]@[b as int] == up(parent, b, unit));
                up_depth(self, a, unit);
                up_depth(self, b, unit);
            }
            if next_a != next_b {
                match (next_a, next_b) {
                    (Some(x), Some(y)) => {
                        proof {
                            up_compose(parent, a, unit, unit);
                            up_compose(parent, b, unit, unit);
                            assert(two_to((level + 1) as nat) == unit + unit);
                            common_above_split(self, a, b, unit);
                        }
                        a = x;
                        b = y;
                    },
                    _ => {},
                }
            }
        }
        let r = self.parent[a];
        proof {
            assert(two_to(0) == 1);
            up_extends(parent, a, 0);
            up_extends(parent, b, 0);
            assert(up(parent, a, 1) == parent[a as int]) by {
                if let Some(p) = parent[a as int] {
                    assert(up(parent, p, 0) == Some(p));
                }
            }
            assert(up(parent, b, 1) == parent[b as int]) by {
                if let Some(p) = parent[b as int] {
                    assert(up(parent, p, 0) == Some(p));
                }
            }
            assert forall|y: usize| #[trigger] common(parent, y, a, b) implies r is Some && is_ancestor(parent, y, r->0) by {
                let j = choose|j: nat| #[trigger] up(parent, a, j) == Some(y);
                let k = choose|k: nat| #[trigger] up(parent, b, k) == Some(y);
                if j == 0 {
                    up_depth(self, b, k);
                    up_depth(self, a, j);
                    assert(k == 0);
                }
                up_extends(parent, a, (j - 1) as nat);
            }
            if let Some(x) = r {
                assert(up(parent, a, 1) == Some(x) && up(parent, b, 1) == Some(x));
                assert(common(parent, x, a, b));
                assert(nearest_common(parent, x, left, right));
                nca_unique(self, x, left, right);
            } else {
                if exists|y: usize| #[trigger] nearest_common(parent, y, left, right) {
                    let y = choose|y: usize| #[trigger] nearest_common(parent, y, left, right);
                    assert(common(parent, y, left, right));
                    assert(common(parent, y, a, b));
                }
                assert forall|y: usize| !#[trigger] common(parent, y, left, right) by {
                    if common(parent, y, left, right) {
                        assert(common(parent, y, a, b));
                    }
                }
            }
        }
        r
    }
}

proof fn up_in_range(parent: Seq<Option<usize>>, member: Seq<bool>, rank: Seq<nat>, b: usize, k: nat)
    requires
        forest_wf(parent, member, rank),
        b < parent.len(),
    ensures
        up(parent, b, k) is Some ==> up(parent, b, k)->0 < parent.len(),
    decreases k,
{
    if k > 0 {
        up_in_range(parent, member, rank, b, (k - 1) as nat);
        if up(parent, b, (k - 1) as nat) is Some {
            let x = up(parent, b, (k - 1) as nat)->0;
            assert(match parent[x as int] {
                Some(p) => p < parent.len(),
                None => true,
            });
        }
    }
}

/// Going up `k` parents lessens the depth by `k`; it ends above the root.
pub proof fn up_depth(t: &Tree, b: usize, k: nat)
    requires
        t.wf(),
        t.has(b),
    ensures
        up(t.parent@, b, k) is Some <==> k <= t.depth@[b as int]->0,
        up(t.parent@, b, k) is Some ==> t.has(up(t.parent@, b, k)->0) && t.depth@[up(t.parent@, b, k)->0 as int]->0 + k
            == t.depth@[b as int]->0,
    decreases k,
{
    if k > 0 {
        up_depth(t, b, (k - 1) as nat);
        if up(t.parent@, b, (k - 1) as nat) is Some {
            let x = up(t.parent@, b, (k - 1) as nat)->0;
            assert(t.depth@[x as int] is Some);
            assert(members(t.depth@)[x as int]);
            if let Some(p) = t.parent@[x as int] {
                assert(members(t.depth@)[p as int]);
            }
        }
    }
}

/// A depth is smaller than the number of nodes.
proof fn depth_below(t: &Tree, b: usize)
    requires
        t.wf(),
        t.has(b),
    ensures
        t.depth@[b as int]->0 < t.parent@.len(),
        t.depth@[b as int]->0 < two_to(t.ancestors@.len()),
{
    let d = t.depth@[b as int]->0 as nat;
    up_depth(t, b, d);
    let member = members(t.depth@);
    assert(member[b as int]);
    // The chain enters its nodes at distinct preorder numbers, all below the node count.
    ancestor_interval(t.parent@, member, ranks(t.depth@), t.preorder_index@, t.subtree_end@, b, d);
    assert(t.preorder_index@[b as int] is Some);
    preorder_below(t, b);
}

/// Every node's depth is smaller than the number of nodes.
pub proof fn depth_within(t: &Tree, b: usize)
    requires
        t.wf(),
        t.has(b),
    ensures
        t.depth@[b as int]->0 < t.parent@.len(),
{
    depth_below(t, b);
}

/// Going up stays among the nodes.
pub proof fn up_node(t: &Tree, b: usize, k: nat)
    requires
        t.wf(),
        b < t.parent@.len(),
    ensures
        up(t.parent@, b, k) is Some ==> up(t.parent@, b, k)->0 < t.parent@.len(),
{
    up_in_range(t.parent@, members(t.depth@), ranks(t.depth@), b, k);
}

proof fn preorder_below(t: &Tree, b: usize)
    requires
        t.wf(),
        t.has(b),
    ensures
        t.preorder_index@[b as int] is Some,
        t.preorder_index@[b as int]->0 < t.parent@.len(),
{
    let n = t.parent@.len();
    let order_len = t.order.len();
    assert(order_len == t.order@.len());
    assert(members(t.depth@)[b as int]);
    assert(t.preorder_index@[b as int] is Some);
    assert(t.order@.no_duplicates()) by {
        assert forall|i: int, j: int| 0 <= i < t.order@.len() && 0 <= j < t.order@.len() && i != j implies t.order@[i] != t.order@[j] by {
            assert(t.preorder_index@[t.order@[i] as int] == Some(i as usize));
            assert(t.preorder_index@[t.order@[j] as int] == Some(j as usize));
        }
    }
    let ints = t.order@.map_values(|x: usize| x as int);
    assert(ints.no_duplicates());
    ints.unique_seq_to_set();
    let range = vstd::set_lib::set_int_range(0, n as int);
    vstd::set_lib::lemma_int_range(0, n as int);
    assert(ints.to_set().subset_of(range)) by {
        assert forall|x: int| ints.to_set().contains(x) implies range.contains(x) by {
            let i = choose|i: int| 0 <= i < ints.len() && ints[i] == x;
            assert(t.order@[i] < n);
        }
    }
    vstd::set_lib::lemma_len_subset(ints.to_set(), range);
}

proof fn nca_unique(t: &Tree, y: usize, a: usize, b: usize)
    requires
        t.wf(),
        t.has(a),
        t.has(b),
        nearest_common(t.parent@, y, a, b),
    ensures
        t.nca(a, b) == Some(y),
{
    let z = choose|z: usize| #[trigger] nearest_common(t.parent@, z, a, b);
    assert(is_ancestor(t.parent@, z, y));
    assert(is_ancestor(t.parent@, y, z));
    let i = choose|i: nat| #[trigger] up(t.parent@, a, i) == Some(y);
    let j = choose|j: nat| #[trigger] up(t.parent@, a, j) == Some(z);
    up_depth(t, a, i);
    up_depth(t, a, j);
    let p = choose|p: nat| #[trigger] up(t.parent@, y, p) == Some(z);
    let q = choose|q: nat| #[trigger] up(t.parent@, z, q) == Some(y);
    up_depth(t, y, p);
    up_depth(t, z, q);
    assert(p == 0);
}

/// What lies above both a deep and a shallow node lies above the lifted deep node.
proof fn common_lifted(t: &Tree, deep: usize, flat: usize, k: nat)
    requires
        t.wf(),
        t.has(deep),
        t.has(flat),
        t.depth@[deep as int]->0 == t.depth@[flat as int]->0 + k,
    ensures
        up(t.parent@, deep, k) is Some,
        forall|y: usize| #[trigger] common(t.parent@, y, deep, flat) <==> common(
            t.parent@,
            y,
            up(t.parent@, deep, k)->0,
            flat,
        ),
{
    up_depth(t, deep, k);
    let x = up(t.parent@, deep, k)->0;
    assert forall|y: usize| #[trigger] common(t.parent@, y, deep, flat) <==> common(t.parent@, y, x, flat) by {
        if common(t.parent@, y, deep, flat) {
            let i = choose|i: nat| #[trigger] up(t.parent@, deep, i) == Some(y);
            let j = choose|j: nat| #[trigger] up(t.parent@, flat, j) == Some(y);
            up_depth(t, deep, i);
            up_depth(t, flat, j);
            assert(i >= k);
            up_compose(t.parent@, deep, k, (i - k) as nat);
            assert(up(t.parent@, x, (i - k) as nat) == Some(y));
        }
        if common(t.parent@, y, x, flat) {
            let i = choose|i: nat| #[trigger] up(t.parent@, x, i) == Some(y);
            up_compose(t.parent@, deep, k, i);
            assert(up(t.parent@, deep, k + i) == Some(y));
        }
    }
}

/// Where two equally deep nodes have different ancestors `k` up, what they have in common
/// lies above those.
proof fn common_above_split(t: &Tree, a: usize, b: usize, k: nat)
    requires
        t.wf(),
        t.has(a),
        t.has(b),
        t.depth@[a as int] == t.depth@[b as int],
        up(t.parent@, a, k) is Some,
        up(t.parent@, b, k) is Some,
        up(t.parent@, a, k) != up(t.parent@, b, k),
    ensures
        forall|y: usize| #[trigger] common(t.parent@, y, a, b) <==> common(
            t.parent@,
            y,
            up(t.parent@, a, k)->0,
            up(t.parent@, b, k)->0,
        ),
{
    let u = up(t.parent@, a, k)->0;
    let v = up(t.parent@, b, k)->0;
    assert forall|y: usize| #[trigger] common(t.parent@, y, a, b) <==> common(t.parent@, y, u, v) by {
        if common(t.parent@, y, a, b) {
            let i = choose|i: nat| #[trigger] up(t.parent@, a, i) == Some(y);
            let j = choose|j: nat| #[trigger] up(t.parent@, b, j) == Some(y);
            up_depth(t, a, i);
            up_depth(t, b, j);
            assert(i == j);
            if i < k {
                up_compose(t.parent@, a, i, (k - i) as nat);
                up_compose(t.parent@, b, i, (k - i) as nat);
            }
            up_compose(t.parent@, a, k, (i - k) as nat);
            up_compose(t.parent@, b, k, (i - k) as nat);
            assert(up(t.parent@, u, (i - k) as nat) == Some(y));
            assert(up(t.parent@, v, (i - k) as nat) == Some(y));
        }
        if common(t.parent@, y, u, v) {
            let i = choose|i: nat| #[trigger] up(t.parent@, u, i) == Some(y);
            let j = choose|j: nat| #[trigger] up(t.parent@, v, j) == Some(y);
            up_compose(t.parent@, a, k, i);
            up_compose(t.parent@, b, k, j);
            assert(up(t.parent@, a, k + i) == Some(y));
            assert(up(t.parent@, b, k + j) == Some(y));
        }
    }
}

/// In a consistent tree the interval test answers ancestry.
pub proof fn covers_is_ancestry(t: &Tree, a: usize, b: usize)
    requires
        t.wf(),
    ensures
        t.covers(a, b) <==> a == b || (t.has(b) && is_ancestor(t.parent@, a, b)),
{
    interval_is_ancestry(t.parent@, members(t.depth@), ranks(t.depth@), t.preorder_index@, t.subtree_end@, a, b);
    if b < t.parent@.len() {
        assert(members(t.depth@)[b as int] == t.has(b));
    }
}

/// Builds the index of a forest from its parent pointers and depths.
pub fn build_tree(parent: Vec<Option<usize>>, depth: Vec<Option<usize>>) -> (t: Tree)
    requires
        parent@.len() == depth@.len(),
        depth_wf(parent@, depth@),
    ensures
        t.wf(),
        t.parent@ == parent@,
        t.depth@ == depth@,
{
    let n = parent.len();
    let mut member: Vec<bool> = Vec::new();
    let mut i: usize = 0;
    while i < n
        invariant
            n == depth@.len(),
            i <= n,
            member@ =~= members(depth@).subrange(0, i as int),
        decreases n - i,
    {
        member.push(depth[i].is_some());
        i = i + 1;
    }
    assert(member@ =~= members(depth@));
    assert forall|b: int| 0 <= b < parent@.len() implies match #[trigger] parent@[b] {
        Some(p) => p < parent@.len(),
        None => true,
    } by {}
    let children = child_lists(&parent);
    let (preorder_index, subtree_end, order) = intervals(&parent, &member, &children, Ghost(ranks(depth@)));
    let ancestors = lifting_levels(&parent);
    Tree { parent, children, order, preorder_index, subtree_end, depth, ancestors }
}

/// The ancestors at distances one, two, four and so on, as far as any chain can go.
fn lifting_levels(parent: &Vec<Option<usize>>) -> (levels: Vec<Vec<Option<usize>>>)
    requires
        forall|b: int| 0 <= b < parent@.len() ==> match #[trigger] parent@[b] {
            Some(p) => p < parent@.len(),
            None => true,
        },
    ensures
        forall|l: int| 0 <= l < levels@.len() ==> level_wf(parent@, (#[trigger] levels@[l])@, l as nat),
        parent@.len() <= two_to(levels@.len()),
{
    let n = parent.len();
    let mut levels: Vec<Vec<Option<usize>>> = Vec::new();
    if n == 0 {
        return levels;
    }
    let mut first: Vec<Option<usize>> = Vec::new();
    let mut i: usize = 0;
    while i < n
        invariant
            n == parent@.len(),
            i <= n,
            first@ =~= parent@.subrange(0, i as int),
        decreases n - i,
    {
        first.push(parent[i]);
        i = i + 1;
    }
    proof {
        assert(first@ =~= parent@);
        assert forall|b: int| 0 <= b < parent@.len() implies #[trigger] first@[b] == up(parent@, b as usize, two_to(0)) by {
            assert(two_to(0) == 1);
            up_extends(parent@, b as usize, 0);
            if let Some(p) = parent@[b] {
                assert(up(parent@, p, 0) == Some(p));
            }
        }
    }
    levels.push(first);
    let mut reach: usize = 2;
    let mut done = reach >= n;
    assert(two_to(1) == 2 * two_to(0));
    while !done
        invariant
            n == parent@.len(),
            levels@.len() >= 1,
            forall|l: int| 0 <= l < levels@.len() ==> level_wf(parent@, (#[trigger] levels@[l])@, l as nat),
            done ==> n <= two_to(levels@.len()),
            !done ==> reach == two_to(levels@.len()) && reach < n,
            forall|b: int| 0 <= b < parent@.len() ==> match #[trigger] parent@[b] {
                Some(p) => p < parent@.len(),
                None => true,
            },
        decreases (if done { 0 } else { n - two_to(levels@.len()) + 1 }),
    {
        let top: usize = levels.len() - 1;
        let ghost unit = two_to(top as nat);
        let mut next: Vec<Option<usize>> = Vec::new();
        let mut b: usize = 0;
        assert(level_wf(parent@, levels@[top as int]@, top as nat));
        while b < n
            invariant
                n == parent@.len(),
                b <= n,
                top < levels@.len(),
                unit == two_to(top as nat),
                level_wf(parent@, levels@[top as int]@, top as nat),
                next@.len() == b,
                forall|q: int| 0 <= q < b ==> #[trigger] next@[q] == up(parent@, q as usize, unit + unit),
                forall|b: int| 0 <= b < parent@.len() ==> match #[trigger] parent@[b] {
                    Some(p) => p < parent@.len(),
                    None => true,
                },
            decreases n - b,
        {
            proof {
                up_compose(parent@, b, unit, unit);
                assert(levels@[top as int]@[b as int] == up(parent@, b, unit));
                up_stays(parent@, b, unit);
            }
            match levels[top][b] {
                None => {
                    next.push(None);
                },
                Some(x) => {
                    assert(levels@[top as int]@[x as int] == up(parent@, x, unit));
                    next.push(levels[top][x]);
                },
            }
            b = b + 1;
        }
        assert(two_to((top + 1) as nat) == unit + unit);
        let ghost before = levels@;
        levels.push(next);
        proof {
            assert forall|l: int| 0 <= l < levels@.len() implies level_wf(parent@, (#[trigger] levels@[l])@, l as nat) by {
                if l < before.len() {
                    assert(levels@[l] == before[l]);
                }
            }
            assert(two_to(levels@.len()) == 2 * two_to(before.len()));
            two_to_monotone(before.len(), before.len());
        }
        if reach >= n - reach {
            done = true;
        } else {
            reach = reach + reach;
        }
    }
    levels
}

proof fn up_stays(parent: Seq<Option<usize>>, b: usize, k: nat)
    requires
        b < parent.len(),
        forall|b: int| 0 <= b < parent.len() ==> match #[trigger] parent[b] {
            Some(p) => p < parent.len(),
            None => true,
        },
    ensures
        up(parent, b, k) is Some ==> up(parent, b, k)->0 < parent.len(),
    decreases k,
{
    if k > 0 {
        up_stays(parent, b, (k - 1) as nat);
    }
}

} // verus!
