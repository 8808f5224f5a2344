//! Natural loops and the forest that their containment forms.

use vstd::prelude::*;
use vstd::set_lib::{lemma_int_range, lemma_len_subset, set_int_range};

use crate::forest::{
    child_lists, forest_wf, in_interval, interval_is_ancestry, intervals, is_ancestor, kids, kids_listed,
    laid_out, up, up_extends,
};
use crate::ids::{BlockRef, EdgeRef};
use crate::idset::IdSet;
use crate::search::{first_where, first_where_least, first_where_stable};
use crate::tree::{depth_within, members, up_compose, up_depth, up_node, Tree};

verus! {

/// All back edges to one header, with the union of their loop bodies.
#[derive(Debug, Clone)]
pub struct NaturalLoop {
    pub header: BlockRef,
    pub backedges: Vec<EdgeRef>,
    pub blocks: IdSet<BlockRef>,
}

/// A loop's index in the list of natural loops.
#[derive(Debug, Clone, Copy, PartialEq, Eq, PartialOrd, Ord, Hash, Structural)]
pub struct NaturalLoopId(pub usize);

impl NaturalLoopId {
    pub fn index(self) -> (r: usize)
        ensures
            r == self.0,
    {
        self.0
    }
}

/// Which loop lies in which, and the innermost loop of each block.
#[derive(Debug)]
pub struct NaturalLoopForest {
    pub loop_by_header: Vec<Option<usize>>,
    pub parent: Vec<Option<usize>>,
    pub children: Vec<Vec<usize>>,
    pub direct_blocks: Vec<Vec<BlockRef>>,
    pub innermost_by_block: Vec<Option<usize>>,
    pub preorder_index: Vec<Option<usize>>,
    pub subtree_end: Vec<Option<usize>>,
    pub ambiguous_blocks: Vec<bool>,
}

/// `outer` has every block of `inner`, and more.
pub open spec fn holds_loop(loops: Seq<NaturalLoop>, outer: int, inner: int) -> bool {
    loops[outer].blocks@.len() > loops[inner].blocks@.len() && loops[inner].blocks@.subset_of(loops[outer].blocks@)
}

pub open spec fn has_header(loops: Seq<NaturalLoop>, b: usize) -> spec_fn(int) -> bool {
    |i: int| loops[i].header.0 == b
}

/// The first loop with header `b`.
pub open spec fn header_loop(loops: Seq<NaturalLoop>, b: usize) -> Option<int> {
    first_where(loops.len(), has_header(loops, b))
}

/// The block `k` levels above the header of loop `i` in the dominator tree is one of the
/// first `count` and heads a loop that holds loop `i`.
pub open spec fn encloses_at(loops: Seq<NaturalLoop>, idom: Seq<Option<usize>>, i: int, count: nat) -> spec_fn(int) -> bool {
    |k: int|
        k >= 1 && match up(idom, loops[i].header.0, k as nat) {
            Some(b) => b < count && match header_loop(loops, b) {
                Some(c) => holds_loop(loops, c, i),
                None => false,
            },
            None => false,
        }
}

/// The nearest enclosing loop: headed by the closest dominator of the header that heads a
/// larger loop with all its blocks.
pub open spec fn enclosing_loop(loops: Seq<NaturalLoop>, idom: Seq<Option<usize>>, i: int, count: nat) -> Option<int> {
    match first_where(idom.len() + 1, encloses_at(loops, idom, i, count)) {
        Some(k) => header_loop(loops, up(idom, loops[i].header.0, k as nat)->0),
        None => None,
    }
}

pub open spec fn loop_members(n: nat) -> Seq<bool> {
    Seq::new(n, |i: int| true)
}

/// A loop's rank in the forest: the smaller the loop, the higher.
pub open spec fn loop_ranks(loops: Seq<NaturalLoop>, top: nat) -> Seq<nat> {
    Seq::new(
        loops.len(),
        |i: int| if top > loops[i].blocks@.len() {
            (top - loops[i].blocks@.len()) as nat
        } else {
            0nat
        },
    )
}

/// The innermost loop of block `b` among the first `n` loops, and whether two of those that
/// hold `b` are not nested in each other.
pub open spec fn block_owner(
    loops: Seq<NaturalLoop>,
    parent: Seq<Option<usize>>,
    b: BlockRef,
    n: nat,
) -> (Option<usize>, bool)
    decreases n,
{
    if n == 0 {
        (None, false)
    } else {
        let i = n - 1;
        let (owner, ambiguous) = block_owner(loops, parent, b, i as nat);
        if ambiguous || !loops[i].blocks@.contains(b) {
            (owner, ambiguous)
        } else {
            match owner {
                None => (Some(i as usize), false),
                Some(o) => if holds_loop(loops, o as int, i) && is_ancestor(parent, o, i as usize) {
                    (Some(i as usize), false)
                } else if holds_loop(loops, i, o as int) && is_ancestor(parent, i as usize, o) {
                    (Some(o), false)
                } else {
                    (None, true)
                },
            }
        }
    }
}

/// The blocks below `n` whose innermost loop is `l`, in ascending order.
pub open spec fn owned_blocks(owner: Seq<Option<usize>>, l: usize, n: nat) -> Seq<BlockRef>
    decreases n,
{
    if n == 0 {
        Seq::empty()
    } else {
        let rest = owned_blocks(owner, l, (n - 1) as nat);
        if owner[n - 1] == Some(l) {
            rest.push(BlockRef((n - 1) as usize))
        } else {
            rest
        }
    }
}

impl NaturalLoopForest {
    /// The forest says of `loops` what their blocks and the dominator tree say.
    pub open spec fn describes(&self, loops: Seq<NaturalLoop>, idom: Seq<Option<usize>>, block_count: nat) -> bool {
        let n = loops.len();
        &&& self.loop_by_header@.len() == block_count
        &&& forall|b: int| 0 <= b < block_count ==> #[trigger] self.loop_by_header@[b] == match header_loop(loops, b as usize) {
            Some(c) => Some(c as usize),
            None => None,
        }
        &&& self.parent@.len() == n
        &&& forall|i: int| 0 <= i < n ==> #[trigger] self.parent@[i] == match enclosing_loop(loops, idom, i, block_count) {
            Some(c) => Some(c as usize),
            None => None,
        }
        &&& self.children@.len() == n
        &&& forall|p: int| 0 <= p < n ==> (#[trigger] self.children@[p])@ == kids(self.parent@, p as usize, n)
        &&& laid_out(self.parent@, loop_members(n), self.preorder_index@, self.subtree_end@)
        &&& exists|top: nat| #[trigger] forest_wf(self.parent@, loop_members(n), loop_ranks(loops, top))
        &&& self.innermost_by_block@.len() == block_count
        &&& self.ambiguous_blocks@.len() == block_count
        &&& forall|b: int| 0 <= b < block_count ==> (#[trigger] self.innermost_by_block@[b], self.ambiguous_blocks@[b]) == block_owner(
            loops,
            self.parent@,
            BlockRef(b as usize),
            n,
        )
        &&& self.direct_blocks@.len() == n
        &&& forall|l: int| 0 <= l < n ==> (#[trigger] self.direct_blocks@[l])@ == owned_blocks(
            self.innermost_by_block@,
            l as usize,
            block_count,
        )
    }

    /// The innermost loop of `b`, unless the loops around it overlap.
    pub open spec fn innermost(&self, b: BlockRef) -> Option<NaturalLoopId> {
        if b.0 < self.ambiguous_blocks@.len() && !self.ambiguous_blocks@[b.0 as int] && b.0 < self.innermost_by_block@.len() {
            match self.innermost_by_block@[b.0 as int] {
                Some(l) => Some(NaturalLoopId(l)),
                None => None,
            }
        } else {
            None
        }
    }

    pub open spec fn parent_loop(&self, l: NaturalLoopId) -> Option<NaturalLoopId> {
        if l.0 < self.parent@.len() {
            match self.parent@[l.0 as int] {
                Some(p) => Some(NaturalLoopId(p)),
                None => None,
            }
        } else {
            None
        }
    }

    pub fn len(&self) -> (r: usize)
        ensures
            r == self.parent@.len(),
    {
        self.parent.len()
    }

    pub fn is_empty(&self) -> (r: bool)
        ensures
            r == (self.parent@.len() == 0),
    {
        self.parent.len() == 0
    }

    pub fn parent_of(&self, loop_id: NaturalLoopId) -> (r: Option<NaturalLoopId>)
        ensures
            r == self.parent_loop(loop_id),
    {
        if loop_id.0 >= self.parent.len() {
            return None;
        }
        match self.parent[loop_id.0] {
            Some(p) => Some(NaturalLoopId(p)),
            None => None,
        }
    }

    pub fn loop_for_header(&self, header: BlockRef) -> (r: Option<NaturalLoopId>)
        ensures
            r == (if header.0 < self.loop_by_header@.len() {
                match self.loop_by_header@[header.0 as int] {
                    Some(l) => Some(NaturalLoopId(l)),
                    None => None,
                }
            } else {
                None
            }),
    {
        if header.0 >= self.loop_by_header.len() {
            return None;
        }
        match self.loop_by_header[header.0] {
            Some(l) => Some(NaturalLoopId(l)),
            None => None,
        }
    }

    /// The loops directly inside a loop, in ascending order.
    pub open spec fn child_loops(&self, l: NaturalLoopId) -> Seq<NaturalLoopId> {
        if l.0 < self.children@.len() {
            self.children@[l.0 as int]@.map_values(|c: usize| NaturalLoopId(c))
        } else {
            Seq::empty()
        }
    }

    /// The blocks that a loop has to itself.
    pub open spec fn own_blocks(&self, l: NaturalLoopId) -> Seq<BlockRef> {
        if l.0 < self.direct_blocks@.len() {
            self.direct_blocks@[l.0 as int]@
        } else {
            Seq::empty()
        }
    }

    /// The loops from `next` outwards, at most `n` of them.
    pub open spec fn chain_from(&self, next: Option<NaturalLoopId>, n: nat) -> Seq<NaturalLoopId>
        decreases n,
    {
        match next {
            Some(l) => if n == 0 {
                Seq::empty()
            } else {
                seq![l] + self.chain_from(self.parent_loop(l), (n - 1) as nat)
            },
            None => Seq::empty(),
        }
    }

    /// The loops around a block, from the innermost outwards.
    pub open spec fn loops_around(&self, b: BlockRef) -> Seq<NaturalLoopId> {
        self.chain_from(self.innermost(b), self.parent@.len())
    }

    /// The loops directly inside a loop, in ascending order.
    pub fn children_of(&self, loop_id: NaturalLoopId) -> (r: Vec<NaturalLoopId>)
        ensures
            r@ == self.child_loops(loop_id),
    {
        let mut r: Vec<NaturalLoopId> = Vec::new();
        if loop_id.0 >= self.children.len() {
            return r;
        }
        let n = self.children[loop_id.0].len();
        let ghost row = self.children@[loop_id.0 as int]@;
        let mut i: usize = 0;
        while i < n
            invariant
                loop_id.0 < self.children@.len(),
                row == self.children@[loop_id.0 as int]@,
                n == row.len(),
                i <= n,
                r@ =~= row.subrange(0, i as int).map_values(|l: usize| NaturalLoopId(l)),
            decreases n - i,
        {
            r.push(NaturalLoopId(self.children[loop_id.0][i]));
            i = i + 1;
        }
        assert(row.subrange(0, n as int) =~= row);
        r
    }

    /// The blocks whose innermost loop is `loop_id`, in ascending order.
    pub fn direct_blocks(&self, loop_id: NaturalLoopId) -> (r: Vec<BlockRef>)
        ensures
            r@ == self.own_blocks(loop_id),
    {
        let mut r: Vec<BlockRef> = Vec::new();
        if loop_id.0 >= self.direct_blocks.len() {
            return r;
        }
        let n = self.direct_blocks[loop_id.0].len();
        let ghost row = self.direct_blocks@[loop_id.0 as int]@;
        let mut i: usize = 0;
        while i < n
            invariant
                loop_id.0 < self.direct_blocks@.len(),
                row == self.direct_blocks@[loop_id.0 as int]@,
                n == row.len(),
                i <= n,
                r@ =~= row.subrange(0, i as int),
            decreases n - i,
        {
            r.push(self.direct_blocks[loop_id.0][i]);
            i = i + 1;
        }
        assert(row.subrange(0, n as int) =~= row);
        r
    }

    pub fn innermost_loop(&self, block: BlockRef) -> (r: Option<NaturalLoopId>)
        ensures
            r == self.innermost(block),
    {
        if block.0 >= self.ambiguous_blocks.len() || self.ambiguous_blocks[block.0] || block.0 >= self.innermost_by_block.len() {
            return None;
        }
        match self.innermost_by_block[block.0] {
            Some(l) => Some(NaturalLoopId(l)),
            None => None,
        }
    }

    pub fn is_ancestor_or_self(&self, ancestor: NaturalLoopId, descendant: NaturalLoopId) -> (r: bool)
        ensures
            r == in_interval(self.preorder_index@, self.subtree_end@, ancestor.0, descendant.0),
    {
        let a = ancestor.0;
        let d = descendant.0;
        if a >= self.preorder_index.len() || a >= self.subtree_end.len() || d >= self.preorder_index.len() {
            return false;
        }
        match (self.preorder_index[a], self.subtree_end[a], self.preorder_index[d]) {
            (Some(s), Some(e), Some(x)) => s <= x && x < e,
            _ => false,
        }
    }

    /// What [`NaturalLoopForest::contains`] answers.
    pub open spec fn holds_block(&self, l: NaturalLoopId, b: BlockRef) -> bool {
        match self.innermost(b) {
            Some(inner) => in_interval(self.preorder_index@, self.subtree_end@, l.0, inner.0),
            None => false,
        }
    }

    pub fn contains(&self, loop_id: NaturalLoopId, block: BlockRef) -> (r: bool)
        ensures
            r == self.holds_block(loop_id, block),
    {
        match self.innermost_loop(block) {
            Some(inner) => self.is_ancestor_or_self(loop_id, inner),
            None => false,
        }
    }

    /// The loops around a block, from the innermost outwards.
    pub fn ancestors_of(&self, block: BlockRef) -> (r: NaturalLoopAncestors<'_>)
        ensures
            r.forest == self,
            r.next == self.innermost(block),
            r.due() == self.loops_around(block),
    {
        NaturalLoopAncestors { forest: self, next: self.innermost_loop(block) }
    }
}

/// A walk outwards through the loops around a block.
#[derive(Debug)]
pub struct NaturalLoopAncestors<'a> {
    pub forest: &'a NaturalLoopForest,
    pub next: Option<NaturalLoopId>,
}

impl<'a> NaturalLoopAncestors<'a> {
    /// The loops that are still to come.
    pub open spec fn due(&self) -> Seq<NaturalLoopId> {
        self.forest.chain_from(self.next, self.forest.parent@.len())
    }

    /// The loop that is due, after which its parent is.
    pub fn advance(&mut self) -> (r: Option<NaturalLoopId>)
        ensures
            r == old(self).next,
            final(self).forest == old(self).forest,
            final(self).next == match old(self).next {
                Some(l) => old(self).forest.parent_loop(l),
                None => None,
            },
    {
        match self.next {
            None => None,
            Some(l) => {
                self.next = self.forest.parent_of(l);
                Some(l)
            },
        }
    }
}

/// Whether one loop's blocks properly hold those of the other.
fn loop_holds(loops: &Vec<NaturalLoop>, outer: usize, inner: usize) -> (r: bool)
    requires
        outer < loops@.len(),
        inner < loops@.len(),
    ensures
        r == holds_loop(loops@, outer as int, inner as int),
{
    loops[outer].blocks.len() > loops[inner].blocks.len() && loops[inner].blocks.is_subset(&loops[outer].blocks)
}

proof fn chain_ends(tree: &Tree, b: usize, k: nat)
    requires
        tree.wf(),
        b < tree.parent@.len(),
        k > tree.parent@.len(),
    ensures
        up(tree.parent@, b, k) is None,
{
    if tree.has(b) {
        up_depth(tree, b, k);
        depth_within(tree, b);
    } else {
        assert(tree.parent@[b as int] is None);
        up_extends(tree.parent@, b, (k - 1) as nat);
    }
}

/// Finds the nearest enclosing loop of loop `i`.
fn find_enclosing(
    loops: &Vec<NaturalLoop>,
    loop_by_header: &Vec<Option<usize>>,
    tree: &Tree,
    i: usize,
) -> (r: Option<usize>)
    requires
        tree.wf(),
        i < loops@.len(),
        forall|b: int| 0 <= b < loop_by_header@.len() ==> #[trigger] loop_by_header@[b] == match header_loop(
            loops@,
            b as usize,
        ) {
            Some(c) => Some(c as usize),
            None => None,
        },
    ensures
        match enclosing_loop(loops@, tree.parent@, i as int, loop_by_header@.len()) {
            Some(c) => 0 <= c < loops@.len() && r == Some(c as usize) && holds_loop(loops@, c, i as int),
            None => r is None,
        },
{
    let ghost idom = tree.parent@;
    let ghost n = idom.len();
    let ghost pred = encloses_at(loops@, idom, i as int, loop_by_header@.len());
    let h = loops[i].header.0;
    let loop_count = loops.len();
    let mut cursor: Option<usize> = if h < tree.parent.len() {
        tree.parent[h]
    } else {
        None
    };
    let ghost mut k: nat = 1;
    proof {
        assert(up(idom, h, 0) == Some(h));
        assert(up(idom, h, 1) == cursor);
        assert(!pred(0));
        assert(first_where(0, pred) is None);
        assert(first_where(1, pred) is None);
    }
    while cursor.is_some()
        invariant
            tree.wf(),
            idom == tree.parent@,
            n == idom.len(),
            i < loops@.len(),
            loop_count == loops@.len(),
            h == loops@[i as int].header.0,
            cursor is Some ==> h < n,
            pred == encloses_at(loops@, idom, i as int, loop_by_header@.len()),
            forall|b: int| 0 <= b < loop_by_header@.len() ==> #[trigger] loop_by_header@[b] == match header_loop(
                loops@,
                b as usize,
            ) {
                Some(c) => Some(c as usize),
                None => None,
            },
            k >= 1,
            cursor == up(idom, h, k),
            cursor is Some ==> k <= n,
            first_where(k, pred) is None,
        decreases n + 1 - k,
    {
        let b = cursor.unwrap();
        proof {
            let member = members(tree.depth@);
            up_node(tree, h, k);
            first_where_least(loops@.len(), has_header(loops@, b));
            assert(b as int as usize == b);
            assert(b < loop_by_header@.len() ==> loop_by_header@[b as int] == match header_loop(loops@, b) {
                Some(c) => Some(c as usize),
                None => None,
            });
            assert(up(idom, h, k) == Some(b));
        }
        let here: Option<usize> = if b < loop_by_header.len() {
            loop_by_header[b]
        } else {
            None
        };
        if let Some(c) = here {
            if loop_holds(loops, c, i) {
                proof {
                    assert(pred(k as int));
                    assert(first_where(k + 1, pred) == Some(k as int));
                    first_where_stable(k + 1, n + 1, pred);
                }
                return Some(c);
            }
        }
        proof {
            assert(!pred(k as int));
            assert(first_where(k + 1, pred) is None);
            if k + 1 > n {
                chain_ends(tree, h, k + 1);
            }
            assert(up(idom, h, k + 1) == idom[b as int]);
            k = k + 1;
        }
        cursor = tree.parent[b];
    }
    proof {
        // Above the root there is nothing, so the search finds nothing further up.
        first_where_least(k, pred);
        first_where_least(n + 1, pred);
        if let Some(q) = first_where(n + 1, pred) {
            assert(pred(q));
            assert(q >= k);
            up_compose(idom, h, k, (q - k) as nat);
        }
    }
    None
}

impl NaturalLoopForest {
    /// Builds the containment forest of loops; what lies outside of the graph counts for
    /// nothing.
    pub fn build(loops: &Vec<NaturalLoop>, dominator_tree: &Tree, block_count: usize) -> (f: Self)
        requires
            dominator_tree.wf(),
        ensures
            f.describes(loops@, dominator_tree.parent@, block_count as nat),
    {
        let n = loops.len();
        let ghost ls = loops@;
        let ghost idom = dominator_tree.parent@;
        let mut loop_by_header: Vec<Option<usize>> = vec![None; block_count];
        let mut i: usize = 0;
        while i < n
            invariant
                ls == loops@,
                n == ls.len(),
                i <= n,
                loop_by_header@.len() == block_count,
                forall|b: int| 0 <= b < block_count ==> #[trigger] loop_by_header@[b] == match first_where(
                    i as nat,
                    has_header(ls, b as usize),
                ) {
                    Some(c) => Some(c as usize),
                    None => None,
                },
            decreases n - i,
        {
            let h = loops[i].header.0;
            let ghost before = loop_by_header@;
            assert(ls[i as int].header.0 == h);
            if h < block_count && loop_by_header[h].is_none() {
                loop_by_header[h] = Some(i);
            }
            proof {
                assert forall|b: int| 0 <= b < block_count implies #[trigger] loop_by_header@[b] == match first_where(
                    (i + 1) as nat,
                    has_header(ls, b as usize),
                ) {
                    Some(c) => Some(c as usize),
                    None => None,
                } by {
                    assert(before[b] == match first_where(i as nat, has_header(ls, b as usize)) {
                        Some(c) => Some(c as usize),
                        None => None,
                    });
                    assert(has_header(ls, b as usize)(i as int) == (h == b));
                }
            }
            i = i + 1;
        }
        let mut parent: Vec<Option<usize>> = Vec::new();
        let mut largest: usize = 0;
        let mut i: usize = 0;
        while i < n
            invariant
                dominator_tree.wf(),
                idom == dominator_tree.parent@,
                ls == loops@,
                n == ls.len(),
                i <= n,
                loop_by_header@.len() == block_count,
                forall|b: int| 0 <= b < block_count ==> #[trigger] loop_by_header@[b] == match header_loop(ls, b as usize) {
                    Some(c) => Some(c as usize),
                    None => None,
                },
                parent@.len() == i,
                forall|j: int| 0 <= j < i ==> #[trigger] parent@[j] == match enclosing_loop(ls, idom, j, block_count as nat) {
                    Some(c) => Some(c as usize),
                    None => None,
                },
                forall|j: int| 0 <= j < i ==> match #[trigger] parent@[j] {
                    Some(c) => c < n && holds_loop(ls, c as int, j),
                    None => true,
                },
                forall|j: int| 0 <= j < i ==> (#[trigger] ls[j]).blocks@.len() <= largest,
            decreases n - i,
        {
            let p = find_enclosing(loops, &loop_by_header, dominator_tree, i);
            parent.push(p);
            let size = loops[i].blocks.len();
            if size > largest {
                largest = size;
            }
            i = i + 1;
        }
        let member: Vec<bool> = vec![true; n];
        let ghost top = (largest + 1) as nat;
        proof {
            assert(member@ =~= loop_members(n as nat));
            let rank = loop_ranks(ls, top);
            assert forall|b: int| 0 <= b < n implies match #[trigger] parent@[b] {
                Some(p) => p < n && member@[p as int] && member@[b] && rank[p as int] < rank[b],
                None => true,
            } by {
                if let Some(p) = parent@[b] {
                    assert(holds_loop(ls, p as int, b));
                    assert(ls[p as int].blocks@.len() <= largest);
                }
            }
            assert(forest_wf(parent@, member@, rank));
        }
        let children = child_lists(&parent);
        let (preorder_index, subtree_end, order) = intervals(&parent, &member, &children, Ghost(loop_ranks(ls, top)));
        let mut innermost_by_block: Vec<Option<usize>> = Vec::new();
        let mut ambiguous_blocks: Vec<bool> = Vec::new();
        let mut b: usize = 0;
        while b < block_count
            invariant
                ls == loops@,
                n == ls.len(),
                b <= block_count,
                parent@.len() == n,
                forest_wf(parent@, loop_members(n as nat), loop_ranks(ls, top)),
                laid_out(parent@, loop_members(n as nat), preorder_index@, subtree_end@),
                innermost_by_block@.len() == b,
                ambiguous_blocks@.len() == b,
                forall|q: int| 0 <= q < b ==> (#[trigger] innermost_by_block@[q], ambiguous_blocks@[q]) == block_owner(
                    ls,
                    parent@,
                    BlockRef(q as usize),
                    n as nat,
                ),
            decreases block_count - b,
        {
            let (owner, ambiguous) = find_owner(loops, &parent, &preorder_index, &subtree_end, BlockRef(b), Ghost(top));
            innermost_by_block.push(owner);
            ambiguous_blocks.push(ambiguous);
            b = b + 1;
        }
        let mut direct_blocks: Vec<Vec<BlockRef>> = Vec::new();
        let mut l: usize = 0;
        while l < n
            invariant
                l <= n,
                innermost_by_block@.len() == block_count,
                direct_blocks@.len() == l,
                forall|q: int| 0 <= q < l ==> (#[trigger] direct_blocks@[q])@ == owned_blocks(
                    innermost_by_block@,
                    q as usize,
                    block_count as nat,
                ),
            decreases n - l,
        {
            let mut row: Vec<BlockRef> = Vec::new();
            let mut b: usize = 0;
            while b < block_count
                invariant
                    b <= block_count,
                    innermost_by_block@.len() == block_count,
                    row@ == owned_blocks(innermost_by_block@, l, b as nat),
                decreases block_count - b,
            {
                if innermost_by_block[b] == Some(l) {
                    row.push(BlockRef(b));
                }
                b = b + 1;
            }
            direct_blocks.push(row);
            l = l + 1;
        }
        NaturalLoopForest {
            loop_by_header,
            parent,
            children,
            direct_blocks,
            innermost_by_block,
            preorder_index,
            subtree_end,
            ambiguous_blocks,
        }
    }
}

fn find_owner(
    loops: &Vec<NaturalLoop>,
    parent: &Vec<Option<usize>>,
    preorder_index: &Vec<Option<usize>>,
    subtree_end: &Vec<Option<usize>>,
    block: BlockRef,
    Ghost(top): Ghost<nat>,
) -> (r: (Option<usize>, bool))
    requires
        parent@.len() == loops@.len(),
        forest_wf(parent@, loop_members(loops@.len()), loop_ranks(loops@, top)),
        laid_out(parent@, loop_members(loops@.len()), preorder_index@, subtree_end@),
    ensures
        r == block_owner(loops@, parent@, block, loops@.len()),
{
    let n = loops.len();
    let mut owner: Option<usize> = None;
    let mut ambiguous = false;
    let mut i: usize = 0;
    while i < n
        invariant
            n == loops@.len(),
            parent@.len() == n,
            i <= n,
            forest_wf(parent@, loop_members(n as nat), loop_ranks(loops@, top)),
            laid_out(parent@, loop_members(n as nat), preorder_index@, subtree_end@),
            (owner, ambiguous) == block_owner(loops@, parent@, block, i as nat),
            owner is Some ==> owner->0 < i,
        decreases n - i,
    {
        if !ambiguous && loops[i].blocks.contains(block) {
            match owner {
                None => {
                    owner = Some(i);
                },
                Some(o) => {
                    proof {
                        let member = loop_members(n as nat);
                        interval_is_ancestry(
                            parent@,
                            member,
                            loop_ranks(loops@, top),
                            preorder_index@,
                            subtree_end@,
                            o,
                            i,
                        );
                        interval_is_ancestry(
                            parent@,
                            member,
                            loop_ranks(loops@, top),
                            preorder_index@,
                            subtree_end@,
                            i,
                            o,
                        );
                    }
                    if loop_holds(loops, o, i) && interval_holds(preorder_index, subtree_end, o, i) {
                        owner = Some(i);
                    } else if loop_holds(loops, i, o) && interval_holds(preorder_index, subtree_end, i, o) {
                    } else {
                        owner = None;
                        ambiguous = true;
                    }
                },
            }
        }
        i = i + 1;
    }
    (owner, ambiguous)
}

fn interval_holds(preorder_index: &Vec<Option<usize>>, subtree_end: &Vec<Option<usize>>, a: usize, b: usize) -> (r: bool)
    requires
        preorder_index@.len() == subtree_end@.len(),
    ensures
        r == in_interval(preorder_index@, subtree_end@, a, b),
{
    if a >= preorder_index.len() || b >= preorder_index.len() {
        return false;
    }
    match (preorder_index[a], subtree_end[a], preorder_index[b]) {
        (Some(s), Some(e), Some(x)) => s <= x && x < e,
        _ => false,
    }
}

proof fn ancestor_holds(loops: Seq<NaturalLoop>, parent: Seq<Option<usize>>, b: usize, k: nat, x: BlockRef)
    requires
        parent.len() == loops.len(),
        b < loops.len(),
        forall|i: int| 0 <= i < loops.len() ==> match #[trigger] parent[i] {
            Some(p) => p < loops.len() && holds_loop(loops, p as int, i),
            None => true,
        },
        up(parent, b, k) is Some,
        loops[b as int].blocks@.contains(x),
    ensures
        up(parent, b, k)->0 < loops.len(),
        loops[up(parent, b, k)->0 as int].blocks@.contains(x),
    decreases k,
{
    if k > 0 {
        ancestor_holds(loops, parent, b, (k - 1) as nat, x);
        let c = up(parent, b, (k - 1) as nat)->0;
        assert(holds_loop(loops, parent[c as int]->0 as int, c as int));
    }
}

proof fn ancestors_compose(parent: Seq<Option<usize>>, a: usize, b: usize, c: usize)
    requires
        is_ancestor(parent, a, b),
        is_ancestor(parent, b, c),
    ensures
        is_ancestor(parent, a, c),
{
    let i = choose|i: nat| #[trigger] up(parent, b, i) == Some(a);
    let j = choose|j: nat| #[trigger] up(parent, c, j) == Some(b);
    up_compose(parent, c, j, i);
    assert(up(parent, c, j + i) == Some(a));
}

/// Up to loop `n`: an unambiguous owner holds the block, and every loop that holds the block
/// is the owner or lies around it; without an owner no loop holds the block.
proof fn owner_is_innermost(loops: Seq<NaturalLoop>, parent: Seq<Option<usize>>, b: BlockRef, n: nat)
    requires
        n <= loops.len() <= usize::MAX,
    ensures
        ({
            let (owner, ambiguous) = block_owner(loops, parent, b, n);
            &&& ambiguous ==> owner is None
            &&& owner is Some ==> owner->0 < n && loops[owner->0 as int].blocks@.contains(b)
            &&& !ambiguous ==> forall|i: int|
                0 <= i < n && (#[trigger] loops[i]).blocks@.contains(b) ==> owner is Some && is_ancestor(
                    parent,
                    i as usize,
                    owner->0,
                )
        }),
    decreases n,
{
    if n > 0 {
        let i = n - 1;
        owner_is_innermost(loops, parent, b, i as nat);
        let (owner, ambiguous) = block_owner(loops, parent, b, i as nat);
        let (next, unclear) = block_owner(loops, parent, b, n);
        if !unclear {
            assert forall|q: int| 0 <= q < n && (#[trigger] loops[q]).blocks@.contains(b) implies next is Some && is_ancestor(
                parent,
                q as usize,
                next->0,
            ) by {
                if q == i {
                    assert(up(parent, i as usize, 0) == Some(i as usize));
                } else {
                    assert(owner is Some);
                    if next != owner {
                        ancestors_compose(parent, q as usize, owner->0, i as usize);
                    }
                }
            }
        }
    }
}

/// Every parent loop holds the loops inside it.
proof fn parents_hold(f: &NaturalLoopForest, loops: Seq<NaturalLoop>, idom: Seq<Option<usize>>, block_count: nat)
    requires
        f.describes(loops, idom, block_count),
        loops.len() <= usize::MAX,
    ensures
        forall|i: int| 0 <= i < loops.len() ==> match #[trigger] f.parent@[i] {
            Some(p) => p < loops.len() && holds_loop(loops, p as int, i),
            None => true,
        },
{
    assert forall|i: int| 0 <= i < loops.len() implies match #[trigger] f.parent@[i] {
        Some(p) => p < loops.len() && holds_loop(loops, p as int, i),
        None => true,
    } by {
        let pred = encloses_at(loops, idom, i, block_count);
        first_where_least(idom.len() + 1, pred);
        if let Some(k) = first_where(idom.len() + 1, pred) {
            assert(pred(k));
            let b = up(idom, loops[i].header.0, k as nat)->0;
            first_where_least(loops.len(), has_header(loops, b));
        }
    }
}

/// What the forest says of a block with an unambiguous place: a loop contains it exactly when
/// the block is one of the loop's blocks. For any other block it says no.
pub proof fn forest_answers_membership(
    f: &NaturalLoopForest,
    loops: Seq<NaturalLoop>,
    idom: Seq<Option<usize>>,
    block_count: nat,
    l: NaturalLoopId,
    b: BlockRef,
)
    requires
        f.describes(loops, idom, block_count),
        loops.len() <= usize::MAX,
        b.0 < block_count,
        l.0 < loops.len(),
    ensures
        f.holds_block(l, b) ==> loops[l.0 as int].blocks@.contains(b),
        !f.ambiguous_blocks@[b.0 as int] ==> (f.holds_block(l, b) <==> loops[l.0 as int].blocks@.contains(b)),
        f.ambiguous_blocks@[b.0 as int] ==> f.innermost(b) is None && !f.holds_block(l, b),
{
    let n = loops.len();
    owner_is_innermost(loops, f.parent@, b, n);
    assert((f.innermost_by_block@[b.0 as int], f.ambiguous_blocks@[b.0 as int]) == block_owner(
        loops,
        f.parent@,
        BlockRef(b.0 as int as usize),
        n,
    ));
    parents_hold(f, loops, idom, block_count);
    if let Some(inner) = f.innermost(b) {
        let top = choose|top: nat| #[trigger] forest_wf(f.parent@, loop_members(n), loop_ranks(loops, top));
        interval_is_ancestry(
            f.parent@,
            loop_members(n),
            loop_ranks(loops, top),
            f.preorder_index@,
            f.subtree_end@,
            l.0,
            inner.0,
        );
        if f.holds_block(l, b) {
            let k = choose|k: nat| #[trigger] up(f.parent@, inner.0, k) == Some(l.0);
            ancestor_holds(loops, f.parent@, inner.0, k, b);
        }
    }
}

proof fn owned_blocks_listed(owner: Seq<Option<usize>>, l: usize, n: nat)
    requires
        n <= owner.len() <= usize::MAX,
    ensures
        owned_blocks(owner, l, n).len() <= n,
        forall|i: int| 0 <= i < owned_blocks(owner, l, n).len() ==> (#[trigger] owned_blocks(owner, l, n)[i]).0 < n
            && owner[owned_blocks(owner, l, n)[i].0 as int] == Some(l),
        forall|i: int, j: int|
            0 <= i < j < owned_blocks(owner, l, n).len() ==> (#[trigger] owned_blocks(owner, l, n)[i]).0
                < (#[trigger] owned_blocks(owner, l, n)[j]).0,
    decreases n,
{
    if n > 0 {
        owned_blocks_listed(owner, l, (n - 1) as nat);
    }
}

/// The number of blocks that the first `n` loops have to themselves, added up.
pub open spec fn own_total(f: &NaturalLoopForest, n: nat) -> nat
    decreases n,
{
    if n == 0 {
        0
    } else {
        own_total(f, (n - 1) as nat) + f.own_blocks(NaturalLoopId((n - 1) as usize)).len()
    }
}

/// The same, for the blocks below `m` alone.
spec fn owned_total(owner: Seq<Option<usize>>, n: nat, m: nat) -> nat
    decreases n,
{
    if n == 0 {
        0
    } else {
        owned_total(owner, (n - 1) as nat, m) + owned_blocks(owner, (n - 1) as usize, m).len()
    }
}

/// One more block adds to one list at most.
proof fn one_more_block(owner: Seq<Option<usize>>, n: nat, m: nat)
    requires
        0 < m <= owner.len(),
        n <= usize::MAX,
    ensures
        owned_total(owner, n, m) == owned_total(owner, n, (m - 1) as nat) + if owner[m - 1] is Some && owner[m - 1]->0 < n {
            1nat
        } else {
            0nat
        },
    decreases n,
{
    if n > 0 {
        one_more_block(owner, (n - 1) as nat, m);
    }
}

proof fn owned_total_bounded(owner: Seq<Option<usize>>, n: nat, m: nat)
    requires
        m <= owner.len(),
        n <= usize::MAX,
    ensures
        owned_total(owner, n, m) <= m,
    decreases m,
{
    if m > 0 {
        owned_total_bounded(owner, n, (m - 1) as nat);
        one_more_block(owner, n, m);
    } else {
        nothing_owned(owner, n);
    }
}

proof fn nothing_owned(owner: Seq<Option<usize>>, n: nat)
    ensures
        owned_total(owner, n, 0) == 0,
    decreases n,
{
    if n > 0 {
        nothing_owned(owner, (n - 1) as nat);
    }
}

proof fn own_total_is_owned(
    f: &NaturalLoopForest,
    loops: Seq<NaturalLoop>,
    idom: Seq<Option<usize>>,
    block_count: nat,
    n: nat,
)
    requires
        f.describes(loops, idom, block_count),
        n <= loops.len() <= usize::MAX,
    ensures
        own_total(f, n) == owned_total(f.innermost_by_block@, n, block_count),
    decreases n,
{
    if n > 0 {
        own_total_is_owned(f, loops, idom, block_count, (n - 1) as nat);
        assert(f.direct_blocks@[n - 1]@ == owned_blocks(f.innermost_by_block@, (n - 1) as usize, block_count));
    }
}

/// A loop around another has at least its blocks; and more, unless it is the same.
proof fn ancestor_is_larger(loops: Seq<NaturalLoop>, parent: Seq<Option<usize>>, b: usize, k: nat)
    requires
        parent.len() == loops.len(),
        b < loops.len(),
        forall|i: int| 0 <= i < loops.len() ==> match #[trigger] parent[i] {
            Some(p) => p < loops.len() && holds_loop(loops, p as int, i),
            None => true,
        },
        up(parent, b, k) is Some,
    ensures
        up(parent, b, k)->0 < loops.len(),
        loops[b as int].blocks@.len() <= loops[up(parent, b, k)->0 as int].blocks@.len(),
        k > 0 ==> loops[b as int].blocks@.len() < loops[up(parent, b, k)->0 as int].blocks@.len(),
    decreases k,
{
    if k > 0 {
        ancestor_is_larger(loops, parent, b, (k - 1) as nat);
        let c = up(parent, b, (k - 1) as nat)->0;
        assert(holds_loop(loops, parent[c as int]->0 as int, c as int));
    }
}

proof fn owned_blocks_complete(owner: Seq<Option<usize>>, l: usize, n: nat, b: usize)
    requires
        b < n <= owner.len() <= usize::MAX,
        owner[b as int] == Some(l),
    ensures
        owned_blocks(owner, l, n).contains(BlockRef(b)),
    decreases n,
{
    let rest = owned_blocks(owner, l, (n - 1) as nat);
    let all = owned_blocks(owner, l, n);
    if b == n - 1 {
        assert(all[rest.len() as int] == BlockRef(b));
    } else {
        owned_blocks_complete(owner, l, (n - 1) as nat, b);
        let k = rest.index_of(BlockRef(b));
        assert(all[k] == BlockRef(b));
    }
}

/// A loop has to itself exactly the blocks whose innermost loop it is, in ascending order.
/// They are blocks of the loop and of none of the loops directly inside it.
pub proof fn own_blocks_lie_in_no_child(
    f: &NaturalLoopForest,
    loops: Seq<NaturalLoop>,
    idom: Seq<Option<usize>>,
    block_count: nat,
    l: NaturalLoopId,
    b: BlockRef,
)
    requires
        f.describes(loops, idom, block_count),
        loops.len() <= usize::MAX,
        block_count <= usize::MAX,
        l.0 < loops.len(),
    ensures
        f.own_blocks(l).contains(b) <==> f.innermost(b) == Some(l),
        f.own_blocks(l).contains(b) ==> loops[l.0 as int].blocks@.contains(b),
        f.own_blocks(l).contains(b) ==> forall|c: NaturalLoopId| #[trigger]
            f.child_loops(l).contains(c) ==> c.0 < loops.len() && !loops[c.0 as int].blocks@.contains(b),
        forall|i: int, j: int|
            0 <= i < j < f.own_blocks(l).len() ==> (#[trigger] f.own_blocks(l)[i]).0 < (#[trigger] f.own_blocks(l)[j]).0,
{
    let n = loops.len();
    let owner = f.innermost_by_block@;
    let own = f.own_blocks(l);
    assert(own == owned_blocks(owner, l.0 as int as usize, block_count));
    owned_blocks_listed(owner, l.0, block_count);
    if b.0 < block_count {
        owner_is_innermost(loops, f.parent@, b, n);
        assert((owner[b.0 as int], f.ambiguous_blocks@[b.0 as int]) == block_owner(
            loops,
            f.parent@,
            BlockRef(b.0 as int as usize),
            n,
        ));
    }
    if own.contains(b) {
        let i = own.index_of(b);
        assert(own[i].0 < block_count && owner[own[i].0 as int] == Some(l.0));
    }
    if f.innermost(b) == Some(l) {
        owned_blocks_complete(owner, l.0, block_count, b.0);
    }
    if own.contains(b) {
        parents_hold(f, loops, idom, block_count);
        assert forall|c: NaturalLoopId| #[trigger] f.child_loops(l).contains(c) implies c.0 < loops.len()
            && !loops[c.0 as int].blocks@.contains(b) by {
            let k = f.child_loops(l).index_of(c);
            let row = f.children@[l.0 as int]@;
            assert(row == kids(f.parent@, l.0 as int as usize, n));
            kids_listed(f.parent@, l.0, n);
            assert(row[k] == c.0);
            assert(f.parent@[c.0 as int] == Some(l.0));
            assert(holds_loop(loops, l.0 as int, c.0 as int));
            if loops[c.0 as int].blocks@.contains(b) {
                assert(is_ancestor(f.parent@, c.0 as int as usize, l.0));
                let j = choose|j: nat| #[trigger] up(f.parent@, l.0, j) == Some(c.0);
                ancestor_is_larger(loops, f.parent@, l.0, j);
            }
        }
    }
}

/// The loops have at most as many blocks to themselves, all together, as the graph has.
pub proof fn own_blocks_fit_the_graph(
    f: &NaturalLoopForest,
    loops: Seq<NaturalLoop>,
    idom: Seq<Option<usize>>,
    block_count: nat,
)
    requires
        f.describes(loops, idom, block_count),
        loops.len() <= usize::MAX,
    ensures
        own_total(f, loops.len()) <= block_count,
{
    own_total_is_owned(f, loops, idom, block_count, loops.len());
    owned_total_bounded(f.innermost_by_block@, loops.len(), block_count);
}

/// Every loop exists and is properly held by its parent.
spec fn nested(f: &NaturalLoopForest, loops: Seq<NaturalLoop>) -> bool {
    &&& f.parent@.len() == loops.len()
    &&& loops.len() <= usize::MAX
    &&& forall|i: int| 0 <= i < loops.len() ==> match #[trigger] f.parent@[i] {
        Some(p) => p < loops.len() && holds_loop(loops, p as int, i),
        None => true,
    }
}

/// The loop at place `k` of a chain is the one `k` levels up.
proof fn chain_goes_up(f: &NaturalLoopForest, loops: Seq<NaturalLoop>, l: NaturalLoopId, n: nat)
    requires
        nested(f, loops),
        l.0 < loops.len(),
    ensures
        ({
            let s = f.chain_from(Some(l), n);
            &&& s.len() <= n
            &&& forall|k: int| 0 <= k < s.len() ==> (#[trigger] s[k]).0 < loops.len() && up(f.parent@, l.0, k as nat) == Some(s[k].0)
            &&& s.len() < n ==> up(f.parent@, l.0, s.len()) is None
        }),
    decreases n,
{
    if n > 0 {
        let s = f.chain_from(Some(l), n);
        up_extends(f.parent@, l.0, 0);
        match f.parent@[l.0 as int] {
            Some(p) => {
                assert(up(f.parent@, p, 0) == Some(p));
                let rest = f.chain_from(Some(NaturalLoopId(p)), (n - 1) as nat);
                chain_goes_up(f, loops, NaturalLoopId(p), (n - 1) as nat);
                assert(s =~= seq![l] + rest);
                assert forall|k: int| 0 <= k < s.len() implies (#[trigger] s[k]).0 < loops.len() && up(f.parent@, l.0, k as nat) == Some(s[k].0) by {
                    if k > 0 {
                        assert(s[k] == rest[k - 1]);
                        up_extends(f.parent@, l.0, (k - 1) as nat);
                    }
                }
                up_extends(f.parent@, l.0, rest.len());
            },
            None => {
                assert(f.chain_from(None, (n - 1) as nat) =~= Seq::empty());
                assert(s =~= seq![l]);
            },
        }
    }
}

/// The loops of a chain grow outwards, so none comes twice.
proof fn chain_grows(f: &NaturalLoopForest, loops: Seq<NaturalLoop>, l: NaturalLoopId, n: nat)
    requires
        nested(f, loops),
        l.0 < loops.len(),
    ensures
        f.chain_from(Some(l), n).no_duplicates(),
        f.chain_from(Some(l), n).len() <= loops.len(),
{
    let s = f.chain_from(Some(l), n);
    chain_goes_up(f, loops, l, n);
    assert forall|i: int, j: int| 0 <= i < j < s.len() implies s[i] != s[j] by {
        up_compose(f.parent@, l.0, i as nat, (j - i) as nat);
        assert(i as nat + (j - i) as nat == j as nat);
        assert(up(f.parent@, l.0, i as nat) == Some(s[i].0) && up(f.parent@, l.0, j as nat) == Some(s[j].0));
        ancestor_is_larger(loops, f.parent@, s[i].0, (j - i) as nat);
    }
    let ids = s.map_values(|x: NaturalLoopId| x.0 as int);
    assert forall|i: int, j: int| 0 <= i < ids.len() && 0 <= j < ids.len() && i != j implies ids[i] != ids[j] by {
        assert(s[i] != s[j]);
    }
    ids.unique_seq_to_set();
    let range = set_int_range(0, loops.len() as int);
    lemma_int_range(0, loops.len() as int);
    assert(ids.to_set().subset_of(range)) by {
        assert forall|x: int| ids.to_set().contains(x) implies range.contains(x) by {
            let i = ids.index_of(x);
            assert(s[i].0 < loops.len());
        }
    }
    lemma_len_subset(ids.to_set(), range);
}

/// A chain that has room to spare does not change with more.
proof fn chain_has_room(f: &NaturalLoopForest, next: Option<NaturalLoopId>, n: nat)
    requires
        f.chain_from(next, n + 1).len() <= n,
    ensures
        f.chain_from(next, n + 1) == f.chain_from(next, n),
    decreases n,
{
    if let Some(l) = next {
        let rest = f.chain_from(f.parent_loop(l), n);
        assert(f.chain_from(next, n + 1) == seq![l] + rest);
        if n > 0 {
            chain_has_room(f, f.parent_loop(l), (n - 1) as nat);
        }
    }
}

/// Every step of the walk outwards takes the first of the loops that are due.
pub proof fn steps_take_the_first(
    f: &NaturalLoopForest,
    loops: Seq<NaturalLoop>,
    idom: Seq<Option<usize>>,
    block_count: nat,
    l: NaturalLoopId,
)
    requires
        f.describes(loops, idom, block_count),
        loops.len() <= usize::MAX,
        l.0 < loops.len(),
    ensures
        f.chain_from(Some(l), loops.len()) == seq![l] + f.chain_from(f.parent_loop(l), loops.len()),
{
    parents_hold(f, loops, idom, block_count);
    let n = loops.len();
    chain_grows(f, loops, l, n + 1);
    chain_has_room(f, Some(l), n);
}

/// The loops around a block, from the innermost outwards: each is the parent of the one
/// before and properly holds its blocks, the last has no parent, and they are exactly the
/// loops that contain the block. Without an innermost loop there are none.
pub proof fn loops_around_contain_the_block(
    f: &NaturalLoopForest,
    loops: Seq<NaturalLoop>,
    idom: Seq<Option<usize>>,
    block_count: nat,
    b: BlockRef,
)
    requires
        f.describes(loops, idom, block_count),
        loops.len() <= usize::MAX,
    ensures
        ({
            let s = f.loops_around(b);
            &&& s.no_duplicates()
            &&& s.len() == 0 <==> f.innermost(b) is None
            &&& s.len() > 0 ==> f.innermost(b) == Some(s[0]) && f.parent_loop(s.last()) is None
            &&& forall|k: int| 0 <= k < s.len() - 1 ==> f.parent_loop(#[trigger] s[k]) == Some(s[k + 1])
            &&& forall|l: NaturalLoopId| #[trigger] s.contains(l) <==> f.holds_block(l, b)
            &&& forall|k: int| 0 <= k < s.len() ==> (#[trigger] s[k]).0 < loops.len()
            &&& forall|i: int, j: int|
                0 <= i < j < s.len() ==> loops[(#[trigger] s[i]).0 as int].blocks@.subset_of(
                    loops[(#[trigger] s[j]).0 as int].blocks@,
                ) && loops[s[i].0 as int].blocks@ != loops[s[j].0 as int].blocks@
        }),
{
    let n = loops.len();
    let s = f.loops_around(b);
    parents_hold(f, loops, idom, block_count);
    if b.0 < block_count {
        owner_is_innermost(loops, f.parent@, b, n);
        assert((f.innermost_by_block@[b.0 as int], f.ambiguous_blocks@[b.0 as int]) == block_owner(
            loops,
            f.parent@,
            BlockRef(b.0 as int as usize),
            n,
        ));
    }
    if let Some(inner) = f.innermost(b) {
        let parent = f.parent@;
        chain_goes_up(f, loops, inner, n);
        chain_grows(f, loops, inner, n);
        chain_grows(f, loops, inner, n + 1);
        chain_has_room(f, Some(inner), n);
        chain_goes_up(f, loops, inner, n + 1);
        let m = s.len();
        assert(up(parent, inner.0, m) is None);
        assert forall|k: int| 0 <= k < m - 1 implies f.parent_loop(#[trigger] s[k]) == Some(s[k + 1]) by {
            assert(up(parent, inner.0, k as nat) == Some(s[k].0));
            assert(up(parent, inner.0, (k + 1) as nat) == Some(s[k + 1].0));
        }
        assert(up(parent, inner.0, (m - 1) as nat) == Some(s[m - 1].0));
        let top = choose|top: nat| #[trigger] forest_wf(parent, loop_members(n), loop_ranks(loops, top));
        assert forall|l: NaturalLoopId| #[trigger] s.contains(l) <==> f.holds_block(l, b) by {
            interval_is_ancestry(parent, loop_members(n), loop_ranks(loops, top), f.preorder_index@, f.subtree_end@, l.0, inner.0);
            if s.contains(l) {
                let k = s.index_of(l);
                assert(up(parent, inner.0, k as nat) == Some(l.0));
            }
            if is_ancestor(parent, l.0, inner.0) {
                let k = choose|k: nat| #[trigger] up(parent, inner.0, k) == Some(l.0);
                if k >= m {
                    up_compose(parent, inner.0, m, (k - m) as nat);
                    assert(m + (k - m) as nat == k);
                }
                assert(s[k as int] == l);
            }
        }
        assert forall|i: int, j: int| 0 <= i < j < s.len() implies loops[(#[trigger] s[i]).0 as int].blocks@.subset_of(
            loops[(#[trigger] s[j]).0 as int].blocks@,
        ) && loops[s[i].0 as int].blocks@ != loops[s[j].0 as int].blocks@ by {
            up_compose(parent, inner.0, i as nat, (j - i) as nat);
            assert(i as nat + (j - i) as nat == j as nat);
            assert(up(parent, inner.0, i as nat) == Some(s[i].0) && up(parent, inner.0, j as nat) == Some(s[j].0));
            ancestor_is_larger(loops, parent, s[i].0, (j - i) as nat);
            assert forall|x: BlockRef| loops[s[i].0 as int].blocks@.contains(x) implies loops[s[j].0 as int].blocks@.contains(x) by {
                ancestor_holds(loops, parent, s[i].0, (j - i) as nat, x);
            }
        }
    }
}

/// No block belongs to two loops alone.
pub proof fn direct_blocks_are_disjoint(
    f: &NaturalLoopForest,
    loops: Seq<NaturalLoop>,
    idom: Seq<Option<usize>>,
    block_count: nat,
    l: NaturalLoopId,
    m: NaturalLoopId,
)
    requires
        f.describes(loops, idom, block_count),
        loops.len() <= usize::MAX,
        block_count <= usize::MAX,
        l.0 < loops.len(),
        m.0 < loops.len(),
        l != m,
    ensures
        f.own_blocks(l).to_set().disjoint(f.own_blocks(m).to_set()),
{
    assert forall|b: BlockRef| !(f.own_blocks(l).contains(b) && f.own_blocks(m).contains(b)) by {
        own_blocks_lie_in_no_child(f, loops, idom, block_count, l, b);
        own_blocks_lie_in_no_child(f, loops, idom, block_count, m, b);
    }
}

} // verus!
