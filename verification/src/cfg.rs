//! The control-flow graph of a prototype and the queries over it.

use vstd::prelude::*;

use crate::ids::{BlockRef, EdgeRef, InstrRef};
use crate::idset::{ascending, IdSet};
use crate::lir::LowInstr;
use crate::search::{first_where, first_where_least, first_where_stable};
use crate::walk::{reaches, Step};

verus! {

#[derive(Debug, Clone, Copy, PartialEq, Eq, Hash, Structural)]
pub enum BlockKind {
    Normal,
    SyntheticExit,
}

impl Default for BlockKind {
    fn default() -> (r: Self)
        ensures
            r == BlockKind::Normal,
    {
        BlockKind::Normal
    }
}

/// A run of instructions.
#[derive(Debug, Clone, Copy, PartialEq, Eq, Hash, Structural)]
pub struct InstrRange {
    pub start: InstrRef,
    pub len: usize,
}

impl InstrRange {
    /// One past the last instruction.
    pub open spec fn end_at(self) -> int {
        self.start.0 + self.len
    }

    /// The last instruction of a nonempty run.
    pub open spec fn last_at(self) -> Option<InstrRef> {
        if self.len == 0 {
            None
        } else {
            Some(InstrRef((self.start.0 + self.len - 1) as usize))
        }
    }

    pub fn new(start: InstrRef, len: usize) -> (r: Self)
        ensures
            r.start == start,
            r.len == len,
    {
        InstrRange { start, len }
    }

    pub fn end(self) -> (r: usize)
        requires
            self.end_at() <= usize::MAX,
        ensures
            r == self.end_at(),
    {
        self.start.0 + self.len
    }

    pub fn is_empty(self) -> (r: bool)
        ensures
            r == (self.len == 0),
    {
        self.len == 0
    }

    pub fn last(self) -> (r: Option<InstrRef>)
        requires
            self.end_at() <= usize::MAX,
        ensures
            r == self.last_at(),
    {
        if self.len == 0 {
            None
        } else {
            Some(InstrRef(self.start.0 + self.len - 1))
        }
    }
}

impl Default for InstrRange {
    fn default() -> (r: Self)
        ensures
            r.start == InstrRef(0),
            r.len == 0,
    {
        InstrRange::new(InstrRef(0), 0)
    }
}

#[derive(Debug, Clone, Copy, PartialEq, Eq, Hash, Structural)]
pub struct BasicBlock {
    pub kind: BlockKind,
    pub instrs: InstrRange,
}

impl Default for BasicBlock {
    fn default() -> (r: Self)
        ensures
            r.kind == BlockKind::Normal,
            r.instrs == (InstrRange { start: InstrRef(0), len: 0 }),
    {
        BasicBlock { kind: BlockKind::Normal, instrs: InstrRange::new(InstrRef(0), 0) }
    }
}

#[derive(Debug, Clone, Copy, PartialEq, Eq, PartialOrd, Ord, Hash, Structural)]
pub enum EdgeKind {
    Fallthrough,
    Jump,
    BranchTrue,
    BranchFalse,
    LoopBody,
    LoopExit,
    Return,
    TailCall,
}

#[derive(Debug, Clone, Copy, PartialEq, Eq, Hash, Structural)]
pub struct CfgEdge {
    pub from: BlockRef,
    pub to: BlockRef,
    pub kind: EdgeKind,
}

/// Blocks and edges with their adjacency lists, in both directions.
#[derive(Debug)]
pub struct Cfg {
    pub blocks: Vec<BasicBlock>,
    pub edges: Vec<CfgEdge>,
    pub entry_block: BlockRef,
    pub exit_block: BlockRef,
    pub block_order: Vec<BlockRef>,
    pub instr_to_block: Vec<BlockRef>,
    pub preds: Vec<Vec<EdgeRef>>,
    pub succs: Vec<Vec<EdgeRef>>,
    pub reachable_blocks: IdSet<BlockRef>,
}

impl Default for Cfg {
    /// A graph without anything in it.
    fn default() -> (r: Self)
        ensures
            r.blocks@.len() == 0,
            r.edges@.len() == 0,
            r.entry_block == BlockRef(0),
            r.exit_block == BlockRef(0),
            r.block_order@.len() == 0,
            r.instr_to_block@.len() == 0,
            r.preds@.len() == 0,
            r.succs@.len() == 0,
            r.reachable_blocks@ == Set::<BlockRef>::empty(),
    {
        Cfg {
            blocks: Vec::new(),
            edges: Vec::new(),
            entry_block: BlockRef(0),
            exit_block: BlockRef(0),
            block_order: Vec::new(),
            instr_to_block: Vec::new(),
            preds: Vec::new(),
            succs: Vec::new(),
            reachable_blocks: IdSet::new(),
        }
    }
}

/// A graph together with the graphs of the nested prototypes.
#[derive(Debug)]
pub struct CfgGraph {
    pub cfg: Cfg,
    pub children: Vec<CfgGraph>,
}

/// The member of a set that has only one.
pub open spec fn sole_member(s: Set<BlockRef>) -> Option<BlockRef> {
    if exists|b: BlockRef| s == #[trigger] Set::<BlockRef>::empty().insert(b) {
        Some(choose|b: BlockRef| s == #[trigger] Set::<BlockRef>::empty().insert(b))
    } else {
        None
    }
}

proof fn two_members(s: Set<BlockRef>, a: BlockRef, b: BlockRef)
    requires
        s.contains(a),
        s.contains(b),
        a != b,
    ensures
        sole_member(s) is None,
        forall|x: BlockRef| s != #[trigger] Set::<BlockRef>::empty().insert(x),
{
    assert forall|x: BlockRef| s != #[trigger] Set::<BlockRef>::empty().insert(x) by {
        assert(!(Set::<BlockRef>::empty().insert(x).contains(a) && Set::<BlockRef>::empty().insert(x).contains(b)));
    }
}

/// A set whose members are those of an option.
proof fn known_members(s: Set<BlockRef>, found: Option<BlockRef>)
    requires
        forall|x: BlockRef| #[trigger] s.contains(x) <==> found == Some(x),
    ensures
        sole_member(s) == found,
        match found {
            Some(x) => s == Set::<BlockRef>::empty().insert(x),
            None => forall|x: BlockRef| s != #[trigger] Set::<BlockRef>::empty().insert(x),
        },
{
    match found {
        Some(x) => {
            assert(s =~= Set::<BlockRef>::empty().insert(x));
            let y = sole_member(s)->0;
            assert(s == Set::<BlockRef>::empty().insert(y));
            assert(s.contains(y));
        },
        None => {
            assert forall|x: BlockRef| s != #[trigger] Set::<BlockRef>::empty().insert(x) by {
                assert(Set::<BlockRef>::empty().insert(x).contains(x));
            }
        },
    }
}

impl Cfg {
    pub open spec fn has_block(&self, b: BlockRef) -> bool {
        b.0 < self.blocks@.len()
    }

    pub open spec fn has_edge(&self, e: EdgeRef) -> bool {
        e.0 < self.edges@.len()
    }

    pub open spec fn edge(&self, e: EdgeRef) -> CfgEdge {
        self.edges@[e.0 as int]
    }

    pub open spec fn range(&self, b: BlockRef) -> InstrRange {
        self.blocks@[b.0 as int].instrs
    }

    pub open spec fn out_edges(&self, b: BlockRef) -> Seq<EdgeRef> {
        self.succs@[b.0 as int]@
    }

    pub open spec fn in_edges(&self, b: BlockRef) -> Seq<EdgeRef> {
        self.preds@[b.0 as int]@
    }

    /// Some edge leads from `a` to `b`.
    pub open spec fn links(&self, a: BlockRef, b: BlockRef) -> bool {
        exists|e: EdgeRef| #[trigger] self.has_edge(e) && self.edge(e).from == a && self.edge(e).to == b
    }

    pub open spec fn step(&self) -> Step {
        |a: BlockRef, b: BlockRef| self.links(a, b)
    }

    /// The block has a list of outgoing edges, and all of them exist.
    pub open spec fn lists_out(&self, b: BlockRef) -> bool {
        b.0 < self.succs@.len() && forall|k: int|
            0 <= k < self.out_edges(b).len() ==> self.has_edge(#[trigger] self.out_edges(b)[k])
    }

    /// The block has a list of incoming edges, and all of them exist.
    pub open spec fn lists_in(&self, b: BlockRef) -> bool {
        b.0 < self.preds@.len() && forall|k: int|
            0 <= k < self.in_edges(b).len() ==> self.has_edge(#[trigger] self.in_edges(b)[k])
    }

    /// One of the outgoing edges of `a` leads to `b`.
    pub open spec fn leads_to(&self, a: BlockRef, b: BlockRef) -> bool {
        exists|k: int| 0 <= k < self.out_edges(a).len() && self.edge(#[trigger] self.out_edges(a)[k]).to == b
    }

    /// One of the incoming edges of `b` comes from `a`.
    pub open spec fn led_from(&self, b: BlockRef, a: BlockRef) -> bool {
        exists|k: int| 0 <= k < self.in_edges(b).len() && self.edge(#[trigger] self.in_edges(b)[k]).from == a
    }

    /// In a consistent graph the lists hold the edges that there are.
    pub proof fn lists_hold_links(&self, block: BlockRef)
        requires
            self.adjacency_wf(),
            self.has_block(block),
        ensures
            self.lists_out(block),
            self.lists_in(block),
            forall|b: BlockRef| #[trigger] self.leads_to(block, b) <==> self.links(block, b),
            forall|b: BlockRef| #[trigger] self.led_from(block, b) <==> self.links(b, block),
    {
        assert forall|b: BlockRef| #[trigger] self.leads_to(block, b) <==> self.links(block, b) by {
            if self.leads_to(block, b) {
                let k = choose|k: int|
                    0 <= k < self.out_edges(block).len() && self.edge(#[trigger] self.out_edges(block)[k]).to == b;
                assert(self.has_edge(self.out_edges(block)[k]));
            }
            if self.links(block, b) {
                let e = choose|e: EdgeRef| #[trigger]
                    self.has_edge(e) && self.edge(e).from == block && self.edge(e).to == b;
                let k = self.out_edges(block).index_of(e);
                assert(self.out_edges(block)[k] == e);
            }
        }
        assert forall|b: BlockRef| #[trigger] self.led_from(block, b) <==> self.links(b, block) by {
            if self.led_from(block, b) {
                let k = choose|k: int|
                    0 <= k < self.in_edges(block).len() && self.edge(#[trigger] self.in_edges(block)[k]).from == b;
                assert(self.has_edge(self.in_edges(block)[k]));
            }
            if self.links(b, block) {
                let e = choose|e: EdgeRef| #[trigger]
                    self.has_edge(e) && self.edge(e).from == b && self.edge(e).to == block;
                let k = self.in_edges(block).index_of(e);
                assert(self.in_edges(block)[k] == e);
            }
        }
    }

    /// Every edge joins two blocks, and the adjacency lists hold each edge at its two ends
    /// and nowhere else.
    pub open spec fn adjacency_wf(&self) -> bool {
        &&& self.succs@.len() == self.blocks@.len()
        &&& self.preds@.len() == self.blocks@.len()
        &&& forall|e: EdgeRef| #[trigger]
            self.has_edge(e) ==> {
                &&& self.has_block(self.edge(e).from)
                &&& self.has_block(self.edge(e).to)
                &&& self.out_edges(self.edge(e).from).contains(e)
                &&& self.in_edges(self.edge(e).to).contains(e)
            }
        &&& forall|b: BlockRef, k: int| #![trigger self.out_edges(b)[k]]
            self.has_block(b) && 0 <= k < self.out_edges(b).len() ==> self.has_edge(self.out_edges(b)[k])
                && self.edge(self.out_edges(b)[k]).from == b
        &&& forall|b: BlockRef, k: int| #![trigger self.in_edges(b)[k]]
            self.has_block(b) && 0 <= k < self.in_edges(b).len() ==> self.has_edge(self.in_edges(b)[k])
                && self.edge(self.in_edges(b)[k]).to == b
        &&& forall|b: BlockRef| #[trigger] self.has_block(b) ==> self.out_edges(b).no_duplicates()
        &&& forall|b: BlockRef| #[trigger] self.has_block(b) ==> self.in_edges(b).no_duplicates()
    }

    /// The blocks partition the instructions: each instruction lies in the range of exactly
    /// the block that `instr_to_block` names, and the order lists every block but the exit.
    pub open spec fn layout_wf(&self) -> bool {
        &&& forall|b: BlockRef| #[trigger]
            self.has_block(b) && b != self.exit_block ==> self.range(b).end_at() <= self.instr_to_block@.len()
        &&& forall|i: int| 0 <= i < self.instr_to_block@.len() ==> {
            let b = #[trigger] self.instr_to_block@[i];
            &&& self.has_block(b)
            &&& b != self.exit_block
            &&& self.range(b).start.0 <= i < self.range(b).end_at()
        }
        &&& forall|b: BlockRef, i: int| #![trigger self.has_block(b), self.instr_to_block@[i]]
            self.has_block(b) && b != self.exit_block && self.range(b).start.0 <= i < self.range(b).end_at()
                ==> self.instr_to_block@[i] == b
        &&& forall|k: int| 0 <= k < self.block_order@.len() ==> self.has_block(#[trigger] self.block_order@[k])
            && self.block_order@[k] != self.exit_block
        &&& self.block_order@.no_duplicates()
        &&& forall|b: BlockRef| #[trigger] self.has_block(b) && b != self.exit_block ==> self.block_order@.contains(b)
    }

    /// The graph is consistent: what [`validate_cfg`] accepts.
    pub open spec fn wf(&self) -> bool {
        &&& self.has_block(self.entry_block)
        &&& self.has_block(self.exit_block)
        &&& self.entry_block != self.exit_block
        &&& self.blocks@[self.exit_block.0 as int].kind == BlockKind::SyntheticExit
        &&& self.adjacency_wf()
        &&& self.layout_wf()
        &&& self.reachability_wf()
    }

    /// `reachable_blocks` holds exactly the blocks that the entry reaches.
    pub open spec fn reachability_wf(&self) -> bool {
        forall|b: BlockRef| #[trigger]
            self.reachable_blocks@.contains(b) <==> reaches(self.step(), self.entry_block, b)
    }

    pub open spec fn is_reachable(&self, b: BlockRef) -> bool {
        self.reachable_blocks@.contains(b)
    }

    /// The instruction that ends a block.
    pub open spec fn terminator_of(&self, instrs: Seq<LowInstr>, b: BlockRef) -> Option<LowInstr> {
        if self.has_block(b) && self.range(b).len > 0 && self.range(b).end_at() <= instrs.len() {
            Some(instrs[self.range(b).end_at() - 1])
        } else {
            None
        }
    }

    pub fn terminator<'a>(&self, instrs: &'a [LowInstr], block: BlockRef) -> (r: Option<&'a LowInstr>)
        requires
            self.has_block(block) ==> self.range(block).end_at() <= usize::MAX,
        ensures
            match r {
                Some(i) => self.terminator_of(instrs@, block) == Some(*i),
                None => self.terminator_of(instrs@, block) is None,
            },
    {
        if block.0 >= self.blocks.len() {
            return None;
        }
        match self.blocks[block.0].instrs.last() {
            None => None,
            Some(last) => if last.0 < instrs.len() {
                Some(&instrs[last.0])
            } else {
                None
            },
        }
    }

    /// Position `k` of the outgoing edges of `b` has kind `kind`.
    pub open spec fn out_kind(&self, b: BlockRef, kind: EdgeKind) -> spec_fn(int) -> bool {
        |k: int| self.edge(self.out_edges(b)[k]).kind == kind
    }

    /// The true and the false edge of a two-way branch.
    pub open spec fn branch_edges_of(&self, b: BlockRef) -> Option<(EdgeRef, EdgeRef)> {
        let n = self.out_edges(b).len();
        match (
            first_where(n, self.out_kind(b, EdgeKind::BranchTrue)),
            first_where(n, self.out_kind(b, EdgeKind::BranchFalse)),
        ) {
            (Some(t), Some(f)) => if n == 2 {
                Some((self.out_edges(b)[t], self.out_edges(b)[f]))
            } else {
                None
            },
            _ => None,
        }
    }

    /// A branch has a true and a false way, told apart by the kinds of the two edges that
    /// leave the block, whatever their order.
    pub proof fn branch_edges_by_kind(&self, b: BlockRef, t: EdgeRef, f: EdgeRef)
        requires
            self.adjacency_wf(),
            self.has_block(b),
        ensures
            self.branch_edges_of(b) == Some((t, f)) <==> {
                &&& self.out_edges(b).len() == 2
                &&& self.has_edge(t) && self.edge(t).from == b && self.edge(t).kind == EdgeKind::BranchTrue
                &&& self.has_edge(f) && self.edge(f).from == b && self.edge(f).kind == EdgeKind::BranchFalse
            },
    {
        let n = self.out_edges(b).len();
        let out = self.out_edges(b);
        let pt = self.out_kind(b, EdgeKind::BranchTrue);
        let pf = self.out_kind(b, EdgeKind::BranchFalse);
        first_where_least(n, pt);
        first_where_least(n, pf);
        if n == 2 && self.has_edge(t) && self.edge(t).from == b && self.edge(t).kind == EdgeKind::BranchTrue && self.has_edge(f)
            && self.edge(f).from == b && self.edge(f).kind == EdgeKind::BranchFalse {
            let i = out.index_of(t);
            let j = out.index_of(f);
            assert(out.contains(t) && out.contains(f));
            assert(out[i] == t && out[j] == f);
            assert(pt(i) && pf(j));
            assert(!pt(j) && !pf(i));
            assert(i != j);
        }
    }

    fn first_edge_of_kind(&self, block: BlockRef, kind: EdgeKind) -> (r: Option<EdgeRef>)
        requires
            self.lists_out(block),
        ensures
            match first_where(self.out_edges(block).len(), self.out_kind(block, kind)) {
                Some(k) => 0 <= k < self.out_edges(block).len() && r == Some(self.out_edges(block)[k]),
                None => r is None,
            },
    {
        let n = self.succs[block.0].len();
        let mut i: usize = 0;
        while i < n
            invariant
                self.lists_out(block),
                n == self.out_edges(block).len(),
                i <= n,
                first_where(i as nat, self.out_kind(block, kind)) is None,
            ensures
                i == n,
            decreases n - i,
        {
            let e = self.succs[block.0][i];
            assert(e == self.out_edges(block)[i as int]);
            if self.edges[e.0].kind == kind {
                proof {
                    assert(first_where((i + 1) as nat, self.out_kind(block, kind)) == Some(i as int));
                    first_where_stable((i + 1) as nat, n as nat, self.out_kind(block, kind));
                }
                return Some(e);
            }
            i = i + 1;
        }
        None
    }

    /// The true and the false edge of a two-way branch; only of a block with two outgoing
    /// edges are these looked at.
    pub fn branch_edges(&self, block: BlockRef) -> (r: Option<(EdgeRef, EdgeRef)>)
        requires
            block.0 < self.succs@.len(),
            self.out_edges(block).len() == 2 ==> self.lists_out(block),
        ensures
            r == self.branch_edges_of(block),
            match r {
                Some((t, f)) => {
                    &&& self.has_edge(t)
                    &&& self.has_edge(f)
                    &&& self.out_edges(block).contains(t)
                    &&& self.out_edges(block).contains(f)
                    &&& self.edge(t).kind == EdgeKind::BranchTrue
                    &&& self.edge(f).kind == EdgeKind::BranchFalse
                    &&& self.adjacency_wf() && self.has_block(block) ==> self.edge(t).from == block && self.edge(f).from == block
                },
                None => true,
            },
    {
        proof {
            first_where_least(
                self.out_edges(block).len(),
                self.out_kind(block, EdgeKind::BranchTrue),
            );
            first_where_least(
                self.out_edges(block).len(),
                self.out_kind(block, EdgeKind::BranchFalse),
            );
        }
        if self.succs[block.0].len() != 2 {
            return None;
        }
        let then_edge = self.first_edge_of_kind(block, EdgeKind::BranchTrue);
        let else_edge = self.first_edge_of_kind(block, EdgeKind::BranchFalse);
        match (then_edge, else_edge) {
            (Some(t), Some(f)) => Some((t, f)),
            _ => None,
        }
    }

    /// Every block that an outgoing edge of `block` leads to, among the reachable ones.
    pub open spec fn successors_of(&self, block: BlockRef) -> Set<BlockRef> {
        Set::new(|b: BlockRef| self.is_reachable(b) && self.leads_to(block, b))
    }

    /// Every block that an incoming edge of `block` comes from, among the reachable ones.
    pub open spec fn predecessors_of(&self, block: BlockRef) -> Set<BlockRef> {
        Set::new(|b: BlockRef| self.is_reachable(b) && self.led_from(block, b))
    }

    /// Every reachable block from which some edge leads to `block`: in a consistent graph
    /// the predecessors.
    pub open spec fn linked_to(&self, block: BlockRef) -> Set<BlockRef> {
        Set::new(|b: BlockRef| self.is_reachable(b) && self.links(b, block))
    }

    /// The only reachable block to which an edge leads from `b`, over one edge or several.
    pub open spec fn unique_successor(&self, b: BlockRef) -> Option<BlockRef> {
        sole_member(self.successors_of(b))
    }

    /// The reachable successor of a block that has only one.
    pub fn unique_reachable_successor(&self, block: BlockRef) -> (r: Option<BlockRef>)
        requires
            self.lists_out(block),
        ensures
            r == self.unique_successor(block),
            match r {
                Some(s) => self.successors_of(block) == Set::<BlockRef>::empty().insert(s),
                None => forall|s: BlockRef| self.successors_of(block) != #[trigger] Set::<BlockRef>::empty().insert(s),
            },
            self.adjacency_wf() && self.has_block(block) && r is Some ==> self.has_block(r->0) && self.is_reachable(r->0)
                && self.links(block, r->0),
    {
        let n = self.succs[block.0].len();
        let ghost all = self.successors_of(block);
        let mut i: usize = 0;
        let mut found: Option<BlockRef> = None;
        while i < n
            invariant
                self.lists_out(block),
                all == self.successors_of(block),
                n == self.out_edges(block).len(),
                i <= n,
                match found {
                    None => forall|k: int| 0 <= k < i ==> !self.is_reachable(self.edge(#[trigger] self.out_edges(block)[k]).to),
                    Some(b) => {
                        &&& forall|k: int|
                            0 <= k < i && self.is_reachable(self.edge(#[trigger] self.out_edges(block)[k]).to)
                                ==> self.edge(self.out_edges(block)[k]).to == b
                        &&& all.contains(b)
                    },
                },
            decreases n - i,
        {
            let e = self.succs[block.0][i];
            assert(e == self.out_edges(block)[i as int]);
            let to = self.edges[e.0].to;
            if self.reachable_blocks.contains(to) {
                proof {
                    assert(self.edge(self.out_edges(block)[i as int]).to == to);
                    assert(all.contains(to));
                }
                match found {
                    Some(b) => {
                        if b != to {
                            proof {
                                two_members(all, b, to);
                            }
                            return None;
                        }
                    },
                    None => {
                        found = Some(to);
                    },
                }
            }
            i = i + 1;
        }
        proof {
            assert forall|x: BlockRef| #[trigger] all.contains(x) implies found == Some(x) by {
                let k = choose|k: int|
                    0 <= k < self.out_edges(block).len() && self.edge(#[trigger] self.out_edges(block)[k]).to == x;
                assert(self.edge(self.out_edges(block)[k]).to == x);
            }
            known_members(all, found);
            if self.adjacency_wf() && self.has_block(block) {
                self.lists_hold_links(block);
                if let Some(x) = found {
                    assert(self.leads_to(block, x));
                }
            }
        }
        found
    }

    /// The only reachable block of `from` from which an edge leads to `b`, over one edge or several.
    pub open spec fn unique_predecessor(&self, b: BlockRef, from: Set<BlockRef>) -> Option<BlockRef> {
        sole_member(self.predecessors_of(b).intersect(from))
    }

    /// The only reachable predecessor of `block` among the members of `set`, or, with
    /// `outside`, among the blocks that are not members.
    pub fn unique_reachable_predecessor(
        &self,
        block: BlockRef,
        set: &IdSet<BlockRef>,
        outside: bool,
    ) -> (r: Option<BlockRef>)
        requires
            self.lists_in(block),
        ensures
            r == self.unique_predecessor(
                block,
                if outside {
                    Set::new(|b: BlockRef| !set@.contains(b))
                } else {
                    set@
                },
            ),
            self.adjacency_wf() && self.has_block(block) && r is Some ==> self.has_block(r->0),
    {
        let ghost from = if outside {
            Set::new(|b: BlockRef| !set@.contains(b))
        } else {
            set@
        };
        let ghost all = self.predecessors_of(block).intersect(from);
        let n = self.preds[block.0].len();
        let mut i: usize = 0;
        let mut found: Option<BlockRef> = None;
        while i < n
            invariant
                self.lists_in(block),
                from == (if outside {
                    Set::new(|b: BlockRef| !set@.contains(b))
                } else {
                    set@
                }),
                all == self.predecessors_of(block).intersect(from),
                n == self.in_edges(block).len(),
                i <= n,
                match found {
                    None => forall|k: int| 0 <= k < i ==> !all.contains(self.edge(#[trigger] self.in_edges(block)[k]).from),
                    Some(b) => {
                        &&& forall|k: int|
                            0 <= k < i && all.contains(self.edge(#[trigger] self.in_edges(block)[k]).from)
                                ==> self.edge(self.in_edges(block)[k]).from == b
                        &&& all.contains(b)
                    },
                },
            decreases n - i,
        {
            let e = self.preds[block.0][i];
            assert(e == self.in_edges(block)[i as int]);
            assert(self.has_edge(e));
            let b = self.edges[e.0].from;
            let takes = self.reachable_blocks.contains(b) && (set.contains(b) != outside);
            assert(self.edge(self.in_edges(block)[i as int]).from == b);
            assert(self.led_from(block, b));
            assert(all.contains(b) == takes);
            if takes {
                match found {
                    Some(x) => {
                        if x != b {
                            proof {
                                two_members(all, x, b);
                            }
                            return None;
                        }
                    },
                    None => {
                        found = Some(b);
                    },
                }
            }
            i = i + 1;
        }
        proof {
            assert forall|x: BlockRef| #[trigger] all.contains(x) implies found == Some(x) by {
                let k = choose|k: int|
                    0 <= k < self.in_edges(block).len() && self.edge(#[trigger] self.in_edges(block)[k]).from == x;
                assert(self.edge(self.in_edges(block)[k]).from == x);
            }
            known_members(all, found);
            if self.adjacency_wf() && self.has_block(block) {
                self.lists_hold_links(block);
                if let Some(x) = found {
                    assert(self.led_from(block, x));
                }
            }
        }
        found
    }

    pub fn reachable_successors(&self, block: BlockRef) -> (r: Vec<BlockRef>)
        requires
            self.lists_out(block),
        ensures
            ascending(r@),
            r@.to_set() == self.successors_of(block),
    {
        let n = self.succs[block.0].len();
        let mut i: usize = 0;
        let mut found: IdSet<BlockRef> = IdSet::new();
        while i < n
            invariant
                self.lists_out(block),
                n == self.out_edges(block).len(),
                i <= n,
                forall|b: BlockRef| #[trigger] found@.contains(b) ==> self.is_reachable(b) && self.leads_to(block, b),
                forall|k: int| 0 <= k < i && self.is_reachable(self.edge(#[trigger] self.out_edges(block)[k]).to)
                    ==> found@.contains(self.edge(self.out_edges(block)[k]).to),
            decreases n - i,
        {
            let e = self.succs[block.0][i];
            assert(e == self.out_edges(block)[i as int]);
            let to = self.edges[e.0].to;
            if self.reachable_blocks.contains(to) {
                assert(self.edge(self.out_edges(block)[i as int]).to == to);
                found.insert(to);
            }
            i = i + 1;
        }
        proof {
            assert forall|b: BlockRef| self.is_reachable(b) && self.leads_to(block, b) implies found@.contains(b) by {
                let k = choose|k: int|
                    0 <= k < self.out_edges(block).len() && self.edge(#[trigger] self.out_edges(block)[k]).to == b;
                assert(self.edge(self.out_edges(block)[k]).to == b);
            }
            assert(found@ =~= self.successors_of(block));
        }
        found.to_vec()
    }

    pub fn reachable_predecessors(&self, block: BlockRef) -> (r: Vec<BlockRef>)
        requires
            self.lists_in(block),
        ensures
            ascending(r@),
            r@.to_set() == self.predecessors_of(block),
            self.adjacency_wf() && self.has_block(block) ==> r@.to_set() == self.linked_to(block) && forall|k: int|
                0 <= k < r@.len() ==> self.has_block(#[trigger] r@[k]),
    {
        let n = self.preds[block.0].len();
        let mut i: usize = 0;
        let mut found: IdSet<BlockRef> = IdSet::new();
        while i < n
            invariant
                self.lists_in(block),
                n == self.in_edges(block).len(),
                i <= n,
                forall|b: BlockRef| #[trigger] found@.contains(b) ==> self.is_reachable(b) && self.led_from(block, b),
                forall|k: int| 0 <= k < i && self.is_reachable(self.edge(#[trigger] self.in_edges(block)[k]).from)
                    ==> found@.contains(self.edge(self.in_edges(block)[k]).from),
            decreases n - i,
        {
            let e = self.preds[block.0][i];
            assert(e == self.in_edges(block)[i as int]);
            let from = self.edges[e.0].from;
            if self.reachable_blocks.contains(from) {
                assert(self.edge(self.in_edges(block)[i as int]).from == from);
                found.insert(from);
            }
            i = i + 1;
        }
        proof {
            assert forall|b: BlockRef| self.is_reachable(b) && self.led_from(block, b) implies found@.contains(b) by {
                let k = choose|k: int|
                    0 <= k < self.in_edges(block).len() && self.edge(#[trigger] self.in_edges(block)[k]).from == b;
                assert(self.edge(self.in_edges(block)[k]).from == b);
            }
            assert(found@ =~= self.predecessors_of(block));
        }
        let r = found.to_vec();
        proof {
            if self.adjacency_wf() && self.has_block(block) {
                self.lists_hold_links(block);
                assert(self.predecessors_of(block) =~= self.linked_to(block));
                assert forall|k: int| 0 <= k < r@.len() implies self.has_block(#[trigger] r@[k]) by {
                    assert(r@.to_set().contains(r@[k]));
                    assert(self.led_from(block, r@[k]));
                }
            }
        }
        r
    }
}

} // verus!
