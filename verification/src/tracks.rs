//! One variable over the instructions of a prototype: where it lives, where its definitions
//! meet, and which of them arrives at a place.

use vstd::prelude::*;

use crate::cfg::Cfg;
use crate::dense::{adjacent, close, closes_to, flagged};
use crate::flood::reachable_in_range;
use crate::graph::GraphFacts;
use crate::ids::{BlockRef, EdgeRef};
use crate::tree::{members, Tree};
use crate::walk::{
    reaches, reaches_first_step, reaches_monotone, reaches_reversed, reaches_self, reaches_then_step, reaches_transitive,
};

verus! {

/// Where a variable is read, and the definition that an instruction makes of it.
pub struct Track {
    pub reads: Vec<bool>,
    pub writes: Vec<Option<usize>>,
}

/// Some instruction from `start` on and before `end` defines the variable.
pub open spec fn written_in(writes: Seq<Option<usize>>, start: int, end: int) -> bool {
    exists|j: int| start <= j < end && (#[trigger] writes[j]) is Some
}

/// A variable over the instructions of a prototype.
pub struct TrackModel {
    pub reads: Seq<bool>,
    pub writes: Seq<Option<usize>>,
}

impl View for Track {
    type V = TrackModel;

    open spec fn view(&self) -> TrackModel {
        TrackModel { reads: self.reads@, writes: self.writes@ }
    }
}

impl TrackModel {
    /// The instructions are those of the graph.
    pub open spec fn fits(&self, cfg: &Cfg) -> bool {
        &&& self.reads.len() == cfg.instr_to_block@.len()
        &&& self.writes.len() == cfg.instr_to_block@.len()
    }

    pub open spec fn reads_first(&self, cfg: &Cfg, b: BlockRef, i: int) -> bool {
        cfg.range(b).start.0 <= i < cfg.range(b).end_at() && self.reads[i] && !written_in(
            self.writes,
            cfg.range(b).start.0 as int,
            i,
        )
    }

    /// The block reads what its entry holds.
    pub open spec fn exposed(&self, cfg: &Cfg, b: BlockRef) -> bool {
        exists|i: int| self.reads_first(cfg, b, i)
    }

    /// The block leaves a definition of its own.
    pub open spec fn overwritten(&self, cfg: &Cfg, b: BlockRef) -> bool {
        written_in(self.writes, cfg.range(b).start.0 as int, cfg.range(b).end_at())
    }

    /// What `x` holds at its entry, `y` holds at its entry, one edge later.
    pub open spec fn carried(&self, cfg: &Cfg) -> spec_fn(usize, usize) -> bool {
        |x: usize, y: usize|
            cfg.links(BlockRef(x), BlockRef(y)) && cfg.is_reachable(BlockRef(y)) && !self.overwritten(cfg, BlockRef(x))
    }

    /// The value at the block's entry may still be read.
    pub open spec fn live_in(&self, cfg: &Cfg, b: BlockRef) -> bool {
        cfg.is_reachable(b) && exists|u: usize|
            u < cfg.blocks@.len() && self.exposed(cfg, BlockRef(u)) && #[trigger] reaches(self.carried(cfg), b.0, u)
    }

    /// The value at the block's end may still be read.
    pub open spec fn live_out(&self, cfg: &Cfg, b: BlockRef) -> bool {
        cfg.is_reachable(b) && exists|s: BlockRef| cfg.links(b, s) && #[trigger] self.live_in(cfg, s)
    }

    /// The definition or phi that `x` makes meets another at `y`.
    pub open spec fn joined(&self, cfg: &Cfg, graph: &GraphFacts) -> spec_fn(usize, usize) -> bool {
        |x: usize, y: usize| graph.frontier_has(BlockRef(x), BlockRef(y)) && self.live_in(cfg, BlockRef(y))
    }

    /// Some definition, or the phi of such a block, meets another value at `b`.
    pub open spec fn meets(&self, cfg: &Cfg, graph: &GraphFacts, b: usize) -> bool {
        exists|x: usize, z: usize|
            x < cfg.blocks@.len() && self.overwritten(cfg, BlockRef(x)) && #[trigger] reaches(self.joined(cfg, graph), x, z)
                && self.joined(cfg, graph)(z, b)
    }

    /// Loop `i` leads back to the entry of the function and defines the variable.
    pub open spec fn redefined_by(&self, cfg: &Cfg, graph: &GraphFacts, i: int) -> bool {
        graph.natural_loops@[i].header == cfg.entry_block && exists|c: BlockRef| #[trigger]
            graph.natural_loops@[i].blocks@.contains(c) && cfg.has_block(c) && self.overwritten(cfg, c)
    }

    /// The variable needs a phi at the entry of `b`: its values meet there and are still read.
    /// Where the function's entry is the header of a loop, the initial value meets those of
    /// the loop.
    pub open spec fn needs_phi(&self, cfg: &Cfg, graph: &GraphFacts, b: usize) -> bool {
        self.meets(cfg, graph, b) || (b == cfg.entry_block.0 && self.live_in(cfg, cfg.entry_block) && exists|i: int|
            0 <= i < graph.natural_loops@.len() && #[trigger] self.redefined_by(cfg, graph, i))
    }

    /// What the entry of a block holds: its phi, or what its immediate dominator leaves.
    pub open spec fn arriving(&self, cfg: &Cfg, tree: &Tree, phis: Seq<Option<usize>>, b: usize) -> Origin
        decreases level(tree, b),
    {
        if b >= cfg.blocks@.len() {
            Origin::Entry
        } else if phis[b as int] is Some {
            Origin::Phi(phis[b as int]->0)
        } else {
            match tree.parent@[b as int] {
                Some(d) => if level(tree, d) < level(tree, b) {
                    match last_write(self.writes, cfg.range(BlockRef(d)).start.0 as int, cfg.range(BlockRef(d)).end_at()) {
                        Some(id) => Origin::Def(id),
                        None => self.arriving(cfg, tree, phis, d),
                    }
                } else {
                    Origin::Entry
                },
                None => Origin::Entry,
            }
        }
    }

    /// What the variable holds in block `b` before instruction `i`.
    pub open spec fn held(&self, cfg: &Cfg, tree: &Tree, phis: Seq<Option<usize>>, b: usize, i: int) -> Origin {
        match last_write(self.writes, cfg.range(BlockRef(b)).start.0 as int, i) {
            Some(id) => Origin::Def(id),
            None => self.arriving(cfg, tree, phis, b),
        }
    }

    /// What the variable holds at the end of block `b`.
    pub open spec fn leaving(&self, cfg: &Cfg, tree: &Tree, phis: Seq<Option<usize>>, b: usize) -> Origin {
        self.held(cfg, tree, phis, b, cfg.range(BlockRef(b)).end_at())
    }
}

impl Track {
    /// The blocks that read what their entry holds, and those that leave a definition.
    fn block_masks(&self, cfg: &Cfg) -> (r: (Vec<bool>, Vec<bool>))
        requires
            analysable(cfg),
            self@.fits(cfg),
        ensures
            (r.0)@.len() == cfg.blocks@.len(),
            (r.1)@.len() == cfg.blocks@.len(),
            forall|b: int| 0 <= b < cfg.blocks@.len() ==> #[trigger] (r.0)@[b] == self@.exposed(cfg, BlockRef(b as usize)),
            forall|b: int| 0 <= b < cfg.blocks@.len() ==> #[trigger] (r.1)@[b] == self@.overwritten(cfg, BlockRef(b as usize)),
    {
        let n = cfg.blocks.len();
        let mut exposed: Vec<bool> = Vec::new();
        let mut overwritten: Vec<bool> = Vec::new();
        let mut b: usize = 0;
        while b < n
            invariant
                analysable(cfg),
                self@.fits(cfg),
                n == cfg.blocks@.len(),
                b <= n,
                exposed@.len() == b,
                overwritten@.len() == b,
                forall|k: int| 0 <= k < b ==> #[trigger] exposed@[k] == self@.exposed(cfg, BlockRef(k as usize)),
                forall|k: int| 0 <= k < b ==> #[trigger] overwritten@[k] == self@.overwritten(cfg, BlockRef(k as usize)),
            decreases n - b,
        {
            let range = cfg.blocks[b].instrs;
            let ghost at = BlockRef(b);
            proof {
                range_fits(cfg, at);
            }
            let end = range.end();
            let mut reads = false;
            let mut writes = false;
            let mut i: usize = range.start.0;
            while i < end
                invariant
                    self@.fits(cfg),
                    range == cfg.range(at),
                    end == range.end_at(),
                    end <= cfg.instr_to_block@.len() || range.len == 0,
                    range.start.0 <= i <= end,
                    writes == written_in(self.writes@, range.start.0 as int, i as int),
                    reads == exists|k: int| k < i && self@.reads_first(cfg, at, k),
                decreases end - i,
            {
                let ghost was = reads;
                if self.reads[i] && !writes {
                    assert(self@.reads_first(cfg, at, i as int));
                    reads = true;
                }
                proof {
                    if exists|k: int| k < i + 1 && self@.reads_first(cfg, at, k) {
                        let k = choose|k: int| k < i + 1 && self@.reads_first(cfg, at, k);
                        if k < i {
                            assert(was);
                        }
                    }
                    if was {
                        let k = choose|k: int| k < i && self@.reads_first(cfg, at, k);
                        assert(k < i + 1 && self@.reads_first(cfg, at, k));
                    }
                    if written_in(self.writes@, range.start.0 as int, i + 1) {
                        let j = choose|j: int| range.start.0 <= j < i + 1 && (#[trigger] self.writes@[j]) is Some;
                        assert(j == i || writes);
                    }
                }
                if self.writes[i].is_some() {
                    writes = true;
                }
                i = i + 1;
            }
            assert(reads == self@.exposed(cfg, at)) by {
                if self@.exposed(cfg, at) {
                    let k = choose|k: int| self@.reads_first(cfg, at, k);
                    assert(k < i && self@.reads_first(cfg, at, k));
                }
            }
            exposed.push(reads);
            overwritten.push(writes);
            b = b + 1;
        }
        (exposed, overwritten)
    }

    /// The blocks at whose entry and at whose end the variable is live.
    pub fn solve_liveness(&self, cfg: &Cfg) -> (r: (Vec<bool>, Vec<bool>))
        requires
            analysable(cfg),
            self@.fits(cfg),
        ensures
            (r.0)@.len() == cfg.blocks@.len(),
            (r.1)@.len() == cfg.blocks@.len(),
            forall|b: int| 0 <= b < cfg.blocks@.len() ==> #[trigger] (r.0)@[b] == self@.live_in(cfg, BlockRef(b as usize)),
            forall|b: int| 0 <= b < cfg.blocks@.len() ==> #[trigger] (r.1)@[b] == self@.live_out(cfg, BlockRef(b as usize)),
    {
        let n = cfg.blocks.len();
        let (exposed, overwritten) = self.block_masks(cfg);
        let ghost step = self@.carried(cfg);
        let mut starts: Vec<usize> = Vec::new();
        let mut back: Vec<Vec<usize>> = Vec::new();
        let mut b: usize = 0;
        while b < n
            invariant
                analysable(cfg),
                n == cfg.blocks@.len(),
                step == self@.carried(cfg),
                exposed@.len() == n,
                overwritten@.len() == n,
                forall|k: int| 0 <= k < n ==> #[trigger] exposed@[k] == self@.exposed(cfg, BlockRef(k as usize)),
                forall|k: int| 0 <= k < n ==> #[trigger] overwritten@[k] == self@.overwritten(cfg, BlockRef(k as usize)),
                b <= n,
                back@.len() == b,
                forall|y: int, k: int| 0 <= y < b && 0 <= k < back@[y]@.len() ==> (#[trigger] back@[y]@[k]) < n,
                forall|y: int, x: usize| 0 <= y < b ==> (#[trigger] back@[y]@.contains(x) <==> x < n && step(x, y as usize)),
                forall|k: int| 0 <= k < starts@.len() ==> (#[trigger] starts@[k]) < b && exposed@[starts@[k] as int],
                forall|u: usize| u < b && exposed@[u as int] ==> #[trigger] starts@.contains(u),
            decreases n - b,
        {
            let ghost had = starts@;
            if exposed[b] {
                starts.push(b);
            }
            proof {
                assert forall|u: usize| u < b + 1 && exposed@[u as int] implies #[trigger] starts@.contains(u) by {
                    if u < b {
                        assert(had.contains(u));
                        let k = had.index_of(u);
                        assert(starts@[k] == u);
                    } else {
                        assert(starts@[starts@.len() - 1] == u);
                    }
                }
            }
            let row = carriers(cfg, &overwritten, b);
            proof {
                assert forall|x: usize| #[trigger] row@.contains(x) <==> x < n && step(x, b) by {
                    assert(overwritten@[x as int] == self@.overwritten(cfg, BlockRef(x)) || x >= n);
                }
            }
            back.push(row);
            b = b + 1;
        }
        let seen = close(&back, &starts);
        let mut live_in: Vec<bool> = Vec::new();
        let mut c: usize = 0;
        while c < n
            invariant
                analysable(cfg),
                n == cfg.blocks@.len(),
                step == self@.carried(cfg),
                exposed@.len() == n,
                seen@.len() == n,
                back@.len() == n,
                c <= n,
                live_in@.len() == c,
                forall|k: int| 0 <= k < n ==> #[trigger] exposed@[k] == self@.exposed(cfg, BlockRef(k as usize)),
                forall|y: int, x: usize| 0 <= y < n ==> (#[trigger] back@[y]@.contains(x) <==> x < n && step(x, y as usize)),
                forall|k: int| 0 <= k < starts@.len() ==> (#[trigger] starts@[k]) < n && exposed@[starts@[k] as int],
                forall|u: usize| u < n && exposed@[u as int] ==> #[trigger] starts@.contains(u),
                forall|x: usize| #[trigger] flagged(seen@).contains(x) <==> closes_to(back@, starts@, x),
                forall|k: int| 0 <= k < c ==> #[trigger] live_in@[k] == self@.live_in(cfg, BlockRef(k as usize)),
            decreases n - c,
        {
            let here = seen[c] && cfg.reachable_blocks.contains(BlockRef(c));
            proof {
                self.closure_is_liveness(cfg, exposed@, back@, starts@, c);
                assert(flagged(seen@).contains(c) == seen@[c as int]);
            }
            live_in.push(here);
            c = c + 1;
        }
        let mut live_out: Vec<bool> = Vec::new();
        let mut d: usize = 0;
        while d < n
            invariant
                analysable(cfg),
                n == cfg.blocks@.len(),
                d <= n,
                live_in@.len() == n,
                live_out@.len() == d,
                forall|k: int| 0 <= k < n ==> #[trigger] live_in@[k] == self@.live_in(cfg, BlockRef(k as usize)),
                forall|k: int| 0 <= k < d ==> #[trigger] live_out@[k] == self@.live_out(cfg, BlockRef(k as usize)),
            decreases n - d,
        {
            let here = cfg.reachable_blocks.contains(BlockRef(d)) && self.flows_on(cfg, &live_in, d);
            live_out.push(here);
            d = d + 1;
        }
        (live_in, live_out)
    }

    /// Some successor of `b` finds the variable live.
    fn flows_on(&self, cfg: &Cfg, live_in: &Vec<bool>, b: usize) -> (r: bool)
        requires
            analysable(cfg),
            b < cfg.blocks@.len(),
            live_in@.len() == cfg.blocks@.len(),
            forall|k: int| 0 <= k < live_in@.len() ==> #[trigger] live_in@[k] == self@.live_in(cfg, BlockRef(k as usize)),
        ensures
            r == exists|s: BlockRef| cfg.links(BlockRef(b), s) && #[trigger] self@.live_in(cfg, s),
    {
        let n = cfg.succs[b].len();
        let ghost at = BlockRef(b);
        let mut k: usize = 0;
        while k < n
            invariant
                analysable(cfg),
                cfg.has_block(at),
                at == BlockRef(b),
                n == cfg.out_edges(at).len(),
                live_in@.len() == cfg.blocks@.len(),
                forall|q: int| 0 <= q < live_in@.len() ==> #[trigger] live_in@[q] == self@.live_in(cfg, BlockRef(q as usize)),
                k <= n,
                forall|q: int| 0 <= q < k ==> !self@.live_in(cfg, cfg.edge(#[trigger] cfg.out_edges(at)[q]).to),
            decreases n - k,
        {
            let e = cfg.succs[b][k];
            assert(e == cfg.out_edges(at)[k as int]);
            let s = cfg.edges[e.0].to;
            assert(live_in@[s.0 as int] == self@.live_in(cfg, s));
            if live_in[s.0] {
                assert(cfg.links(at, s));
                return true;
            }
            k = k + 1;
        }
        proof {
            assert forall|s: BlockRef| cfg.links(at, s) implies !#[trigger] self@.live_in(cfg, s) by {
                let e = choose|e: EdgeRef| #[trigger] cfg.has_edge(e) && cfg.edge(e).from == at && cfg.edge(e).to == s;
                assert(cfg.out_edges(at).contains(e));
                let q = cfg.out_edges(at).index_of(e);
                assert(cfg.out_edges(at)[q] == e);
            }
        }
        false
    }

    proof fn closure_is_liveness(&self, cfg: &Cfg, exposed: Seq<bool>, back: Seq<Vec<usize>>, starts: Seq<usize>, b: usize)
        requires
            analysable(cfg),
            b < cfg.blocks@.len(),
            exposed.len() == cfg.blocks@.len(),
            back.len() == cfg.blocks@.len(),
            forall|k: int| 0 <= k < exposed.len() ==> #[trigger] exposed[k] == self@.exposed(cfg, BlockRef(k as usize)),
            forall|y: int, x: usize|
                0 <= y < back.len() ==> (#[trigger] back[y]@.contains(x) <==> x < back.len() && self@.carried(cfg)(x, y as usize)),
            forall|k: int| 0 <= k < starts.len() ==> (#[trigger] starts[k]) < back.len() && exposed[starts[k] as int],
            forall|u: usize| u < back.len() && exposed[u as int] ==> #[trigger] starts.contains(u),
        ensures
            cfg.is_reachable(BlockRef(b)) ==> (closes_to(back, starts, b) == self@.live_in(cfg, BlockRef(b))),
    {
        let step = self@.carried(cfg);
        let adj = adjacent(back);
        assert forall|x: usize, y: usize| #[trigger] step(x, y) implies adj(y, x) by {
            assert(cfg.has_block(BlockRef(x)) && cfg.has_block(BlockRef(y)));
            assert(back[y as int]@.contains(x));
        }
        assert forall|y: usize, x: usize| #[trigger] adj(y, x) implies step(x, y) by {
            assert(back[y as int]@.contains(x));
        }
        if cfg.is_reachable(BlockRef(b)) {
            if closes_to(back, starts, b) {
                let k = choose|k: int| 0 <= k < starts.len() && reaches(adj, #[trigger] starts[k], b);
                reaches_reversed(adj, step, starts[k], b);
                assert(self@.exposed(cfg, BlockRef(starts[k])));
            }
            if self@.live_in(cfg, BlockRef(b)) {
                let u = choose|u: usize|
                    u < cfg.blocks@.len() && self@.exposed(cfg, BlockRef(u)) && #[trigger] reaches(self@.carried(cfg), b, u);
                reaches_reversed(step, adj, b, u);
                assert(exposed[u as int]);
                assert(starts.contains(u));
                let k = starts.index_of(u);
                assert(starts[k] == u);
            }
        }
    }
}

/// The graph is consistent, and its exit holds no instruction.
pub open spec fn analysable(cfg: &Cfg) -> bool {
    cfg.wf() && cfg.range(cfg.exit_block).len == 0
}

pub proof fn range_fits(cfg: &Cfg, b: BlockRef)
    requires
        analysable(cfg),
        cfg.has_block(b),
    ensures
        cfg.range(b).end_at() <= usize::MAX,
        cfg.range(b).len > 0 ==> cfg.range(b).end_at() <= cfg.instr_to_block@.len(),
{
    assert(cfg.instr_to_block.len() <= usize::MAX);
    assert(b != cfg.exit_block ==> cfg.range(b).end_at() <= cfg.instr_to_block@.len());
}

/// The blocks from which the entry of `y` gets what their own entry holds.
fn carriers(cfg: &Cfg, overwritten: &Vec<bool>, y: usize) -> (row: Vec<usize>)
    requires
        analysable(cfg),
        y < cfg.blocks@.len(),
        overwritten@.len() == cfg.blocks@.len(),
    ensures
        forall|x: usize| #[trigger] row@.contains(x) <==> x < cfg.blocks@.len() && cfg.links(BlockRef(x), BlockRef(y))
            && cfg.is_reachable(BlockRef(y)) && !overwritten@[x as int],
        forall|k: int| 0 <= k < row@.len() ==> (#[trigger] row@[k]) < cfg.blocks@.len(),
{
    let mut row: Vec<usize> = Vec::new();
    let ghost at = BlockRef(y);
    if !cfg.reachable_blocks.contains(BlockRef(y)) {
        return row;
    }
    let n = cfg.preds[y].len();
    let mut k: usize = 0;
    while k < n
        invariant
            analysable(cfg),
            cfg.has_block(at),
            at == BlockRef(y),
            n == cfg.in_edges(at).len(),
            overwritten@.len() == cfg.blocks@.len(),
            k <= n,
            forall|q: int| 0 <= q < row@.len() ==> (#[trigger] row@[q]) < cfg.blocks@.len() && cfg.links(BlockRef(row@[q]), at)
                && !overwritten@[row@[q] as int],
            forall|q: int| 0 <= q < k && !overwritten@[cfg.edge(#[trigger] cfg.in_edges(at)[q]).from.0 as int] ==> row@.contains(
                cfg.edge(cfg.in_edges(at)[q]).from.0,
            ),
        decreases n - k,
    {
        let e = cfg.preds[y][k];
        assert(e == cfg.in_edges(at)[k as int]);
        let x = cfg.edges[e.0].from;
        let ghost had = row@;
        if !overwritten[x.0] {
            assert(cfg.links(x, at));
            row.push(x.0);
        }
        proof {
            assert forall|q: int| 0 <= q < k + 1 && !overwritten@[cfg.edge(#[trigger] cfg.in_edges(at)[q]).from.0 as int] implies row@.contains(
                cfg.edge(cfg.in_edges(at)[q]).from.0,
            ) by {
                if q < k {
                    let p = cfg.edge(cfg.in_edges(at)[q]).from.0;
                    assert(had.contains(p));
                    assert(row@[had.index_of(p)] == p);
                } else {
                    assert(row@[row@.len() - 1] == x.0);
                }
            }
        }
        k = k + 1;
    }
    proof {
        assert forall|x: usize| #[trigger] row@.contains(x) <==> x < cfg.blocks@.len() && cfg.links(BlockRef(x), BlockRef(y))
            && cfg.is_reachable(BlockRef(y)) && !overwritten@[x as int] by {
            if x < cfg.blocks@.len() && cfg.links(BlockRef(x), at) && !overwritten@[x as int] {
                let e = choose|e: EdgeRef| #[trigger]
                    cfg.has_edge(e) && cfg.edge(e).from == BlockRef(x) && cfg.edge(e).to == at;
                assert(cfg.in_edges(at).contains(e));
                let q = cfg.in_edges(at).index_of(e);
                assert(cfg.in_edges(at)[q] == e);
            }
        }
    }
    row
}

impl Track {
    /// The blocks that need a phi.
    pub fn place_phis(&self, cfg: &Cfg, graph: &GraphFacts, live_in: &Vec<bool>) -> (r: Vec<bool>)
        requires
            analysable(cfg),
            self@.fits(cfg),
            graph.sized(cfg),
            live_in@.len() == cfg.blocks@.len(),
            forall|b: int| 0 <= b < cfg.blocks@.len() ==> #[trigger] live_in@[b] == self@.live_in(cfg, BlockRef(b as usize)),
        ensures
            r@.len() == cfg.blocks@.len(),
            forall|b: int| 0 <= b < cfg.blocks@.len() ==> #[trigger] r@[b] == self@.needs_phi(cfg, graph, b as usize),
    {
        let n = cfg.blocks.len();
        let (_, overwritten) = self.block_masks(cfg);
        let ghost step = self@.joined(cfg, graph);
        let mut starts: Vec<usize> = Vec::new();
        let mut rows: Vec<Vec<usize>> = Vec::new();
        let mut b: usize = 0;
        while b < n
            invariant
                n == cfg.blocks@.len(),
                graph.sized(cfg),
                step == self@.joined(cfg, graph),
                live_in@.len() == n,
                forall|k: int| 0 <= k < n ==> #[trigger] live_in@[k] == self@.live_in(cfg, BlockRef(k as usize)),
                overwritten@.len() == n,
                forall|k: int| 0 <= k < n ==> #[trigger] overwritten@[k] == self@.overwritten(cfg, BlockRef(k as usize)),
                b <= n,
                rows@.len() == b,
                forall|x: int, k: int| 0 <= x < b && 0 <= k < rows@[x]@.len() ==> (#[trigger] rows@[x]@[k]) < n,
                forall|x: int, y: usize| 0 <= x < b ==> (#[trigger] rows@[x]@.contains(y) <==> step(x as usize, y)),
                forall|k: int| 0 <= k < starts@.len() ==> (#[trigger] starts@[k]) < b && overwritten@[starts@[k] as int],
                forall|u: usize| u < b && overwritten@[u as int] ==> #[trigger] starts@.contains(u),
            decreases n - b,
        {
            let ghost had = starts@;
            if overwritten[b] {
                starts.push(b);
            }
            proof {
                assert forall|u: usize| u < b + 1 && overwritten@[u as int] implies #[trigger] starts@.contains(u) by {
                    if u < b {
                        assert(had.contains(u));
                        assert(starts@[had.index_of(u)] == u);
                    } else {
                        assert(starts@[starts@.len() - 1] == u);
                    }
                }
            }
            let row = live_frontier(cfg, graph, live_in, b);
            proof {
                assert forall|y: usize| #[trigger] row@.contains(y) <==> step(b, y) by {
                    if y < n {
                        assert(live_in@[y as int] == self@.live_in(cfg, BlockRef(y)));
                    }
                }
            }
            rows.push(row);
            b = b + 1;
        }
        let seen = close(&rows, &starts);
        let mut r: Vec<bool> = vec![false; n];
        let mut x: usize = 0;
        assert(rows@.len() == n);
        while x < n
            invariant
                n == cfg.blocks@.len(),
                r@.len() == n,
                rows@.len() == n,
                seen@.len() == n,
                x <= n,
                forall|a: int, k: int| 0 <= a < n && 0 <= k < rows@[a]@.len() ==> (#[trigger] rows@[a]@[k]) < n,
                forall|q: int| 0 <= q < n ==> (#[trigger] r@[q] <==> marked_below(rows@, seen@, x as int, q as usize)),
            decreases n - x,
        {
            let ghost before = r@;
            if seen[x] {
                mark_all(&rows[x], &mut r);
            }
            proof {
                assert forall|q: int| 0 <= q < n implies (#[trigger] r@[q] <==> marked_below(rows@, seen@, x as int + 1, q as usize)) by {
                    assert(before[q] <==> marked_below(rows@, seen@, x as int, q as usize));
                    if marked_below(rows@, seen@, x as int, q as usize) {
                        let z = choose|z: int| #[trigger] marked_by(rows@, seen@, z, q as usize) && 0 <= z < x;
                        assert(marked_by(rows@, seen@, z, q as usize) && 0 <= z < x + 1);
                    }
                    if seen@[x as int] && rows@[x as int]@.contains(q as usize) {
                        assert(marked_by(rows@, seen@, x as int, q as usize));
                    }
                }
            }
            x = x + 1;
        }
        proof {
            assert forall|q: int| 0 <= q < n implies (#[trigger] r@[q] <==> self@.meets(cfg, graph, q as usize)) by {
                self.marks_are_meetings(cfg, graph, rows@, starts@, seen@, overwritten@, q as usize);
            }
        }
        let entry = cfg.entry_block.0;
        if live_in[entry] && self.find_redefined(cfg, graph, &overwritten) {
            r[entry] = true;
        }
        r
    }

    fn find_redefined(&self, cfg: &Cfg, graph: &GraphFacts, overwritten: &Vec<bool>) -> (r: bool)
        requires
            overwritten@.len() == cfg.blocks@.len(),
            forall|k: int| 0 <= k < overwritten@.len() ==> #[trigger] overwritten@[k] == self@.overwritten(cfg, BlockRef(k as usize)),
        ensures
            r == exists|i: int| 0 <= i < graph.natural_loops@.len() && #[trigger] self@.redefined_by(cfg, graph, i),
    {
        let n = graph.natural_loops.len();
        let mut i: usize = 0;
        while i < n
            invariant
                n == graph.natural_loops@.len(),
                overwritten@.len() == cfg.blocks@.len(),
                forall|k: int|
                    0 <= k < overwritten@.len() ==> #[trigger] overwritten@[k] == self@.overwritten(cfg, BlockRef(k as usize)),
                i <= n,
                forall|k: int| 0 <= k < i ==> !#[trigger] self@.redefined_by(cfg, graph, k),
            decreases n - i,
        {
            let l = &graph.natural_loops[i];
            if l.header == cfg.entry_block {
                let m = l.blocks.len();
                let mut k: usize = 0;
                while k < m
                    invariant
                        i < n,
                        n == graph.natural_loops@.len(),
                        *l == graph.natural_loops@[i as int],
                        l.header == cfg.entry_block,
                        m == l.blocks.seq().len(),
                        overwritten@.len() == cfg.blocks@.len(),
                        forall|k: int|
                            0 <= k < overwritten@.len() ==> #[trigger] overwritten@[k] == self@.overwritten(cfg, BlockRef(k as usize)),
                        k <= m,
                        forall|q: int| 0 <= q < k ==> !(cfg.has_block(#[trigger] l.blocks.seq()[q]) && self@.overwritten(
                            cfg,
                            l.blocks.seq()[q],
                        )),
                    decreases m - k,
                {
                    let c = l.blocks.at(k);
                    if c.0 < overwritten.len() && overwritten[c.0] {
                        assert(self@.overwritten(cfg, BlockRef(c.0)));
                        assert(graph.natural_loops@[i as int].blocks@.contains(c));
                        assert(self@.redefined_by(cfg, graph, i as int));
                        return true;
                    }
                    k = k + 1;
                }
                assert(!self@.redefined_by(cfg, graph, i as int)) by {
                    if self@.redefined_by(cfg, graph, i as int) {
                        let c = choose|c: BlockRef| #[trigger]
                            graph.natural_loops@[i as int].blocks@.contains(c) && cfg.has_block(c) && self@.overwritten(cfg, c);
                        assert(l.blocks.seq().contains(c));
                        let q = l.blocks.seq().index_of(c);
                        assert(l.blocks.seq()[q] == c);
                    }
                }
            }
            i = i + 1;
        }
        false
    }

    proof fn marks_are_meetings(
        &self,
        cfg: &Cfg,
        graph: &GraphFacts,
        rows: Seq<Vec<usize>>,
        starts: Seq<usize>,
        seen: Seq<bool>,
        overwritten: Seq<bool>,
        q: usize,
    )
        requires
            rows.len() == cfg.blocks@.len(),
            seen.len() == cfg.blocks@.len(),
            overwritten.len() == cfg.blocks@.len(),
            graph.sized(cfg),
            forall|k: int| 0 <= k < overwritten.len() ==> #[trigger] overwritten[k] == self@.overwritten(cfg, BlockRef(k as usize)),
            forall|x: int, y: usize| 0 <= x < rows.len() ==> (#[trigger] rows[x]@.contains(y) <==> self@.joined(cfg, graph)(x as usize, y)),
            forall|k: int| 0 <= k < starts.len() ==> (#[trigger] starts[k]) < rows.len() && overwritten[starts[k] as int],
            forall|u: usize| u < rows.len() && overwritten[u as int] ==> #[trigger] starts.contains(u),
            forall|x: usize| #[trigger] flagged(seen).contains(x) <==> closes_to(rows, starts, x),
        ensures
            marked_below(rows, seen, rows.len() as int, q) <==> self@.meets(cfg, graph, q),
    {
        let step = self@.joined(cfg, graph);
        let adj = adjacent(rows);
        assert forall|x: usize, y: usize| #[trigger] step(x, y) implies adj(x, y) by {
            assert(graph.frontier_has(BlockRef(x), BlockRef(y)));
            assert(rows[x as int]@.contains(y));
        }
        assert forall|x: usize, y: usize| #[trigger] adj(x, y) implies step(x, y) by {
            assert(rows[x as int]@.contains(y));
        }
        if marked_below(rows, seen, rows.len() as int, q) {
            let z = choose|z: int| #[trigger] marked_by(rows, seen, z, q) && 0 <= z < rows.len();
            assert(flagged(seen).contains(z as usize));
            let k = choose|k: int| 0 <= k < starts.len() && reaches(adj, #[trigger] starts[k], z as usize);
            reaches_monotone(adj, step, starts[k], z as usize);
            assert(step(z as usize, q));
            assert(self@.overwritten(cfg, BlockRef(starts[k])));
        }
        if self@.meets(cfg, graph, q) {
            let (x, z) = choose|x: usize, z: usize|
                x < cfg.blocks@.len() && self@.overwritten(cfg, BlockRef(x)) && #[trigger] reaches(step, x, z) && step(z, q);
            reaches_monotone(step, adj, x, z);
            assert(overwritten[x as int]);
            assert(starts.contains(x));
            assert(starts[starts.index_of(x)] == x);
            assert(flagged(seen).contains(z));
            assert(adj(z, q));
            assert(marked_by(rows, seen, z as int, q));
        }
    }
}

spec fn marked_by(rows: Seq<Vec<usize>>, seen: Seq<bool>, z: int, q: usize) -> bool {
    seen[z] && rows[z]@.contains(q)
}

spec fn marked_below(rows: Seq<Vec<usize>>, seen: Seq<bool>, n: int, q: usize) -> bool {
    exists|z: int| #[trigger] marked_by(rows, seen, z, q) && 0 <= z < n
}

fn mark_all(row: &Vec<usize>, mask: &mut Vec<bool>)
    requires
        forall|k: int| 0 <= k < row@.len() ==> (#[trigger] row@[k]) < old(mask)@.len(),
    ensures
        final(mask)@.len() == old(mask)@.len(),
        forall|q: int| 0 <= q < old(mask)@.len() ==> #[trigger] final(mask)@[q] == (old(mask)@[q] || row@.contains(q as usize)),
{
    let n = row.len();
    let mut k: usize = 0;
    while k < n
        invariant
            n == row@.len(),
            mask@.len() == old(mask)@.len(),
            forall|k: int| 0 <= k < row@.len() ==> (#[trigger] row@[k]) < old(mask)@.len(),
            k <= n,
            forall|q: int| 0 <= q < mask@.len() && #[trigger] mask@[q] ==> old(mask)@[q] || row@.contains(q as usize),
            forall|q: int| 0 <= q < mask@.len() && old(mask)@[q] ==> #[trigger] mask@[q],
            forall|p: int| 0 <= p < k ==> mask@[#[trigger] row@[p] as int],
        decreases n - k,
    {
        let at = row[k];
        assert(row@.contains(row@[k as int]));
        mask[at] = true;
        k = k + 1;
    }
    assert forall|q: int| 0 <= q < old(mask)@.len() implies #[trigger] mask@[q] == (old(mask)@[q] || row@.contains(q as usize)) by {
        if row@.contains(q as usize) {
            assert(mask.len() <= usize::MAX);
            let p = row@.index_of(q as usize);
            assert(mask@[row@[p] as int]);
        }
    }
}

/// The dominance frontier of `x` as far as the variable is live there.
fn live_frontier(cfg: &Cfg, graph: &GraphFacts, live_in: &Vec<bool>, x: usize) -> (row: Vec<usize>)
    requires
        graph.sized(cfg),
        x < cfg.blocks@.len(),
        live_in@.len() == cfg.blocks@.len(),
    ensures
        forall|y: usize| #[trigger] row@.contains(y) <==> graph.frontier_has(BlockRef(x), BlockRef(y)) && live_in@[y as int],
        forall|k: int| 0 <= k < row@.len() ==> (#[trigger] row@[k]) < cfg.blocks@.len(),
{
    let list = graph.dominance_frontier_blocks(BlockRef(x));
    let n = list.len();
    let mut row: Vec<usize> = Vec::new();
    let mut k: usize = 0;
    while k < n
        invariant
            n == list@.len(),
            graph.sized(cfg),
            live_in@.len() == cfg.blocks@.len(),
            forall|y: BlockRef| #[trigger] list@.contains(y) <==> graph.frontier_has(BlockRef(x), y),
            k <= n,
            forall|q: int| 0 <= q < row@.len() ==> (#[trigger] row@[q]) < cfg.blocks@.len() && list@.contains(BlockRef(row@[q]))
                && live_in@[row@[q] as int],
            forall|q: int| 0 <= q < k && live_in@[(#[trigger] list@[q]).0 as int] ==> row@.contains(list@[q].0),
        decreases n - k,
    {
        let y = list[k];
        assert(list@.contains(list@[k as int]));
        assert(graph.frontier_has(BlockRef(x), y));
        let ghost had = row@;
        if live_in[y.0] {
            assert(y == BlockRef(y.0));
            row.push(y.0);
        }
        proof {
            assert forall|q: int| 0 <= q < k + 1 && live_in@[(#[trigger] list@[q]).0 as int] implies row@.contains(list@[q].0) by {
                if q < k {
                    assert(had.contains(list@[q].0));
                    assert(row@[had.index_of(list@[q].0)] == list@[q].0);
                } else {
                    assert(row@[row@.len() - 1] == y.0);
                }
            }
        }
        k = k + 1;
    }
    proof {
        assert forall|y: usize| #[trigger] row@.contains(y) <==> graph.frontier_has(BlockRef(x), BlockRef(y)) && live_in@[y as int] by {
            if graph.frontier_has(BlockRef(x), BlockRef(y)) && live_in@[y as int] {
                assert(list@.contains(BlockRef(y)));
                let q = list@.index_of(BlockRef(y));
                assert(list@[q].0 == y);
            }
        }
    }
    row
}

/// Where a value comes from.
#[derive(Debug, Clone, Copy, PartialEq, Eq, Structural)]
pub enum Origin {
    Entry,
    Def(usize),
    Phi(usize),
}

/// The last definition from `start` on and before `end`.
pub open spec fn last_write(writes: Seq<Option<usize>>, start: int, end: int) -> Option<usize>
    decreases end - start,
{
    if end <= start {
        None
    } else if writes[end - 1] is Some {
        writes[end - 1]
    } else {
        last_write(writes, start, end - 1)
    }
}

/// The distance from the top of the tree, counted from one; zero outside.
pub open spec fn level(tree: &Tree, b: usize) -> nat {
    if tree.has(b) {
        (tree.depth@[b as int]->0 + 1) as nat
    } else {
        0
    }
}

impl Track {
    fn find_last_write(&self, cfg: &Cfg, b: usize, end: usize) -> (r: Option<usize>)
        requires
            self@.fits(cfg),
            b < cfg.blocks@.len(),
            end <= self.writes@.len() || end <= cfg.range(BlockRef(b)).start.0,
        ensures
            r == last_write(self.writes@, cfg.range(BlockRef(b)).start.0 as int, end as int),
    {
        let start = cfg.blocks[b].instrs.start.0;
        let mut i: usize = end;
        while i > start
            invariant
                start == cfg.range(BlockRef(b)).start.0,
                i <= end,
                end <= self.writes@.len() || end <= start,
                last_write(self.writes@, start as int, end as int) == last_write(self.writes@, start as int, i as int),
            decreases i,
        {
            if self.writes[i - 1].is_some() {
                return self.writes[i - 1];
            }
            i = i - 1;
        }
        None
    }

    pub fn find_arriving(&self, cfg: &Cfg, tree: &Tree, phis: &Vec<Option<usize>>, b: usize) -> (r: Origin)
        requires
            analysable(cfg),
            self@.fits(cfg),
            tree.wf(),
            tree.parent@.len() == cfg.blocks@.len(),
            phis@.len() == cfg.blocks@.len(),
            b < cfg.blocks@.len(),
        ensures
            r == self@.arriving(cfg, tree, phis@, b),
    {
        let mut at: usize = b;
        let mut going = true;
        while going
            invariant
                analysable(cfg),
                self@.fits(cfg),
                tree.wf(),
                tree.parent@.len() == cfg.blocks@.len(),
                phis@.len() == cfg.blocks@.len(),
                at < cfg.blocks@.len(),
                self@.arriving(cfg, tree, phis@, b) == self@.arriving(cfg, tree, phis@, at),
                !going ==> self@.arriving(cfg, tree, phis@, at) == Origin::Entry,
            decreases level(tree, at), (if going { 1nat } else { 0nat }),
        {
            if let Some(p) = phis[at] {
                return Origin::Phi(p);
            }
            match tree.parent[at] {
                Some(d) => {
                    proof {
                        parent_is_higher(tree, at);
                        range_fits(cfg, BlockRef(d));
                    }
                    let end = cfg.blocks[d].instrs.end();
                    if let Some(id) = self.find_last_write(cfg, d, end) {
                        return Origin::Def(id);
                    }
                    at = d;
                },
                None => {
                    going = false;
                },
            }
        }
        Origin::Entry
    }

    pub fn find_held(&self, cfg: &Cfg, tree: &Tree, phis: &Vec<Option<usize>>, b: usize, i: usize) -> (r: Origin)
        requires
            analysable(cfg),
            self@.fits(cfg),
            tree.wf(),
            tree.parent@.len() == cfg.blocks@.len(),
            phis@.len() == cfg.blocks@.len(),
            b < cfg.blocks@.len(),
            i <= self.writes@.len() || i <= cfg.range(BlockRef(b)).start.0,
        ensures
            r == self@.held(cfg, tree, phis@, b, i as int),
    {
        match self.find_last_write(cfg, b, i) {
            Some(id) => Origin::Def(id),
            None => self.find_arriving(cfg, tree, phis, b),
        }
    }

    pub fn find_leaving(&self, cfg: &Cfg, tree: &Tree, phis: &Vec<Option<usize>>, b: usize) -> (r: Origin)
        requires
            analysable(cfg),
            self@.fits(cfg),
            tree.wf(),
            tree.parent@.len() == cfg.blocks@.len(),
            phis@.len() == cfg.blocks@.len(),
            b < cfg.blocks@.len(),
        ensures
            r == self@.leaving(cfg, tree, phis@, b),
    {
        proof {
            range_fits(cfg, BlockRef(b));
        }
        let end = cfg.blocks[b].instrs.end();
        self.find_held(cfg, tree, phis, b, end)
    }
}

/// A parent lies one level higher.
pub proof fn parent_is_higher(tree: &Tree, b: usize)
    requires
        tree.wf(),
        b < tree.parent@.len(),
        tree.parent@[b as int] is Some,
    ensures
        tree.parent@[b as int]->0 < tree.parent@.len(),
        level(tree, tree.parent@[b as int]->0) < level(tree, b),
        tree.has(b),
        tree.has(tree.parent@[b as int]->0),
{
    let d = tree.parent@[b as int]->0;
    assert(members(tree.depth@)[b as int]);
    assert(members(tree.depth@)[d as int]);
    assert(tree.depth@[b as int] is Some);
}

/// A variable is still read at the start of a block just when the block reads it itself, or
/// hands it on to where it is still read.
pub proof fn liveness_is_local(track: &TrackModel, cfg: &Cfg, b: BlockRef)
    requires
        cfg.wf(),
        cfg.is_reachable(b),
    ensures
        track.live_in(cfg, b) <==> track.exposed(cfg, b) || (!track.overwritten(cfg, b) && track.live_out(cfg, b)),
{
    let carried = track.carried(cfg);
    reachable_in_range(cfg);
    assert(BlockRef(b.0) == b);
    if track.live_in(cfg, b) {
        let u = choose|u: usize| u < cfg.blocks@.len() && track.exposed(cfg, BlockRef(u)) && #[trigger] reaches(carried, b.0, u);
        if u != b.0 {
            let x = reaches_first_step(carried, b.0, u);
            assert(carried(b.0, x));
            assert(track.live_in(cfg, BlockRef(x)));
        }
    }
    if track.exposed(cfg, b) {
        reaches_self(carried, b.0);
        assert(reaches(carried, b.0, b.0));
    }
    if !track.overwritten(cfg, b) && track.live_out(cfg, b) {
        let s = choose|s: BlockRef| cfg.links(b, s) && #[trigger] track.live_in(cfg, s);
        let u = choose|u: usize| u < cfg.blocks@.len() && track.exposed(cfg, BlockRef(u)) && #[trigger] reaches(carried, s.0, u);
        assert(BlockRef(s.0) == s);
        assert(carried(b.0, s.0));
        reaches_self(carried, b.0);
        reaches_then_step(carried, b.0, b.0, s.0);
        reaches_transitive(carried, b.0, s.0, u);
        assert(reaches(carried, b.0, u));
    }
}

} // verus!
