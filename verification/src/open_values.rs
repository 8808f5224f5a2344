//! Open packs: result lists whose width is only known at run time.

use vstd::prelude::*;

use crate::cfg::Cfg;
use crate::dataflow::{InstrEffect, OpenDef, OpenDefId, OpenUseSources};
use crate::dense::{adjacent, close, closes_to, flagged};
use crate::graph::GraphFacts;
use crate::ids::{BlockRef, EdgeRef, InstrRef, Reg};
use crate::idset::IdSet;
use crate::tracks::{analysable, last_write, level, parent_is_higher, range_fits, Origin, Track, TrackModel};
use crate::walk::{reaches, reaches_monotone};

verus! {

/// `acc`, then the packs that the instructions from `start` on and before `i` define.
pub open spec fn open_defs_in(effects: Seq<InstrEffect>, b: BlockRef, start: int, i: int, acc: Seq<OpenDef>) -> Seq<OpenDef>
    decreases i - start,
{
    if i <= start {
        acc
    } else {
        let rest = open_defs_in(effects, b, start, i - 1, acc);
        match effects[i - 1].open_must_def {
            Some(reg) => rest.push(
                OpenDef {
                    id: OpenDefId(rest.len() as usize),
                    start_reg: reg,
                    instr: InstrRef((i - 1) as usize),
                    block: b,
                },
            ),
            None => rest,
        }
    }
}

/// The packs that the first `k` blocks of the layout define, in order.
pub open spec fn open_defs_upto(cfg: &Cfg, effects: Seq<InstrEffect>, k: nat) -> Seq<OpenDef>
    decreases k,
{
    if k == 0 {
        Seq::empty()
    } else {
        let b = cfg.block_order@[k - 1];
        open_defs_in(
            effects,
            b,
            cfg.range(b).start.0 as int,
            cfg.range(b).end_at(),
            open_defs_upto(cfg, effects, (k - 1) as nat),
        )
    }
}

/// The last of the first `n` packs that instruction `i` defines.
pub open spec fn open_def_at(defs: Seq<OpenDef>, i: int, n: nat) -> Option<usize>
    decreases n,
{
    if n == 0 {
        None
    } else if defs[n - 1].instr.0 == i {
        Some((n - 1) as usize)
    } else {
        open_def_at(defs, i, (n - 1) as nat)
    }
}

/// The open pack as a variable.
pub open spec fn open_track(effects: Seq<InstrEffect>, defs: Seq<OpenDef>) -> TrackModel {
    TrackModel {
        reads: Seq::new(effects.len(), |i: int| effects[i].open_use is Some),
        writes: Seq::new(effects.len(), |i: int| open_def_at(defs, i, defs.len())),
    }
}

proof fn open_def_at_before(a: Seq<OpenDef>, d: OpenDef, i: int, n: nat)
    requires
        n <= a.len(),
    ensures
        open_def_at(a.push(d), i, n) == open_def_at(a, i, n),
    decreases n,
{
    if n > 0 {
        assert(a.push(d)[n - 1] == a[n - 1]);
        open_def_at_before(a, d, i, (n - 1) as nat);
    }
}

/// Lists the definitions, and marks them at their instructions.
fn collect_open_defs(cfg: &Cfg, effects: &Vec<InstrEffect>) -> (r: (Vec<OpenDef>, Vec<Option<usize>>))
    requires
        analysable(cfg),
        effects@.len() == cfg.instr_to_block@.len(),
    ensures
        (r.0)@ == open_defs_upto(cfg, effects@, cfg.block_order@.len()),
        (r.1)@ == open_track(effects@, (r.0)@).writes,
{
    let total = effects.len();
    let mut defs: Vec<OpenDef> = Vec::new();
    let mut writes: Vec<Option<usize>> = vec![None; total];
    let n = cfg.block_order.len();
    let mut k: usize = 0;
    while k < n
        invariant
            analysable(cfg),
            total == effects@.len(),
            effects@.len() == cfg.instr_to_block@.len(),
            n == cfg.block_order@.len(),
            k <= n,
            defs@ == open_defs_upto(cfg, effects@, k as nat),
            writes@.len() == total,
            forall|i: int| 0 <= i < total ==> #[trigger] writes@[i] == open_def_at(defs@, i, defs@.len()),
        decreases n - k,
    {
        let b = cfg.block_order[k];
        assert(cfg.has_block(cfg.block_order@[k as int]));
        proof {
            range_fits(cfg, b);
        }
        let range = cfg.blocks[b.0].instrs;
        let end = range.end();
        let ghost acc = defs@;
        let mut i: usize = range.start.0;
        while i < end
            invariant
                total == effects@.len(),
                effects@.len() == cfg.instr_to_block@.len(),
                range == cfg.range(b),
                end == range.end_at(),
                range.len > 0 ==> end <= total,
                range.start.0 <= i <= end,
                defs@ == open_defs_in(effects@, b, range.start.0 as int, i as int, acc),
                writes@.len() == total,
                forall|q: int| 0 <= q < total ==> #[trigger] writes@[q] == open_def_at(defs@, q, defs@.len()),
            decreases end - i,
        {
            if let Some(reg) = effects[i].open_must_def {
                let at = defs.len();
                let ghost before = defs@;
                let ghost was = writes@;
                let d = OpenDef { id: OpenDefId(at), start_reg: reg, instr: InstrRef(i), block: b };
                defs.push(d);
                writes[i] = Some(at);
                proof {
                    assert forall|q: int| 0 <= q < total implies #[trigger] writes@[q] == open_def_at(defs@, q, defs@.len()) by {
                        open_def_at_before(before, d, q, before.len());
                        assert(was[q] == open_def_at(before, q, before.len()));
                    }
                }
            }
            i = i + 1;
        }
        k = k + 1;
    }
    assert(writes@ =~= open_track(effects@, defs@).writes);
    (defs, writes)
}

/// The phi of a block, named by the block.
pub open spec fn open_phis(cfg: &Cfg, graph: &GraphFacts, track: TrackModel) -> Seq<Option<usize>> {
    Seq::new(
        cfg.blocks@.len(),
        |b: int|
            if track.needs_phi(cfg, graph, b as usize) {
                Some(b as usize)
            } else {
                None
            },
    )
}

/// The phi of block `b` takes `o` over some way in.
pub open spec fn takes_open(cfg: &Cfg, graph: &GraphFacts, track: TrackModel, b: usize, o: Origin) -> bool {
    (b == cfg.entry_block.0 && o == Origin::Entry) || exists|e: EdgeRef| #[trigger]
        cfg.has_edge(e) && cfg.edge(e).to == BlockRef(b) && cfg.is_reachable(cfg.edge(e).from) && track.leaving(
            cfg,
            &graph.dominator_tree.tree,
            open_phis(cfg, graph, track),
            cfg.edge(e).from.0,
        ) == o
}

/// The phi of one block takes that of the other.
pub open spec fn open_upstream(cfg: &Cfg, graph: &GraphFacts, track: TrackModel) -> spec_fn(usize, usize) -> bool {
    |b: usize, c: usize| takes_open(cfg, graph, track, b, Origin::Phi(c))
}

/// What comes from `o` may come from `source`, through any number of phis.
pub open spec fn open_source(cfg: &Cfg, graph: &GraphFacts, track: TrackModel, o: Origin, source: Origin) -> bool {
    match o {
        Origin::Phi(p) => exists|q: usize| #[trigger]
            reaches(open_upstream(cfg, graph, track), p, q) && takes_open(cfg, graph, track, q, source),
        _ => o == source,
    }
}

/// The sources are those of `o`.
pub open spec fn has_sources(cfg: &Cfg, graph: &GraphFacts, track: TrackModel, o: Origin, s: &OpenUseSources) -> bool {
    &&& s.has_entry == open_source(cfg, graph, track, o, Origin::Entry)
    &&& forall|d: OpenDefId| #[trigger] s.defs@.contains(d) <==> open_source(cfg, graph, track, o, Origin::Def(d.0))
}

/// A phi that arrives somewhere is that of a block.
proof fn arriving_phi_known(cfg: &Cfg, graph: &GraphFacts, track: TrackModel, b: usize)
    requires
        graph.sized(cfg),
    ensures
        match track.arriving(cfg, &graph.dominator_tree.tree, open_phis(cfg, graph, track), b) {
            Origin::Phi(p) => p < cfg.blocks@.len(),
            _ => true,
        },
    decreases level(&graph.dominator_tree.tree, b),
{
    let tree = &graph.dominator_tree.tree;
    let phis = open_phis(cfg, graph, track);
    if b < cfg.blocks@.len() && phis[b as int] is None {
        if let Some(d) = tree.parent@[b as int] {
            if level(tree, d) < level(tree, b) {
                arriving_phi_known(cfg, graph, track, d);
            }
        }
    }
}

/// What the open values are read from.
pub open spec fn open_input(cfg: &Cfg, graph: &GraphFacts, track: TrackModel, phis: Seq<Option<usize>>) -> bool {
    &&& analysable(cfg)
    &&& graph.sized(cfg)
    &&& track.fits(cfg)
    &&& phis == open_phis(cfg, graph, track)
}

/// What the phi of `b` takes directly: the sources, and the phis.
fn own_incomings(
    cfg: &Cfg,
    graph: &GraphFacts,
    track: &Track,
    phis: &Vec<Option<usize>>,
    b: usize,
) -> (r: (OpenUseSources, Vec<usize>))
    requires
        open_input(cfg, graph, track@, phis@),
        b < cfg.blocks@.len(),
    ensures
        (r.0).has_entry == takes_open(cfg, graph, track@, b, Origin::Entry),
        forall|d: OpenDefId| #[trigger] (r.0).defs@.contains(d) <==> takes_open(cfg, graph, track@, b, Origin::Def(d.0)),
        forall|c: usize| #[trigger] (r.1)@.contains(c) <==> takes_open(cfg, graph, track@, b, Origin::Phi(c)),
        forall|k: int| 0 <= k < (r.1)@.len() ==> (#[trigger] (r.1)@[k]) < cfg.blocks@.len(),
{
    let mut own = OpenUseSources::new();
    let mut ups: Vec<usize> = Vec::new();
    if b == cfg.entry_block.0 {
        own.has_entry = true;
    }
    let ghost at = BlockRef(b);
    let ghost tree = &graph.dominator_tree.tree;
    let n = cfg.preds[b].len();
    let mut k: usize = 0;
    while k < n
        invariant
            open_input(cfg, graph, track@, phis@),
            tree == &graph.dominator_tree.tree,
            b < cfg.blocks@.len(),
            at == BlockRef(b),
            n == cfg.in_edges(at).len(),
            k <= n,
            own.has_entry == taken_by(cfg, graph, track@, b, Origin::Entry, k as int),
            forall|d: OpenDefId| #[trigger] own.defs@.contains(d) <==> taken_by(cfg, graph, track@, b, Origin::Def(d.0), k as int),
            forall|c: usize| #[trigger] ups@.contains(c) <==> taken_by(cfg, graph, track@, b, Origin::Phi(c), k as int),
            forall|q: int| 0 <= q < ups@.len() ==> (#[trigger] ups@[q]) < cfg.blocks@.len(),
        decreases n - k,
    {
        assert(cfg.has_block(at));
        let e = cfg.preds[b][k];
        assert(e == cfg.in_edges(at)[k as int]);
        let from = cfg.edges[e.0].from;
        let ghost had = ups@;
        let ghost was = own;
        if cfg.reachable_blocks.contains(from) {
            let o = track.find_leaving(cfg, &graph.dominator_tree.tree, phis, from.0);
            match o {
                Origin::Entry => {
                    own.has_entry = true;
                },
                Origin::Def(d) => {
                    let _ = own.insert_def(OpenDefId(d));
                },
                Origin::Phi(c) => {
                    proof {
                        arriving_phi_known(cfg, graph, track@, from.0);
                    }
                    ups.push(c);
                },
            }
        }
        proof {
            assert forall|o: Origin| #[trigger] taken_by(cfg, graph, track@, b, o, k as int + 1) <==> taken_by(cfg, graph, track@, b, o, k as int)
                || taken_over(cfg, graph, track@, b, k as int, o) by {
                taken_next(cfg, graph, track@, b, o, k as int);
            }
            assert forall|c: usize| #[trigger] ups@.contains(c) <==> taken_by(cfg, graph, track@, b, Origin::Phi(c), k as int + 1) by {
                if had.contains(c) {
                    assert(ups@[had.index_of(c)] == c);
                }
                if ups@.len() > had.len() && c == ups@[had.len() as int] {
                    assert(ups@.contains(c));
                }
                if ups@.contains(c) {
                    let q = ups@.index_of(c);
                    if q < had.len() {
                        assert(had[q] == c);
                    }
                }
            }
        }
        k = k + 1;
    }
    proof {
        assert forall|o: Origin| #[trigger] takes_open(cfg, graph, track@, b, o) == taken_by(cfg, graph, track@, b, o, n as int) by {
            taken_all(cfg, graph, track@, b, o);
        }
    }
    (own, ups)
}

/// The phi of `b` takes `o` over way `k` in.
spec fn taken_over(cfg: &Cfg, graph: &GraphFacts, track: TrackModel, b: usize, k: int, o: Origin) -> bool {
    let e = cfg.in_edges(BlockRef(b))[k];
    cfg.is_reachable(cfg.edge(e).from) && track.leaving(
        cfg,
        &graph.dominator_tree.tree,
        open_phis(cfg, graph, track),
        cfg.edge(e).from.0,
    ) == o
}

spec fn taken_by(cfg: &Cfg, graph: &GraphFacts, track: TrackModel, b: usize, o: Origin, n: int) -> bool {
    (b == cfg.entry_block.0 && o == Origin::Entry) || exists|k: int| 0 <= k < n && #[trigger] taken_over(cfg, graph, track, b, k, o)
}

proof fn taken_next(cfg: &Cfg, graph: &GraphFacts, track: TrackModel, b: usize, o: Origin, n: int)
    requires
        n >= 0,
    ensures
        taken_by(cfg, graph, track, b, o, n + 1) <==> taken_by(cfg, graph, track, b, o, n) || taken_over(cfg, graph, track, b, n, o),
{
    if exists|k: int| 0 <= k < n && #[trigger] taken_over(cfg, graph, track, b, k, o) {
        let k = choose|k: int| 0 <= k < n && #[trigger] taken_over(cfg, graph, track, b, k, o);
        assert(0 <= k < n + 1 && taken_over(cfg, graph, track, b, k, o));
    }
}

proof fn taken_all(cfg: &Cfg, graph: &GraphFacts, track: TrackModel, b: usize, o: Origin)
    requires
        cfg.wf(),
        b < cfg.blocks@.len(),
    ensures
        takes_open(cfg, graph, track, b, o) == taken_by(cfg, graph, track, b, o, cfg.in_edges(BlockRef(b)).len() as int),
{
    let at = BlockRef(b);
    assert(cfg.has_block(at));
    if takes_open(cfg, graph, track, b, o) && !(b == cfg.entry_block.0 && o == Origin::Entry) {
        let e = choose|e: EdgeRef| #[trigger]
            cfg.has_edge(e) && cfg.edge(e).to == at && cfg.is_reachable(cfg.edge(e).from) && track.leaving(
                cfg,
                &graph.dominator_tree.tree,
                open_phis(cfg, graph, track),
                cfg.edge(e).from.0,
            ) == o;
        assert(cfg.in_edges(at).contains(e));
        let k = cfg.in_edges(at).index_of(e);
        assert(cfg.in_edges(at)[k] == e);
        assert(taken_over(cfg, graph, track, b, k, o));
    }
    if exists|k: int| 0 <= k < cfg.in_edges(at).len() && #[trigger] taken_over(cfg, graph, track, b, k, o) {
        let k = choose|k: int| 0 <= k < cfg.in_edges(at).len() && #[trigger] taken_over(cfg, graph, track, b, k, o);
        let e = cfg.in_edges(at)[k];
        assert(cfg.has_edge(e));
    }
}

/// The sources of every block's phi.
fn index_open_phi_sources(
    cfg: &Cfg,
    graph: &GraphFacts,
    track: &Track,
    phis: &Vec<Option<usize>>,
) -> (r: Vec<OpenUseSources>)
    requires
        open_input(cfg, graph, track@, phis@),
    ensures
        r@.len() == cfg.blocks@.len(),
        forall|b: int|
            0 <= b < r@.len() ==> has_sources(cfg, graph, track@, Origin::Phi(b as usize), &(#[trigger] r@[b])),
{
    let n = cfg.blocks.len();
    let mut own: Vec<OpenUseSources> = Vec::new();
    let mut rows: Vec<Vec<usize>> = Vec::new();
    let mut b: usize = 0;
    while b < n
        invariant
            open_input(cfg, graph, track@, phis@),
            n == cfg.blocks@.len(),
            b <= n,
            own@.len() == b,
            rows@.len() == b,
            forall|x: int| 0 <= x < b ==> takes_directly(cfg, graph, track@, x as usize, &(#[trigger] own@[x])),
            forall|x: int, c: usize|
                0 <= x < b ==> (#[trigger] rows@[x]@.contains(c) <==> takes_open(cfg, graph, track@, x as usize, Origin::Phi(c))),
            forall|x: int, k: int| 0 <= x < b && 0 <= k < rows@[x]@.len() ==> (#[trigger] rows@[x]@[k]) < n,
        decreases n - b,
    {
        let (s, row) = own_incomings(cfg, graph, track, phis, b);
        own.push(s);
        rows.push(row);
        b = b + 1;
    }
    let mut r: Vec<OpenUseSources> = Vec::new();
    let mut p: usize = 0;
    while p < n
        invariant
            open_input(cfg, graph, track@, phis@),
            n == cfg.blocks@.len(),
            p <= n,
            own@.len() == n,
            rows@.len() == n,
            forall|x: int| 0 <= x < n ==> takes_directly(cfg, graph, track@, x as usize, &(#[trigger] own@[x])),
            forall|x: int, c: usize|
                0 <= x < n ==> (#[trigger] rows@[x]@.contains(c) <==> takes_open(cfg, graph, track@, x as usize, Origin::Phi(c))),
            forall|x: int, k: int| 0 <= x < n && 0 <= k < rows@[x]@.len() ==> (#[trigger] rows@[x]@[k]) < n,
            r@.len() == p,
            forall|x: int| 0 <= x < p ==> has_sources(cfg, graph, track@, Origin::Phi(x as usize), &(#[trigger] r@[x])),
        decreases n - p,
    {
        let mut starts: Vec<usize> = Vec::new();
        starts.push(p);
        let seen = close(&rows, &starts);
        proof {
            assert forall|q: usize| #[trigger] flagged(seen@).contains(q) <==> reaches(open_upstream(cfg, graph, track@), p, q) by {
                closure_is_upstream(cfg, graph, track@, rows@, starts@, p, q);
            }
        }
        let sources = gather_sources(&own, &seen);
        proof {
            assert forall|q: usize| #[trigger] reaches(open_upstream(cfg, graph, track@), p, q) implies q < n by {
                assert(flagged(seen@).contains(q));
            }
            gathered_are_sources(cfg, graph, track@, own@, seen@, p, &sources);
        }
        r.push(sources);
        p = p + 1;
    }
    r
}

spec fn takes_directly(cfg: &Cfg, graph: &GraphFacts, track: TrackModel, b: usize, s: &OpenUseSources) -> bool {
    &&& s.has_entry == takes_open(cfg, graph, track, b, Origin::Entry)
    &&& forall|d: OpenDefId| #[trigger] s.defs@.contains(d) <==> takes_open(cfg, graph, track, b, Origin::Def(d.0))
}

proof fn closure_is_upstream(
    cfg: &Cfg,
    graph: &GraphFacts,
    track: TrackModel,
    rows: Seq<Vec<usize>>,
    starts: Seq<usize>,
    p: usize,
    q: usize,
)
    requires
        cfg.wf(),
        rows.len() == cfg.blocks@.len(),
        starts == seq![p],
        p < rows.len(),
        forall|x: int, c: usize|
            0 <= x < rows.len() ==> (#[trigger] rows[x]@.contains(c) <==> takes_open(cfg, graph, track, x as usize, Origin::Phi(c))),
    ensures
        closes_to(rows, starts, q) <==> reaches(open_upstream(cfg, graph, track), p, q),
{
    let adj = adjacent(rows);
    let step = open_upstream(cfg, graph, track);
    assert forall|x: usize, y: usize| #[trigger] adj(x, y) implies step(x, y) by {
        assert(rows[x as int]@.contains(y));
    }
    assert forall|x: usize, y: usize| #[trigger] step(x, y) implies adj(x, y) by {
        let e = choose|e: EdgeRef| #[trigger]
            cfg.has_edge(e) && cfg.edge(e).to == BlockRef(x) && cfg.is_reachable(cfg.edge(e).from) && track.leaving(
                cfg,
                &graph.dominator_tree.tree,
                open_phis(cfg, graph, track),
                cfg.edge(e).from.0,
            ) == Origin::Phi(y);
        assert(cfg.has_block(cfg.edge(e).to));
        assert(rows[x as int]@.contains(y));
    }
    assert(starts[0] == p);
    if closes_to(rows, starts, q) {
        reaches_monotone(adj, step, p, q);
    }
    if reaches(step, p, q) {
        reaches_monotone(step, adj, p, q);
    }
}

spec fn entry_below(own: Seq<OpenUseSources>, seen: Seq<bool>, n: int) -> bool {
    exists|x: int| 0 <= x < n && seen[x] && (#[trigger] own[x]).has_entry
}

spec fn def_below(own: Seq<OpenUseSources>, seen: Seq<bool>, n: int, d: OpenDefId) -> bool {
    exists|x: int| 0 <= x < n && seen[x] && (#[trigger] own[x]).defs@.contains(d)
}

/// The union of the flagged sources.
fn gather_sources(own: &Vec<OpenUseSources>, seen: &Vec<bool>) -> (r: OpenUseSources)
    requires
        own@.len() == seen@.len(),
    ensures
        r.has_entry == entry_below(own@, seen@, own@.len() as int),
        forall|d: OpenDefId| #[trigger] r.defs@.contains(d) <==> def_below(own@, seen@, own@.len() as int, d),
{
    let n = own.len();
    let mut r = OpenUseSources::new();
    let mut x: usize = 0;
    while x < n
        invariant
            n == own@.len(),
            own@.len() == seen@.len(),
            x <= n,
            r.has_entry == entry_below(own@, seen@, x as int),
            forall|d: OpenDefId| #[trigger] r.defs@.contains(d) <==> def_below(own@, seen@, x as int, d),
        decreases n - x,
    {
        let ghost was = r;
        if seen[x] {
            let _ = r.merge(&own[x]);
        }
        proof {
            if was.has_entry {
                let y = choose|y: int| 0 <= y < x && seen@[y] && (#[trigger] own@[y]).has_entry;
                assert(0 <= y < x + 1 && seen@[y] && own@[y].has_entry);
            }
            if r.has_entry && !was.has_entry {
                assert(seen@[x as int] && own@[x as int].has_entry);
            }
            assert forall|d: OpenDefId| #[trigger] r.defs@.contains(d) <==> def_below(own@, seen@, x as int + 1, d) by {
                if was.defs@.contains(d) {
                    let y = choose|y: int| 0 <= y < x && seen@[y] && (#[trigger] own@[y]).defs@.contains(d);
                    assert(0 <= y < x + 1 && seen@[y] && own@[y].defs@.contains(d));
                } else if r.defs@.contains(d) {
                    assert(seen@[x as int] && own@[x as int].defs@.contains(d));
                }
                if def_below(own@, seen@, x as int + 1, d) {
                    let y = choose|y: int| 0 <= y < x + 1 && seen@[y] && (#[trigger] own@[y]).defs@.contains(d);
                    if y < x {
                        assert(def_below(own@, seen@, x as int, d));
                        assert(was.defs@.contains(d));
                    }
                }
            }
        }
        x = x + 1;
    }
    r
}

proof fn source_through(cfg: &Cfg, graph: &GraphFacts, track: TrackModel, p: usize, q: usize, source: Origin)
    requires
        reaches(open_upstream(cfg, graph, track), p, q),
        takes_open(cfg, graph, track, q, source),
    ensures
        open_source(cfg, graph, track, Origin::Phi(p), source),
{
    assert(exists|q: usize| #[trigger] reaches(open_upstream(cfg, graph, track), p, q) && takes_open(cfg, graph, track, q, source));
    let o = Origin::Phi(p);
    assert(o is Phi && o->Phi_0 == p);
    assert(open_source(cfg, graph, track, o, source) == exists|q: usize| #[trigger] reaches(open_upstream(cfg, graph, track), p, q) && takes_open(cfg, graph, track, q, source));
}

proof fn gathered_are_sources(
    cfg: &Cfg,
    graph: &GraphFacts,
    track: TrackModel,
    own: Seq<OpenUseSources>,
    seen: Seq<bool>,
    p: usize,
    s: &OpenUseSources,
)
    requires
        own.len() == cfg.blocks@.len(),
        seen.len() == own.len(),
        forall|x: int| 0 <= x < own.len() ==> takes_directly(cfg, graph, track, x as usize, &(#[trigger] own[x])),
        forall|q: usize| #[trigger] flagged(seen).contains(q) <==> reaches(open_upstream(cfg, graph, track), p, q),
        s.has_entry == entry_below(own, seen, own.len() as int),
        forall|d: OpenDefId| #[trigger] s.defs@.contains(d) <==> def_below(own, seen, own.len() as int, d),
        own.len() <= usize::MAX,
    ensures
        has_sources(cfg, graph, track, Origin::Phi(p), s),
{
    let step = open_upstream(cfg, graph, track);
    if s.has_entry {
        let x = choose|x: int| 0 <= x < own.len() && seen[x] && (#[trigger] own[x]).has_entry;
        assert(flagged(seen).contains(x as usize));
        assert(takes_directly(cfg, graph, track, x as usize, &own[x]));
        let q = x as usize;
        assert(takes_open(cfg, graph, track, q, Origin::Entry));
        assert(reaches(open_upstream(cfg, graph, track), p, q));
        source_through(cfg, graph, track, p, q, Origin::Entry);
    }
    if open_source(cfg, graph, track, Origin::Phi(p), Origin::Entry) {
        let q = choose|q: usize| #[trigger] reaches(step, p, q) && takes_open(cfg, graph, track, q, Origin::Entry);
        assert(flagged(seen).contains(q));
        assert(takes_directly(cfg, graph, track, q, &own[q as int]));
        assert(seen[q as int] && own[q as int].has_entry);
        assert(entry_below(own, seen, own.len() as int));
    }
    assert forall|d: OpenDefId| #[trigger] s.defs@.contains(d) <==> open_source(cfg, graph, track, Origin::Phi(p), Origin::Def(d.0)) by {
        if s.defs@.contains(d) {
            let x = choose|x: int| 0 <= x < own.len() && seen[x] && (#[trigger] own[x]).defs@.contains(d);
            assert(flagged(seen).contains(x as usize));
            assert(takes_directly(cfg, graph, track, x as usize, &own[x]));
            let q = x as usize;
            assert(takes_open(cfg, graph, track, q, Origin::Def(d.0)));
            assert(reaches(open_upstream(cfg, graph, track), p, q));
            source_through(cfg, graph, track, p, q, Origin::Def(d.0));
        }
        if open_source(cfg, graph, track, Origin::Phi(p), Origin::Def(d.0)) {
            let q = choose|q: usize| #[trigger] reaches(step, p, q) && takes_open(cfg, graph, track, q, Origin::Def(d.0));
            assert(flagged(seen).contains(q));
            assert(takes_directly(cfg, graph, track, q, &own[q as int]));
            assert(seen[q as int] && own[q as int].defs@.contains(d));
            assert(def_below(own, seen, own.len() as int, d));
        }
    }
}

/// The smallest or largest first register of the first `n` packs.
pub open spec fn outer_start(defs: Seq<OpenDef>, ids: Seq<OpenDefId>, n: nat, largest: bool) -> Option<usize>
    decreases n,
{
    if n == 0 {
        None
    } else {
        let here = defs[ids[n - 1].0 as int].start_reg.0;
        match outer_start(defs, ids, (n - 1) as nat, largest) {
            Some(x) => Some(
                if (largest && here > x) || (!largest && here < x) {
                    here
                } else {
                    x
                },
            ),
            None => Some(here),
        }
    }
}

pub open spec fn clamped(x: usize, low: usize, high: usize) -> usize {
    if x < low {
        low
    } else if x > high {
        high
    } else {
        x
    }
}

/// Where the registers end that the pack surely fills with fixed values before its open part
/// begins, and where those end that it may fill.
pub open spec fn prefix_ends(
    s: &OpenUseSources,
    defs: Seq<OpenDef>,
    entry: Option<Reg>,
    start: usize,
    reg_count: usize,
) -> (usize, usize) {
    if s.has_entry && entry is None {
        (start, reg_count)
    } else {
        let ids = s.defs.seq();
        let low = outer_start(defs, ids, ids.len(), false);
        let high = outer_start(defs, ids, ids.len(), true);
        if s.has_entry {
            let e = (entry->0).0;
            (
                clamped(if low is None || e < low->0 { e } else { low->0 }, start, reg_count),
                clamped(if high is None || e > high->0 { e } else { high->0 }, start, reg_count),
            )
        } else if low is None {
            (start, start)
        } else {
            (clamped(low->0, start, reg_count), clamped(high->0, start, reg_count))
        }
    }
}

fn clamp(x: usize, low: usize, high: usize) -> (r: usize)
    ensures
        r == clamped(x, low, high),
{
    if x < low {
        low
    } else if x > high {
        high
    } else {
        x
    }
}

fn find_outer_start(defs: &Vec<OpenDef>, ids: &IdSet<OpenDefId>, largest: bool) -> (r: Option<usize>)
    requires
        forall|d: OpenDefId| #[trigger] ids@.contains(d) ==> d.0 < defs@.len(),
    ensures
        r == outer_start(defs@, ids.seq(), ids.seq().len(), largest),
        ids.seq().len() == 0 <==> r is None,
{
    let n = ids.len();
    let mut best: Option<usize> = None;
    let mut k: usize = 0;
    while k < n
        invariant
            n == ids.seq().len(),
            forall|d: OpenDefId| #[trigger] ids@.contains(d) ==> d.0 < defs@.len(),
            k <= n,
            best == outer_start(defs@, ids.seq(), k as nat, largest),
            k == 0 <==> best is None,
        decreases n - k,
    {
        let d = ids.at(k);
        let here = defs[d.0].start_reg.0;
        best = match best {
            Some(x) => if (largest && here > x) || (!largest && here < x) {
                Some(here)
            } else {
                Some(x)
            },
            None => Some(here),
        };
        k = k + 1;
    }
    best
}

pub fn fixed_prefix_ends(
    sources: &OpenUseSources,
    defs: &Vec<OpenDef>,
    entry_open_start: Option<Reg>,
    use_start: Reg,
    reg_count: usize,
) -> (r: (usize, usize))
    requires
        forall|d: OpenDefId| #[trigger] sources.defs@.contains(d) ==> d.0 < defs@.len(),
        use_start.0 <= reg_count,
    ensures
        r == prefix_ends(sources, defs@, entry_open_start, use_start.0, reg_count),
        use_start.0 <= r.0 <= r.1 <= reg_count,
{
    let start = use_start.0;
    if sources.has_entry && entry_open_start.is_none() {
        return (start, reg_count);
    }
    let low = find_outer_start(defs, &sources.defs, false);
    let high = find_outer_start(defs, &sources.defs, true);
    proof {
        outer_starts_ordered(defs@, sources.defs.seq(), sources.defs.seq().len());
    }
    if sources.has_entry {
        let e = entry_open_start.unwrap().0;
        let a = match low {
            Some(x) => if e < x {
                e
            } else {
                x
            },
            None => e,
        };
        let b = match high {
            Some(x) => if e > x {
                e
            } else {
                x
            },
            None => e,
        };
        return (clamp(a, start, reg_count), clamp(b, start, reg_count));
    }
    match (low, high) {
        (Some(a), Some(b)) => (clamp(a, start, reg_count), clamp(b, start, reg_count)),
        _ => (start, start),
    }
}

proof fn outer_starts_ordered(defs: Seq<OpenDef>, ids: Seq<OpenDefId>, n: nat)
    ensures
        outer_start(defs, ids, n, false) is None <==> n == 0,
        outer_start(defs, ids, n, true) is None <==> n == 0,
        n > 0 ==> outer_start(defs, ids, n, false)->0 <= outer_start(defs, ids, n, true)->0,
    decreases n,
{
    if n > 0 {
        outer_starts_ordered(defs, ids, (n - 1) as nat);
    }
}

/// What is known of the open packs of a prototype.
pub struct OpenAnalysis {
    pub defs: Vec<OpenDef>,
    pub use_sources: Vec<OpenUseSources>,
    pub fixed_ssa_use_regs: Vec<IdSet<Reg>>,
    pub fixed_liveness_use_regs: Vec<IdSet<Reg>>,
    pub live_in: Vec<bool>,
    pub live_out: Vec<bool>,
}

/// The value that instruction `i` reads of the pack.
pub open spec fn open_use_at(cfg: &Cfg, graph: &GraphFacts, track: TrackModel, i: int) -> Origin {
    track.held(cfg, &graph.dominator_tree.tree, open_phis(cfg, graph, track), cfg.instr_to_block@[i].0, i)
}

/// The sources at instruction `i`: those of what it reads, and none where it reads no pack or
/// is never reached.
pub open spec fn sources_at(cfg: &Cfg, graph: &GraphFacts, track: TrackModel, i: int, s: &OpenUseSources) -> bool {
    if track.reads[i] && cfg.is_reachable(cfg.instr_to_block@[i]) {
        has_sources(cfg, graph, track, open_use_at(cfg, graph, track, i), s)
    } else {
        !s.has_entry && s.defs@ == Set::<OpenDefId>::empty()
    }
}

/// The registers that an instruction reads, up to register `end` where it reads a pack.
pub open spec fn regs_up_to(effect: &InstrEffect, end: usize) -> Set<Reg> {
    Set::new(
        |r: Reg|
            effect.fixed_uses@.contains(r) || (effect.open_use is Some && (effect.open_use->0).0 <= r.0 < end),
    )
}

impl OpenAnalysis {
    /// The analysis is that of the prototype.
    pub open spec fn describes(
        &self,
        cfg: &Cfg,
        graph: &GraphFacts,
        effects: Seq<InstrEffect>,
        reg_count: usize,
        entry: Option<Reg>,
    ) -> bool {
        let track = open_track(effects, self.defs@);
        &&& self.defs@ == open_defs_upto(cfg, effects, cfg.block_order@.len())
        &&& self.live_in@.len() == cfg.blocks@.len()
        &&& self.live_out@.len() == cfg.blocks@.len()
        &&& forall|b: int| 0 <= b < cfg.blocks@.len() ==> #[trigger] self.live_in@[b] == track.live_in(cfg, BlockRef(b as usize))
        &&& forall|b: int| 0 <= b < cfg.blocks@.len() ==> #[trigger] self.live_out@[b] == track.live_out(cfg, BlockRef(b as usize))
        &&& self.use_sources@.len() == effects.len()
        &&& self.fixed_ssa_use_regs@.len() == effects.len()
        &&& self.fixed_liveness_use_regs@.len() == effects.len()
        &&& forall|i: int| 0 <= i < effects.len() ==> #[trigger] self.instr_ok(cfg, graph, effects, reg_count, entry, i)
    }

    pub open spec fn instr_ok(
        &self,
        cfg: &Cfg,
        graph: &GraphFacts,
        effects: Seq<InstrEffect>,
        reg_count: usize,
        entry: Option<Reg>,
        i: int,
    ) -> bool {
        let track = open_track(effects, self.defs@);
        let s = &self.use_sources@[i];
        let start = if effects[i].open_use is Some {
            (effects[i].open_use->0).0
        } else {
            0
        };
        let ends = prefix_ends(s, self.defs@, entry, start, reg_count);
        &&& sources_at(cfg, graph, track, i, s)
        &&& self.fixed_ssa_use_regs@[i]@ == regs_up_to(&effects[i], ends.0)
        &&& self.fixed_liveness_use_regs@[i]@ == regs_up_to(&effects[i], ends.1)
    }
}

/// A definition that arrives somewhere was made.
proof fn arriving_def_known(
    cfg: &Cfg,
    graph: &GraphFacts,
    effects: Seq<InstrEffect>,
    defs: Seq<OpenDef>,
    phis: Seq<Option<usize>>,
    b: usize,
)
    requires
        analysable(cfg),
        graph.sized(cfg),
        effects.len() == cfg.instr_to_block@.len(),
        phis.len() == cfg.blocks@.len(),
        defs.len() <= usize::MAX,
    ensures
        match open_track(effects, defs).arriving(cfg, &graph.dominator_tree.tree, phis, b) {
            Origin::Def(d) => d < defs.len(),
            _ => true,
        },
    decreases level(&graph.dominator_tree.tree, b),
{
    let tree = &graph.dominator_tree.tree;
    let track = open_track(effects, defs);
    if b < cfg.blocks@.len() && phis[b as int] is None {
        if let Some(d) = tree.parent@[b as int] {
            if level(tree, d) < level(tree, b) {
                parent_is_higher(tree, b);
                range_fits(cfg, BlockRef(d));
                arriving_def_known(cfg, graph, effects, defs, phis, d);
                let r = cfg.range(BlockRef(d));
                if r.len > 0 {
                    written_def_known(effects, defs, r.start.0 as int, r.end_at());
                }
            }
        }
    }
}

proof fn written_def_known(effects: Seq<InstrEffect>, defs: Seq<OpenDef>, start: int, end: int)
    requires
        0 <= start,
        end <= effects.len(),
        defs.len() <= usize::MAX,
    ensures
        match last_write(open_track(effects, defs).writes, start, end) {
            Some(d) => d < defs.len(),
            None => true,
        },
    decreases end - start,
{
    if start < end {
        written_def_known(effects, defs, start, end - 1);
        open_def_at_known(defs, end - 1, defs.len());
    }
}

proof fn open_def_at_known(defs: Seq<OpenDef>, i: int, n: nat)
    requires
        n <= usize::MAX,
    ensures
        match open_def_at(defs, i, n) {
            Some(d) => d < n,
            None => true,
        },
    decreases n,
{
    if n > 0 {
        open_def_at_known(defs, i, (n - 1) as nat);
    }
}

/// The sources name definitions that were made.
proof fn sources_known(
    cfg: &Cfg,
    graph: &GraphFacts,
    effects: Seq<InstrEffect>,
    defs: Seq<OpenDef>,
    o: Origin,
    s: &OpenUseSources,
)
    requires
        analysable(cfg),
        graph.sized(cfg),
        effects.len() == cfg.instr_to_block@.len(),
        defs.len() <= usize::MAX,
        has_sources(cfg, graph, open_track(effects, defs), o, s),
        match o {
            Origin::Def(d) => d < defs.len(),
            _ => true,
        },
    ensures
        forall|d: OpenDefId| #[trigger] s.defs@.contains(d) ==> d.0 < defs.len(),
{
    let track = open_track(effects, defs);
    let phis = open_phis(cfg, graph, track);
    assert forall|d: OpenDefId| #[trigger] s.defs@.contains(d) implies d.0 < defs.len() by {
        if o is Phi {
            let q = choose|q: usize| #[trigger]
                reaches(open_upstream(cfg, graph, track), o->Phi_0, q) && takes_open(cfg, graph, track, q, Origin::Def(d.0));
            let e = choose|e: EdgeRef| #[trigger]
                cfg.has_edge(e) && cfg.edge(e).to == BlockRef(q) && cfg.is_reachable(cfg.edge(e).from) && track.leaving(
                    cfg,
                    &graph.dominator_tree.tree,
                    phis,
                    cfg.edge(e).from.0,
                ) == Origin::Def(d.0);
            held_def_known(cfg, graph, effects, defs, phis, cfg.edge(e).from, cfg.range(cfg.edge(e).from).end_at());
        }
    }
}

proof fn held_def_known(
    cfg: &Cfg,
    graph: &GraphFacts,
    effects: Seq<InstrEffect>,
    defs: Seq<OpenDef>,
    phis: Seq<Option<usize>>,
    b: BlockRef,
    i: int,
)
    requires
        analysable(cfg),
        graph.sized(cfg),
        effects.len() == cfg.instr_to_block@.len(),
        phis.len() == cfg.blocks@.len(),
        defs.len() <= usize::MAX,
        cfg.has_block(b),
        i <= cfg.range(b).end_at(),
    ensures
        match open_track(effects, defs).held(cfg, &graph.dominator_tree.tree, phis, b.0, i) {
            Origin::Def(d) => d < defs.len(),
            _ => true,
        },
{
    range_fits(cfg, b);
    arriving_def_known(cfg, graph, effects, defs, phis, b.0);
    let r = cfg.range(b);
    if r.len > 0 {
        written_def_known(effects, defs, r.start.0 as int, i);
    }
}

fn sources_of(
    cfg: &Cfg,
    graph: &GraphFacts,
    track: &Track,
    phi_sources: &Vec<OpenUseSources>,
    o: Origin,
) -> (r: OpenUseSources)
    requires
        phi_sources@.len() == cfg.blocks@.len(),
        forall|b: int|
            0 <= b < phi_sources@.len() ==> has_sources(cfg, graph, track@, Origin::Phi(b as usize), &(#[trigger] phi_sources@[b])),
        match o {
            Origin::Phi(p) => p < cfg.blocks@.len(),
            _ => true,
        },
    ensures
        has_sources(cfg, graph, track@, o, &r),
{
    let mut r = OpenUseSources::new();
    match o {
        Origin::Entry => {
            r.has_entry = true;
        },
        Origin::Def(d) => {
            let _ = r.insert_def(OpenDefId(d));
            assert forall|x: OpenDefId| #[trigger] r.defs@.contains(x) <==> open_source(cfg, graph, track@, o, Origin::Def(x.0)) by {
                assert(x == OpenDefId(d) <==> x.0 == d);
            }
        },
        Origin::Phi(p) => {
            assert(has_sources(cfg, graph, track@, Origin::Phi(p), &phi_sources@[p as int]));
            let _ = r.merge(&phi_sources[p]);
            assert(r.defs@ =~= phi_sources@[p as int].defs@);
        },
    }
    r
}

/// The registers that an instruction reads, with those of its pack up to `end`.
fn extend_regs(effect: &InstrEffect, end: usize) -> (r: IdSet<Reg>)
    ensures
        r@ == regs_up_to(effect, end),
{
    let mut r = effect.fixed_uses.clone();
    if let Some(start) = effect.open_use {
        let mut k: usize = start.0;
        while k < end
            invariant
                effect.open_use == Some(start),
                start.0 <= k,
                k <= end || k == start.0,
                r@ =~= regs_up_to(effect, k),
            decreases end - k,
        {
            let _ = r.insert(Reg(k));
            k = k + 1;
            assert forall|x: Reg| #[trigger] r@.contains(x) <==> regs_up_to(effect, k).contains(x) by {
                assert(x.0 == k - 1 ==> x == Reg((k - 1) as usize));
            }
        }
        assert(r@ =~= regs_up_to(effect, end));
    } else {
        assert(r@ =~= regs_up_to(effect, end));
    }
    r
}

/// Finds the open packs, where they live, what can arrive at each use, and which registers
/// an open use reads as fixed values.
pub fn analyze_open_values(
    cfg: &Cfg,
    graph: &GraphFacts,
    effects: &Vec<InstrEffect>,
    reg_count: usize,
    entry_open_start: Option<Reg>,
) -> (r: OpenAnalysis)
    requires
        analysable(cfg),
        graph.sized(cfg),
        effects@.len() == cfg.instr_to_block@.len(),
        forall|i: int|
            0 <= i < effects@.len() && (#[trigger] effects@[i]).open_use is Some ==> (effects@[i].open_use->0).0 <= reg_count,
    ensures
        r.describes(cfg, graph, effects@, reg_count, entry_open_start),
{
    let total = effects.len();
    let (defs, writes) = collect_open_defs(cfg, effects);
    let mut reads: Vec<bool> = Vec::new();
    let mut i: usize = 0;
    while i < total
        invariant
            total == effects@.len(),
            i <= total,
            reads@.len() == i,
            forall|k: int| 0 <= k < i ==> #[trigger] reads@[k] == (effects@[k].open_use is Some),
        decreases total - i,
    {
        reads.push(effects[i].open_use.is_some());
        i = i + 1;
    }
    let track = Track { reads, writes };
    assert(track@.reads =~= open_track(effects@, defs@).reads);
    assert(track@ == open_track(effects@, defs@));
    let (live_in, live_out) = track.solve_liveness(cfg);
    let placed = track.place_phis(cfg, graph, &live_in);
    let n = cfg.blocks.len();
    let mut phis: Vec<Option<usize>> = Vec::new();
    let mut b: usize = 0;
    while b < n
        invariant
            n == cfg.blocks@.len(),
            placed@.len() == n,
            forall|k: int| 0 <= k < n ==> #[trigger] placed@[k] == track@.needs_phi(cfg, graph, k as usize),
            b <= n,
            phis@.len() == b,
            forall|k: int| 0 <= k < b ==> #[trigger] phis@[k] == open_phis(cfg, graph, track@)[k],
        decreases n - b,
    {
        phis.push(
            if placed[b] {
                Some(b)
            } else {
                None
            },
        );
        b = b + 1;
    }
    assert(phis@ =~= open_phis(cfg, graph, track@));
    let phi_sources = index_open_phi_sources(cfg, graph, &track, &phis);
    let mut r = OpenAnalysis {
        defs,
        use_sources: Vec::new(),
        fixed_ssa_use_regs: Vec::new(),
        fixed_liveness_use_regs: Vec::new(),
        live_in,
        live_out,
    };
    let mut k: usize = 0;
    while k < total
        invariant
            open_input(cfg, graph, track@, phis@),
            total == effects@.len(),
            effects@.len() == cfg.instr_to_block@.len(),
            forall|i: int|
                0 <= i < effects@.len() && (#[trigger] effects@[i]).open_use is Some ==> (effects@[i].open_use->0).0 <= reg_count,
            r.defs@ == open_defs_upto(cfg, effects@, cfg.block_order@.len()),
            track@ == open_track(effects@, r.defs@),
            phi_sources@.len() == cfg.blocks@.len(),
            forall|b: int|
                0 <= b < phi_sources@.len() ==> has_sources(cfg, graph, track@, Origin::Phi(b as usize), &(#[trigger] phi_sources@[b])),
            r.live_in@.len() == cfg.blocks@.len(),
            r.live_out@.len() == cfg.blocks@.len(),
            forall|b: int| 0 <= b < cfg.blocks@.len() ==> #[trigger] r.live_in@[b] == track@.live_in(cfg, BlockRef(b as usize)),
            forall|b: int| 0 <= b < cfg.blocks@.len() ==> #[trigger] r.live_out@[b] == track@.live_out(cfg, BlockRef(b as usize)),
            k <= total,
            r.use_sources@.len() == k,
            r.fixed_ssa_use_regs@.len() == k,
            r.fixed_liveness_use_regs@.len() == k,
            forall|i: int| 0 <= i < k ==> #[trigger] r.instr_ok(cfg, graph, effects@, reg_count, entry_open_start, i),
        decreases total - k,
    {
        let at = cfg.instr_to_block[k];
        assert(cfg.has_block(cfg.instr_to_block@[k as int]));
        let sources = if track.reads[k] && cfg.reachable_blocks.contains(at) {
            let o = track.find_held(cfg, &graph.dominator_tree.tree, &phis, at.0, k);
            proof {
                arriving_phi_known(cfg, graph, track@, at.0);
                assert(r.defs.len() <= usize::MAX);
                held_def_known(cfg, graph, effects@, r.defs@, phis@, at, k as int);
            }
            let s = sources_of(cfg, graph, &track, &phi_sources, o);
            proof {
                sources_known(cfg, graph, effects@, r.defs@, o, &s);
            }
            s
        } else {
            OpenUseSources::new()
        };
        assert(sources_at(cfg, graph, track@, k as int, &sources));
        let (must_end, may_end) = match effects[k].open_use {
            Some(start) => fixed_prefix_ends(&sources, &r.defs, entry_open_start, start, reg_count),
            None => (0, 0),
        };
        let ssa = extend_regs(&effects[k], must_end);
        let liveness = extend_regs(&effects[k], may_end);
        let ghost before = r;
        r.use_sources.push(sources);
        r.fixed_ssa_use_regs.push(ssa);
        r.fixed_liveness_use_regs.push(liveness);
        proof {
            assert forall|i: int| 0 <= i < k + 1 implies #[trigger] r.instr_ok(cfg, graph, effects@, reg_count, entry_open_start, i) by {
                if i < k {
                    assert(before.instr_ok(cfg, graph, effects@, reg_count, entry_open_start, i));
                } else if effects@[i].open_use is None {
                    let ends = prefix_ends(&r.use_sources@[i], r.defs@, entry_open_start, 0, reg_count);
                    assert(regs_up_to(&effects@[i], ends.0) =~= regs_up_to(&effects@[i], 0));
                    assert(regs_up_to(&effects@[i], ends.1) =~= regs_up_to(&effects@[i], 0));
                }
            }
        }
        k = k + 1;
    }
    r
}

} // verus!
