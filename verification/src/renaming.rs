//! Phis of the fixed registers and the values that reach every place.

use vstd::prelude::*;

use crate::cfg::Cfg;
use crate::collapse::{
    flows_of, flows_within, is_kept, number_kept, remap_value, renumbered, renumbered_within, replacements,
    replacements_within, trivial_phi_replacements, within,
};
use crate::dataflow::{Def, DefId, InstrUseValues, PhiCandidate, PhiId, PhiIncoming, PhiRange, SsaRegMap, SsaValue};
use crate::graph::GraphFacts;
use crate::ids::{BlockRef, Reg};
use crate::idset::IdSet;
use crate::search::count_where;
use crate::ssa::{def_at, defs_placed, reg_track, track_register, BlockLiveness};
use crate::tracks::{analysable, last_write, level, parent_is_higher, range_fits, Origin, Track, TrackModel};
use crate::uses::{incomings_within, index_uses, nothing_is_missing, reads_within, UseIndex};

verus! {

/// What the renaming reads.
pub struct SsaInput<'a> {
    pub cfg: &'a Cfg,
    pub graph: &'a GraphFacts,
    pub defs: &'a Vec<Def>,
    /// The registers that each instruction reads.
    pub uses: &'a Vec<IdSet<Reg>>,
    /// The registers that each instruction may read.
    pub live_uses: &'a Vec<IdSet<Reg>>,
    pub live: &'a BlockLiveness,
    pub reg_count: usize,
}

/// The last of the first `n` sites that is this one.
pub open spec fn site_at(sites: Seq<(BlockRef, Reg)>, b: BlockRef, r: Reg, n: nat) -> Option<usize>
    decreases n,
{
    if n == 0 {
        None
    } else if sites[n - 1] == (b, r) {
        Some((n - 1) as usize)
    } else {
        site_at(sites, b, r, (n - 1) as nat)
    }
}

/// The value of a register that comes from `o`.
pub open spec fn value_from(o: Origin, r: Reg) -> SsaValue {
    match o {
        Origin::Entry => SsaValue::Entry(r),
        Origin::Def(d) => SsaValue::Def(DefId(d)),
        Origin::Phi(p) => SsaValue::Phi(PhiId(p)),
    }
}

fn to_value(o: Origin, r: Reg) -> (v: SsaValue)
    ensures
        v == value_from(o, r),
{
    match o {
        Origin::Entry => SsaValue::Entry(r),
        Origin::Def(d) => SsaValue::Def(DefId(d)),
        Origin::Phi(p) => SsaValue::Phi(PhiId(p)),
    }
}

impl<'a> SsaInput<'a> {
    pub open spec fn wf(&self) -> bool {
        &&& analysable(self.cfg)
        &&& self.graph.sized(self.cfg)
        &&& self.live_uses@.len() == self.cfg.instr_to_block@.len()
        &&& self.uses@.len() == self.cfg.instr_to_block@.len()
        &&& defs_placed(self.defs@, self.live_uses@.len())
        &&& self.live.describes(self.cfg, self.live_uses@, self.defs@, self.reg_count)
        &&& forall|i: int, x: Reg|
            0 <= i < self.uses@.len() && #[trigger] self.uses@[i]@.contains(x) ==> x.0 < self.reg_count
    }

    pub open spec fn track(&self, r: Reg) -> TrackModel {
        reg_track(self.live_uses@, self.defs@, r)
    }

    /// `acc`, then the phis of the first `n` registers at block `b`.
    pub open spec fn sites_in(&self, b: BlockRef, n: nat, acc: Seq<(BlockRef, Reg)>) -> Seq<(BlockRef, Reg)>
        decreases n,
    {
        if n == 0 {
            acc
        } else {
            let rest = self.sites_in(b, (n - 1) as nat, acc);
            let r = Reg((n - 1) as usize);
            if self.track(r).needs_phi(self.cfg, self.graph, b.0) {
                rest.push((b, r))
            } else {
                rest
            }
        }
    }

    /// The phis of the first `k` blocks: by block, then by register.
    pub open spec fn sites_upto(&self, k: nat) -> Seq<(BlockRef, Reg)>
        decreases k,
    {
        if k == 0 {
            Seq::empty()
        } else {
            self.sites_in(BlockRef((k - 1) as usize), self.reg_count as nat, self.sites_upto((k - 1) as nat))
        }
    }

    pub open spec fn sites(&self) -> Seq<(BlockRef, Reg)> {
        self.sites_upto(self.cfg.blocks@.len())
    }

    /// The phis of one register, by block.
    pub open spec fn phis_for(&self, r: Reg) -> Seq<Option<usize>> {
        Seq::new(
            self.cfg.blocks@.len(),
            |b: int| site_at(self.sites(), BlockRef(b as usize), r, self.sites().len()),
        )
    }

    /// The value of a register at the entry of a block.
    pub open spec fn entry_value(&self, b: BlockRef, r: Reg) -> SsaValue {
        value_from(self.track(r).arriving(self.cfg, &self.graph.dominator_tree.tree, self.phis_for(r), b.0), r)
    }

    /// The value of a register at the end of a block.
    pub open spec fn exit_value(&self, b: BlockRef, r: Reg) -> SsaValue {
        value_from(self.track(r).leaving(self.cfg, &self.graph.dominator_tree.tree, self.phis_for(r), b.0), r)
    }

    /// The value of a register before an instruction.
    pub open spec fn value_before(&self, i: int, r: Reg) -> SsaValue {
        value_from(
            self.track(r).held(
                self.cfg,
                &self.graph.dominator_tree.tree,
                self.phis_for(r),
                self.cfg.instr_to_block@[i].0,
                i,
            ),
            r,
        )
    }

    /// What flows into the phi of `r` at `b` over the first `n` ways in; where the function
    /// begins, the initial value comes first.
    pub open spec fn incoming_upto(&self, b: BlockRef, r: Reg, n: nat) -> Seq<PhiIncoming>
        decreases n,
    {
        if n == 0 {
            if b == self.cfg.entry_block {
                seq![PhiIncoming { edge: None, pred: None, value: SsaValue::Entry(r) }]
            } else {
                Seq::empty()
            }
        } else {
            let rest = self.incoming_upto(b, r, (n - 1) as nat);
            let e = self.cfg.in_edges(b)[n - 1];
            let from = self.cfg.edge(e).from;
            if self.cfg.is_reachable(from) {
                rest.push(PhiIncoming { edge: Some(e), pred: Some(from), value: self.exit_value(from, r) })
            } else {
                rest
            }
        }
    }

    /// What flows into phi `p`.
    pub open spec fn incoming_of(&self, p: int) -> Seq<PhiIncoming> {
        let (b, r) = self.sites()[p];
        self.incoming_upto(b, r, self.cfg.in_edges(b).len())
    }

    /// The variables of all registers.
    fn collect_tracks(&self) -> (r: Vec<Track>)
        requires
            self.wf(),
        ensures
            r@.len() == self.reg_count,
            forall|x: int| 0 <= x < r@.len() ==> (#[trigger] r@[x])@ == self.track(Reg(x as usize)),
    {
        let mut r: Vec<Track> = Vec::new();
        let mut x: usize = 0;
        while x < self.reg_count
            invariant
                self.wf(),
                x <= self.reg_count,
                r@.len() == x,
                forall|k: int| 0 <= k < x ==> (#[trigger] r@[k])@ == self.track(Reg(k as usize)),
            decreases self.reg_count - x,
        {
            r.push(track_register(self.live_uses, self.defs, Reg(x)));
            x = x + 1;
        }
        r
    }

    /// For each register, the blocks at whose entry it is live.
    fn live_mask(&self, r: Reg) -> (mask: Vec<bool>)
        requires
            self.wf(),
            r.0 < self.reg_count,
        ensures
            mask@.len() == self.cfg.blocks@.len(),
            forall|b: int|
                0 <= b < mask@.len() ==> #[trigger] mask@[b] == self.track(r).live_in(self.cfg, BlockRef(b as usize)),
    {
        let n = self.cfg.blocks.len();
        let mut mask: Vec<bool> = Vec::new();
        let mut b: usize = 0;
        while b < n
            invariant
                self.wf(),
                r.0 < self.reg_count,
                n == self.cfg.blocks@.len(),
                b <= n,
                mask@.len() == b,
                forall|k: int| 0 <= k < b ==> #[trigger] mask@[k] == self.track(r).live_in(self.cfg, BlockRef(k as usize)),
            decreases n - b,
        {
            mask.push(self.live.live_in[b].contains(r));
            b = b + 1;
        }
        mask
    }

    /// Lists the phis by block, then by register.
    fn place(&self, tracks: &Vec<Track>) -> (sites: Vec<(BlockRef, Reg)>)
        requires
            self.wf(),
            tracks@.len() == self.reg_count,
            forall|x: int| 0 <= x < tracks@.len() ==> (#[trigger] tracks@[x])@ == self.track(Reg(x as usize)),
        ensures
            sites@ == self.sites(),
            forall|k: int| 0 <= k < sites@.len() ==> self.cfg.has_block((#[trigger] sites@[k]).0) && sites@[k].1.0 < self.reg_count,
    {
        let n = self.cfg.blocks.len();
        let m = self.reg_count;
        let mut placed: Vec<Vec<bool>> = Vec::new();
        let mut x: usize = 0;
        while x < m
            invariant
                self.wf(),
                m == self.reg_count,
                tracks@.len() == m,
                forall|k: int| 0 <= k < tracks@.len() ==> (#[trigger] tracks@[k])@ == self.track(Reg(k as usize)),
                x <= m,
                placed@.len() == x,
                forall|k: int| 0 <= k < x ==> (#[trigger] placed@[k])@.len() == self.cfg.blocks@.len(),
                forall|k: int, b: int|
                    0 <= k < x && 0 <= b < self.cfg.blocks@.len() ==> #[trigger] placed@[k]@[b] == self.track(Reg(k as usize)).needs_phi(
                        self.cfg,
                        self.graph,
                        b as usize,
                    ),
            decreases m - x,
        {
            let live = self.live_mask(Reg(x));
            let row = tracks[x].place_phis(self.cfg, self.graph, &live);
            placed.push(row);
            x = x + 1;
        }
        let mut sites: Vec<(BlockRef, Reg)> = Vec::new();
        let mut b: usize = 0;
        while b < n
            invariant
                n == self.cfg.blocks@.len(),
                m == self.reg_count,
                b <= n,
                placed@.len() == m,
                forall|k: int| 0 <= k < m ==> (#[trigger] placed@[k])@.len() == n,
                forall|k: int, b: int|
                    0 <= k < m && 0 <= b < n ==> #[trigger] placed@[k]@[b] == self.track(Reg(k as usize)).needs_phi(
                        self.cfg,
                        self.graph,
                        b as usize,
                    ),
                sites@ == self.sites_upto(b as nat),
                forall|k: int| 0 <= k < sites@.len() ==> self.cfg.has_block((#[trigger] sites@[k]).0) && sites@[k].1.0 < m,
            decreases n - b,
        {
            let ghost acc = sites@;
            let mut r: usize = 0;
            while r < m
                invariant
                    b < n,
                    n == self.cfg.blocks@.len(),
                    r <= m,
                    m == self.reg_count,
                    placed@.len() == m,
                    forall|k: int| 0 <= k < m ==> (#[trigger] placed@[k])@.len() == n,
                    forall|k: int, b: int|
                        0 <= k < m && 0 <= b < n ==> #[trigger] placed@[k]@[b] == self.track(Reg(k as usize)).needs_phi(
                            self.cfg,
                            self.graph,
                            b as usize,
                        ),
                    sites@ == self.sites_in(BlockRef(b), r as nat, acc),
                    forall|k: int| 0 <= k < sites@.len() ==> self.cfg.has_block((#[trigger] sites@[k]).0) && sites@[k].1.0 < m,
                decreases m - r,
            {
                assert(placed@[r as int]@[b as int] == self.track(Reg(r)).needs_phi(self.cfg, self.graph, b));
                if placed[r][b] {
                    sites.push((BlockRef(b), Reg(r)));
                }
                r = r + 1;
            }
            b = b + 1;
        }
        sites
    }

    /// The phis of each register, by block.
    fn name_phis(&self, sites: &Vec<(BlockRef, Reg)>) -> (names: Vec<Vec<Option<usize>>>)
        requires
            sites@ == self.sites(),
            forall|k: int|
                0 <= k < sites@.len() ==> self.cfg.has_block((#[trigger] sites@[k]).0) && sites@[k].1.0 < self.reg_count,
        ensures
            names@.len() == self.reg_count,
            forall|x: int| 0 <= x < names@.len() ==> (#[trigger] names@[x])@ == self.phis_for(Reg(x as usize)),
    {
        let n = self.cfg.blocks.len();
        let mut names: Vec<Vec<Option<usize>>> = Vec::new();
        let mut x: usize = 0;
        while x < self.reg_count
            invariant
                n == self.cfg.blocks@.len(),
                sites@ == self.sites(),
                forall|k: int|
                    0 <= k < sites@.len() ==> self.cfg.has_block((#[trigger] sites@[k]).0) && sites@[k].1.0 < self.reg_count,
                x <= self.reg_count,
                names@.len() == x,
                forall|k: int| 0 <= k < x ==> (#[trigger] names@[k])@ == self.phis_for(Reg(k as usize)),
            decreases self.reg_count - x,
        {
            let mut row: Vec<Option<usize>> = vec![None; n];
            let total = sites.len();
            let mut k: usize = 0;
            while k < total
                invariant
                    n == self.cfg.blocks@.len(),
                    total == sites@.len(),
                    k <= total,
                    row@.len() == n,
                    forall|q: int|
                        0 <= q < sites@.len() ==> self.cfg.has_block((#[trigger] sites@[q]).0) && sites@[q].1.0 < self.reg_count,
                    forall|b: int|
                        0 <= b < n ==> #[trigger] row@[b] == site_at(sites@, BlockRef(b as usize), Reg(x), k as nat),
                decreases total - k,
            {
                let (b, r) = sites[k];
                assert(self.cfg.has_block(sites@[k as int].0));
                if r.0 == x {
                    row[b.0] = Some(k);
                }
                proof {
                    assert(sites@[k as int] == (b, r));
                    assert(r.0 == x <==> r == Reg(x));
                }
                k = k + 1;
            }
            assert(row@ =~= self.phis_for(Reg(x)));
            names.push(row);
            x = x + 1;
        }
        names
    }
}

/// The values of registers, by register.
pub open spec fn value_list(regs: Seq<Reg>, values: spec_fn(Reg) -> SsaValue) -> Seq<(Reg, SsaValue)> {
    Seq::new(regs.len(), |k: int| (regs[k], values(regs[k])))
}

impl<'a> SsaInput<'a> {
    /// The values that flow into each phi.
    pub open spec fn flows(&self) -> Seq<Seq<SsaValue>> {
        Seq::new(
            self.sites().len(),
            |p: int| Seq::new(self.incoming_of(p).len(), |j: int| self.incoming_of(p)[j].value),
        )
    }

    /// What the phis stand for.
    pub open spec fn standing(&self) -> Seq<SsaValue> {
        replacements(self.flows())
    }

    /// The value in its last form.
    pub open spec fn named(&self, v: SsaValue) -> SsaValue {
        renumbered(self.standing(), v)
    }

    pub open spec fn named_incoming(&self, p: int) -> Seq<PhiIncoming> {
        Seq::new(
            self.incoming_of(p).len(),
            |j: int| PhiIncoming { value: self.named(self.incoming_of(p)[j].value), ..self.incoming_of(p)[j] },
        )
    }

    pub open spec fn named_entry(&self, b: BlockRef) -> spec_fn(Reg) -> SsaValue {
        |r: Reg| self.named(self.entry_value(b, r))
    }

    pub open spec fn named_exit(&self, b: BlockRef) -> spec_fn(Reg) -> SsaValue {
        |r: Reg| self.named(self.exit_value(b, r))
    }

    pub open spec fn named_before(&self, i: int) -> spec_fn(Reg) -> SsaValue {
        |r: Reg| self.named(self.value_before(i, r))
    }

    /// The phi is what became of phi `p`.
    pub open spec fn is_phi(&self, phi: &PhiCandidate, p: int) -> bool {
        &&& phi.id == PhiId(count_where(p as nat, is_kept(self.standing())) as usize)
        &&& phi.block == self.sites()[p].0
        &&& phi.reg == self.sites()[p].1
        &&& phi.incoming@ == self.named_incoming(p)
    }

    /// The registers that instruction `i` reads, when it can be reached.
    pub open spec fn read_list(&self, i: int) -> Seq<(Reg, SsaValue)> {
        if self.cfg.is_reachable(self.cfg.instr_to_block@[i]) {
            value_list(self.uses@[i].seq(), self.named_before(i))
        } else {
            Seq::empty()
        }
    }

    /// A value that arrives somewhere is there.
    proof fn arriving_within(&self, r: Reg, b: usize)
        requires
            self.wf(),
            self.sites().len() <= usize::MAX,
            self.defs@.len() <= usize::MAX,
        ensures
            within(
                value_from(self.track(r).arriving(self.cfg, &self.graph.dominator_tree.tree, self.phis_for(r), b), r),
                self.sites().len(),
                self.defs@.len(),
            ),
        decreases level(&self.graph.dominator_tree.tree, b),
    {
        let tree = &self.graph.dominator_tree.tree;
        let phis = self.phis_for(r);
        if b < self.cfg.blocks@.len() {
            site_known(self.sites(), BlockRef(b), r, self.sites().len());
            assert(phis[b as int] == site_at(self.sites(), BlockRef(b), r, self.sites().len()));
            if phis[b as int] is None {
                if let Some(d) = tree.parent@[b as int] {
                    if level(tree, d) < level(tree, b) {
                        parent_is_higher(tree, b);
                        range_fits(self.cfg, BlockRef(d));
                        self.arriving_within(r, d);
                        let range = self.cfg.range(BlockRef(d));
                        if range.len > 0 {
                            written_known(self.live_uses@, self.defs@, r, range.start.0 as int, range.end_at());
                        }
                    }
                }
            }
        }
    }

    proof fn held_within(&self, r: Reg, b: BlockRef, i: int)
        requires
            self.wf(),
            self.sites().len() <= usize::MAX,
            self.defs@.len() <= usize::MAX,
            self.cfg.has_block(b),
            i <= self.cfg.range(b).end_at(),
        ensures
            within(
                value_from(self.track(r).held(self.cfg, &self.graph.dominator_tree.tree, self.phis_for(r), b.0, i), r),
                self.sites().len(),
                self.defs@.len(),
            ),
    {
        range_fits(self.cfg, b);
        self.arriving_within(r, b.0);
        let range = self.cfg.range(b);
        if range.len > 0 {
            written_known(self.live_uses@, self.defs@, r, range.start.0 as int, i);
        }
    }

    proof fn incoming_within(&self, b: BlockRef, r: Reg, n: nat)
        requires
            self.wf(),
            self.sites().len() <= usize::MAX,
            self.defs@.len() <= usize::MAX,
            self.cfg.has_block(b),
            n <= self.cfg.in_edges(b).len(),
        ensures
            forall|j: int|
                0 <= j < self.incoming_upto(b, r, n).len() ==> within(
                    (#[trigger] self.incoming_upto(b, r, n)[j]).value,
                    self.sites().len(),
                    self.defs@.len(),
                ),
        decreases n,
    {
        if n > 0 {
            self.incoming_within(b, r, (n - 1) as nat);
            let e = self.cfg.in_edges(b)[n - 1];
            let from = self.cfg.edge(e).from;
            assert(self.cfg.has_edge(e));
            self.held_within(r, from, self.cfg.range(from).end_at());
            let rest = self.incoming_upto(b, r, (n - 1) as nat);
            let all = self.incoming_upto(b, r, n);
            assert forall|j: int| 0 <= j < all.len() implies within((#[trigger] all[j]).value, self.sites().len(), self.defs@.len()) by {
                if j < rest.len() {
                    assert(all[j] == rest[j]);
                }
            }
        }
    }

    proof fn all_flows_within(&self)
        requires
            self.wf(),
            self.sites().len() <= usize::MAX,
            self.defs@.len() <= usize::MAX,
            forall|k: int| 0 <= k < self.sites().len() ==> self.cfg.has_block((#[trigger] self.sites()[k]).0),
        ensures
            flows_within(self.flows(), self.flows().len(), self.defs@.len()),
    {
        let flows = self.flows();
        assert forall|p: int, j: int| 0 <= p < flows.len() && 0 <= j < flows[p].len() implies within(
            #[trigger] flows[p][j],
            flows.len(),
            self.defs@.len(),
        ) by {
            let (b, r) = self.sites()[p];
            assert(self.cfg.has_block(self.sites()[p].0));
            self.incoming_within(b, r, self.cfg.in_edges(b).len());
            assert(flows[p][j] == self.incoming_of(p)[j].value);
        }
    }

    /// What flows into the phi of `r` at `b`.
    fn collect_incoming(&self, track: &Track, names: &Vec<Option<usize>>, b: BlockRef, r: Reg) -> (list: Vec<PhiIncoming>)
        requires
            self.wf(),
            self.cfg.has_block(b),
            track@ == self.track(r),
            names@ == self.phis_for(r),
        ensures
            list@ == self.incoming_upto(b, r, self.cfg.in_edges(b).len()),
    {
        let mut list: Vec<PhiIncoming> = Vec::new();
        if b == self.cfg.entry_block {
            list.push(PhiIncoming { edge: None, pred: None, value: SsaValue::Entry(r) });
        }
        assert(list@ =~= self.incoming_upto(b, r, 0));
        let n = self.cfg.preds[b.0].len();
        let mut k: usize = 0;
        while k < n
            invariant
                self.wf(),
                self.cfg.has_block(b),
                track@ == self.track(r),
                names@ == self.phis_for(r),
                n == self.cfg.in_edges(b).len(),
                k <= n,
                list@ == self.incoming_upto(b, r, k as nat),
            decreases n - k,
        {
            let e = self.cfg.preds[b.0][k];
            assert(e == self.cfg.in_edges(b)[k as int]);
            let from = self.cfg.edges[e.0].from;
            if self.cfg.reachable_blocks.contains(from) {
                let o = track.find_leaving(self.cfg, &self.graph.dominator_tree.tree, names, from.0);
                list.push(PhiIncoming { edge: Some(e), pred: Some(from), value: to_value(o, r) });
            }
            k = k + 1;
        }
        list
    }

    /// The phis before any is replaced.
    fn collect_phis(
        &self,
        tracks: &Vec<Track>,
        names: &Vec<Vec<Option<usize>>>,
        sites: &Vec<(BlockRef, Reg)>,
    ) -> (phis: Vec<PhiCandidate>)
        requires
            self.wf(),
            tracks@.len() == self.reg_count,
            forall|x: int| 0 <= x < tracks@.len() ==> (#[trigger] tracks@[x])@ == self.track(Reg(x as usize)),
            names@.len() == self.reg_count,
            forall|x: int| 0 <= x < names@.len() ==> (#[trigger] names@[x])@ == self.phis_for(Reg(x as usize)),
            sites@ == self.sites(),
            forall|k: int|
                0 <= k < sites@.len() ==> self.cfg.has_block((#[trigger] sites@[k]).0) && sites@[k].1.0 < self.reg_count,
        ensures
            phis@.len() == sites@.len(),
            forall|p: int|
                0 <= p < phis@.len() ==> (#[trigger] phis@[p]).block == sites@[p].0 && phis@[p].reg == sites@[p].1 && phis@[p].incoming@
                    == self.incoming_of(p),
            forall|p: int| 0 <= p < phis@.len() ==> (#[trigger] phis@[p]).id.0 == p,
            flows_of(phis@) == self.flows(),
    {
        let n = sites.len();
        let mut phis: Vec<PhiCandidate> = Vec::new();
        let mut p: usize = 0;
        while p < n
            invariant
                self.wf(),
                tracks@.len() == self.reg_count,
                forall|x: int| 0 <= x < tracks@.len() ==> (#[trigger] tracks@[x])@ == self.track(Reg(x as usize)),
                names@.len() == self.reg_count,
                forall|x: int| 0 <= x < names@.len() ==> (#[trigger] names@[x])@ == self.phis_for(Reg(x as usize)),
                n == sites@.len(),
                sites@ == self.sites(),
                forall|k: int|
                    0 <= k < sites@.len() ==> self.cfg.has_block((#[trigger] sites@[k]).0) && sites@[k].1.0 < self.reg_count,
                p <= n,
                phis@.len() == p,
                forall|q: int| 0 <= q < p ==> (#[trigger] phis@[q]).id.0 == q,
                forall|q: int|
                    0 <= q < p ==> (#[trigger] phis@[q]).block == sites@[q].0 && phis@[q].reg == sites@[q].1 && phis@[q].incoming@
                        == self.incoming_of(q),
            decreases n - p,
        {
            let (b, r) = sites[p];
            assert(self.cfg.has_block(sites@[p as int].0));
            assert(r == Reg(r.0));
            let incoming = self.collect_incoming(&tracks[r.0], &names[r.0], b, r);
            phis.push(PhiCandidate { id: PhiId(p), block: b, reg: r, incoming });
            p = p + 1;
        }
        proof {
            let flows = self.flows();
            assert(flows_of(phis@).len() == flows.len());
            assert forall|q: int| 0 <= q < flows.len() implies #[trigger] flows_of(phis@)[q] == flows[q] by {
                assert(phis@[q].incoming@ == self.incoming_of(q));
                assert(flows_of(phis@)[q] =~= flows[q]);
            }
            assert(flows_of(phis@) =~= flows);
        }
        phis
    }
}

proof fn site_known(sites: Seq<(BlockRef, Reg)>, b: BlockRef, r: Reg, n: nat)
    requires
        n <= usize::MAX,
    ensures
        match site_at(sites, b, r, n) {
            Some(k) => k < n,
            None => true,
        },
    decreases n,
{
    if n > 0 {
        site_known(sites, b, r, (n - 1) as nat);
    }
}

proof fn def_known(defs: Seq<Def>, r: Reg, i: int, n: nat)
    requires
        n <= usize::MAX,
    ensures
        match def_at(defs, r, i, n) {
            Some(k) => k < n,
            None => true,
        },
    decreases n,
{
    if n > 0 {
        def_known(defs, r, i, (n - 1) as nat);
    }
}

proof fn written_known(uses: Seq<IdSet<Reg>>, defs: Seq<Def>, r: Reg, start: int, end: int)
    requires
        0 <= start,
        end <= uses.len(),
        defs.len() <= usize::MAX,
    ensures
        match last_write(reg_track(uses, defs, r).writes, start, end) {
            Some(d) => d < defs.len(),
            None => true,
        },
    decreases end - start,
{
    if start < end {
        written_known(uses, defs, r, start, end - 1);
        def_known(defs, r, end - 1, defs.len());
    }
}

/// The values of the fixed registers of a prototype.
pub struct SsaAnalysis {
    pub phis: Vec<PhiCandidate>,
    pub phi_block_ranges: Vec<PhiRange>,
    pub block_entry_values: Vec<SsaRegMap>,
    pub block_exit_values: Vec<SsaRegMap>,
    pub use_values: Vec<InstrUseValues>,
    pub uses: UseIndex,
}

pub open spec fn block_below(phis: Seq<PhiCandidate>, b: int) -> spec_fn(int) -> bool {
    |k: int| phis[k].block.0 < b
}

/// The phis of block `b` stand in this range.
pub open spec fn is_range(phis: Seq<PhiCandidate>, b: int, r: PhiRange) -> bool {
    &&& r.start as nat == count_where(phis.len(), block_below(phis, b))
    &&& r.end as nat == count_where(phis.len(), block_below(phis, b + 1))
}

impl SsaAnalysis {
    /// The phis and values are those of the input.
    pub open spec fn describes(&self, input: &SsaInput) -> bool {
        let n = input.cfg.blocks@.len();
        &&& self.phis@.len() == count_where(input.sites().len(), is_kept(input.standing()))
        &&& forall|p: int|
            0 <= p < input.sites().len() && is_kept(input.standing())(p) ==> #[trigger] self.holds_phi(input, p)
        &&& self.phi_block_ranges@.len() == n
        &&& forall|b: int| 0 <= b < n ==> is_range(self.phis@, b, #[trigger] self.phi_block_ranges@[b])
        &&& self.block_entry_values@.len() == n
        &&& forall|b: int| 0 <= b < n ==> (#[trigger] self.block_entry_values@[b])@ == value_list(
            input.live.live_in@[b].seq(),
            input.named_entry(BlockRef(b as usize)),
        )
        &&& self.block_exit_values@.len() == n
        &&& forall|b: int| 0 <= b < n ==> (#[trigger] self.block_exit_values@[b])@ == value_list(
            input.live.live_out@[b].seq(),
            input.named_exit(BlockRef(b as usize)),
        )
        &&& self.use_values@.len() == input.uses@.len()
        &&& forall|i: int| 0 <= i < input.uses@.len() ==> (#[trigger] self.use_values@[i]).fixed@ == input.read_list(i)
        &&& reads_within(self.use_values@, self.phis@.len(), input.defs@.len())
        &&& incomings_within(self.phis@, input.defs@.len())
        &&& self.uses.describes(input.cfg, input.defs@.len(), self.phis@, self.use_values@)
    }

    /// What became of phi `p` stands at its place.
    pub open spec fn holds_phi(&self, input: &SsaInput, p: int) -> bool {
        input.is_phi(&self.phis@[count_where(p as nat, is_kept(input.standing())) as int], p)
    }
}

/// The names under which the values go at last.
struct Names {
    standing: Vec<SsaValue>,
    numbers: Vec<usize>,
}

impl<'a> SsaInput<'a> {
    spec fn names_ok(&self, names: &Names) -> bool {
        &&& self.wf()
        &&& self.sites().len() <= usize::MAX
        &&& self.defs@.len() <= usize::MAX
        &&& forall|k: int| 0 <= k < self.sites().len() ==> self.cfg.has_block((#[trigger] self.sites()[k]).0)
        &&& names.standing@ == self.standing()
        &&& names.standing@.len() == self.sites().len()
        &&& names.numbers@.len() == names.standing@.len()
        &&& forall|p: int|
            0 <= p < names.numbers@.len() ==> (#[trigger] names.numbers@[p]) as nat == count_where(p as nat, is_kept(self.standing()))
    }

    fn name_value(&self, names: &Names, v: SsaValue) -> (r: SsaValue)
        requires
            self.names_ok(names),
            within(v, self.sites().len(), self.defs@.len()),
        ensures
            r == self.named(v),
            within(r, count_where(self.sites().len(), is_kept(self.standing())), self.defs@.len()),
    {
        proof {
            self.all_flows_within();
            replacements_within(self.flows(), v, self.defs@.len());
            renumbered_within(self.flows(), v, self.defs@.len());
        }
        remap_value(&names.standing, &names.numbers, v)
    }

    /// The phis that are kept, under their new names.
    fn keep_phis(&self, names: &Names, raw: &Vec<PhiCandidate>) -> (phis: Vec<PhiCandidate>)
        requires
            self.names_ok(names),
            raw@.len() == self.sites().len(),
            forall|p: int|
                0 <= p < raw@.len() ==> (#[trigger] raw@[p]).block == self.sites()[p].0 && raw@[p].reg == self.sites()[p].1
                    && raw@[p].incoming@ == self.incoming_of(p),
        ensures
            phis@.len() == count_where(self.sites().len(), is_kept(self.standing())),
            forall|p: int|
                0 <= p < self.sites().len() && is_kept(self.standing())(p) ==> self.is_phi(
                    &phis@[#[trigger] count_where(p as nat, is_kept(self.standing())) as int],
                    p,
                ),
            forall|k: int, j: int|
                0 <= k < phis@.len() && 0 <= j < phis@[k].incoming@.len() ==> within(
                    (#[trigger] phis@[k].incoming@[j]).value,
                    phis@.len(),
                    self.defs@.len(),
                ),
            forall|a: int, b: int| 0 <= a < b < phis@.len() ==> (#[trigger] phis@[a]).block.0 <= (#[trigger] phis@[b]).block.0,
    {
        let n = raw.len();
        let ghost kept = is_kept(self.standing());
        let ghost total = count_where(self.sites().len(), kept);
        let mut phis: Vec<PhiCandidate> = Vec::new();
        let mut p: usize = 0;
        while p < n
            invariant
                self.names_ok(names),
                n == raw@.len(),
                n == self.sites().len(),
                kept == is_kept(self.standing()),
                total == count_where(self.sites().len(), kept),
                forall|q: int|
                    0 <= q < raw@.len() ==> (#[trigger] raw@[q]).block == self.sites()[q].0 && raw@[q].reg == self.sites()[q].1
                        && raw@[q].incoming@ == self.incoming_of(q),
                p <= n,
                phis@.len() == count_where(p as nat, kept),
                forall|q: int|
                    0 <= q < p && kept(q) ==> count_where(q as nat, kept) < phis@.len() && self.is_phi(
                        &phis@[#[trigger] count_where(q as nat, kept) as int],
                        q,
                    ),
                forall|k: int, j: int|
                    0 <= k < phis@.len() && 0 <= j < phis@[k].incoming@.len() ==> within(
                        (#[trigger] phis@[k].incoming@[j]).value,
                        total,
                        self.defs@.len(),
                    ),
                forall|k: int| 0 <= k < phis@.len() ==> self.came_before(p as int, &(#[trigger] phis@[k])),
                forall|a: int, b: int| 0 <= a < b < phis@.len() ==> (#[trigger] phis@[a]).block.0 <= (#[trigger] phis@[b]).block.0,
            decreases n - p,
        {
            let keep = names.standing[p] == SsaValue::Phi(PhiId(p));
            assert(keep == kept(p as int));
            let ghost before = phis@;
            if keep {
                let m = raw[p].incoming.len();
                let mut incoming: Vec<PhiIncoming> = Vec::new();
                let mut j: usize = 0;
                while j < m
                    invariant
                        self.names_ok(names),
                        n == raw@.len(),
                        n == self.sites().len(),
                        p < n,
                        m == raw@[p as int].incoming@.len(),
                        raw@[p as int].incoming@ == self.incoming_of(p as int),
                        total == count_where(self.sites().len(), is_kept(self.standing())),
                        j <= m,
                        incoming@ =~= self.named_incoming(p as int).subrange(0, j as int),
                        forall|q: int| 0 <= q < incoming@.len() ==> within((#[trigger] incoming@[q]).value, total, self.defs@.len()),
                    decreases m - j,
                {
                    let item = raw[p].incoming[j];
                    proof {
                        let (b, r) = self.sites()[p as int];
                        assert(self.cfg.has_block(self.sites()[p as int].0));
                        self.incoming_within(b, r, self.cfg.in_edges(b).len());
                        assert(within(self.incoming_of(p as int)[j as int].value, self.sites().len(), self.defs@.len()));
                    }
                    let value = self.name_value(names, item.value);
                    incoming.push(PhiIncoming { edge: item.edge, pred: item.pred, value });
                    j = j + 1;
                }
                assert(incoming@ =~= self.named_incoming(p as int));
                let id = PhiId(phis.len());
                phis.push(PhiCandidate { id, block: raw[p].block, reg: raw[p].reg, incoming });
            }
            proof {
                assert forall|k: int| 0 <= k < phis@.len() implies self.came_before(p as int + 1, &(#[trigger] phis@[k])) by {
                    if k < before.len() {
                        assert(self.came_before(p as int, &before[k]));
                        let q = choose|q: int| 0 <= q < p && before[k].block == (#[trigger] self.sites()[q]).0;
                        assert(0 <= q < p + 1 && phis@[k].block == self.sites()[q].0);
                    } else {
                        assert(phis@[k].block == self.sites()[p as int].0);
                    }
                }
                assert forall|a: int, b: int| 0 <= a < b < phis@.len() implies (#[trigger] phis@[a]).block.0 <= (#[trigger] phis@[b]).block.0 by {
                    if b >= before.len() {
                        assert(self.came_before(p as int, &before[a]));
                        let q = choose|q: int| 0 <= q < p && before[a].block == (#[trigger] self.sites()[q]).0;
                        self.sites_ordered(self.cfg.blocks@.len());
                        assert(self.sites()[q].0.0 <= self.sites()[p as int].0.0);
                    }
                }
                assert forall|q: int| 0 <= q < p + 1 && kept(q) implies count_where(q as nat, kept) < phis@.len() && self.is_phi(
                    &phis@[#[trigger] count_where(q as nat, kept) as int],
                    q,
                ) by {
                    if q < p {
                        assert(count_where(q as nat, kept) < before.len());
                        assert(phis@[count_where(q as nat, kept) as int] == before[count_where(q as nat, kept) as int]);
                    }
                }
            }
            p = p + 1;
        }
        phis
    }

    spec fn came_before(&self, n: int, phi: &PhiCandidate) -> bool {
        exists|q: int| 0 <= q < n && phi.block == (#[trigger] self.sites()[q]).0
    }

    /// The phis stand by block.
    proof fn sites_ordered(&self, k: nat)
        requires
            k <= usize::MAX,
        ensures
            forall|a: int, b: int|
                0 <= a < b < self.sites_upto(k).len() ==> (#[trigger] self.sites_upto(k)[a]).0.0 <= (#[trigger] self.sites_upto(k)[b]).0.0,
            forall|a: int| 0 <= a < self.sites_upto(k).len() ==> (#[trigger] self.sites_upto(k)[a]).0.0 < k,
        decreases k,
    {
        if k > 0 {
            self.sites_ordered((k - 1) as nat);
            self.sites_in_ordered(BlockRef((k - 1) as usize), self.reg_count as nat, self.sites_upto((k - 1) as nat));
        }
    }

    proof fn sites_in_ordered(&self, b: BlockRef, n: nat, acc: Seq<(BlockRef, Reg)>)
        requires
            forall|x: int, y: int| 0 <= x < y < acc.len() ==> (#[trigger] acc[x]).0.0 <= (#[trigger] acc[y]).0.0,
            forall|x: int| 0 <= x < acc.len() ==> (#[trigger] acc[x]).0.0 <= b.0,
        ensures
            forall|x: int, y: int|
                0 <= x < y < self.sites_in(b, n, acc).len() ==> (#[trigger] self.sites_in(b, n, acc)[x]).0.0 <= (
                #[trigger] self.sites_in(b, n, acc)[y]).0.0,
            forall|x: int| 0 <= x < self.sites_in(b, n, acc).len() ==> (#[trigger] self.sites_in(b, n, acc)[x]).0.0 <= b.0,
        decreases n,
    {
        if n > 0 {
            self.sites_in_ordered(b, (n - 1) as nat, acc);
            let rest = self.sites_in(b, (n - 1) as nat, acc);
            let all = self.sites_in(b, n, acc);
            assert forall|x: int| 0 <= x < all.len() implies (#[trigger] all[x]).0.0 <= b.0 by {
                if x < rest.len() {
                    assert(all[x] == rest[x]);
                }
            }
            assert forall|x: int, y: int| 0 <= x < y < all.len() implies (#[trigger] all[x]).0.0 <= (#[trigger] all[y]).0.0 by {
                if y < rest.len() {
                    assert(all[x] == rest[x] && all[y] == rest[y]);
                }
            }
        }
    }

    /// The values of the registers at the entry, or at the end, of a block.
    fn snapshot(
        &self,
        names: &Names,
        tracks: &Vec<Track>,
        phis: &Vec<Vec<Option<usize>>>,
        b: usize,
        at_end: bool,
    ) -> (r: SsaRegMap)
        requires
            self.names_ok(names),
            tracks@.len() == self.reg_count,
            forall|x: int| 0 <= x < tracks@.len() ==> (#[trigger] tracks@[x])@ == self.track(Reg(x as usize)),
            phis@.len() == self.reg_count,
            forall|x: int| 0 <= x < phis@.len() ==> (#[trigger] phis@[x])@ == self.phis_for(Reg(x as usize)),
            b < self.cfg.blocks@.len(),
        ensures
            r@ == if at_end {
                value_list(self.live.live_out@[b as int].seq(), self.named_exit(BlockRef(b)))
            } else {
                value_list(self.live.live_in@[b as int].seq(), self.named_entry(BlockRef(b)))
            },
    {
        let regs = if at_end {
            &self.live.live_out[b]
        } else {
            &self.live.live_in[b]
        };
        let ghost f = if at_end {
            self.named_exit(BlockRef(b))
        } else {
            self.named_entry(BlockRef(b))
        };
        let n = regs.len();
        let tree = &self.graph.dominator_tree.tree;
        let mut entries: Vec<(Reg, SsaValue)> = Vec::new();
        let mut k: usize = 0;
        while k < n
            invariant
                self.names_ok(names),
                tracks@.len() == self.reg_count,
                forall|x: int| 0 <= x < tracks@.len() ==> (#[trigger] tracks@[x])@ == self.track(Reg(x as usize)),
                phis@.len() == self.reg_count,
                forall|x: int| 0 <= x < phis@.len() ==> (#[trigger] phis@[x])@ == self.phis_for(Reg(x as usize)),
                b < self.cfg.blocks@.len(),
                tree == &self.graph.dominator_tree.tree,
                *regs == (if at_end {
                    self.live.live_out@[b as int]
                } else {
                    self.live.live_in@[b as int]
                }),
                f == (if at_end {
                    self.named_exit(BlockRef(b))
                } else {
                    self.named_entry(BlockRef(b))
                }),
                n == regs.seq().len(),
                k <= n,
                entries@ =~= value_list(regs.seq(), f).subrange(0, k as int),
            decreases n - k,
        {
            let r = regs.at(k);
            assert(regs@.contains(r));
            assert(r.0 < self.reg_count);
            assert(r == Reg(r.0));
            let o = if at_end {
                tracks[r.0].find_leaving(self.cfg, tree, &phis[r.0], b)
            } else {
                tracks[r.0].find_arriving(self.cfg, tree, &phis[r.0], b)
            };
            proof {
                self.held_within(r, BlockRef(b), self.cfg.range(BlockRef(b)).end_at());
                self.arriving_within(r, b);
            }
            let v = self.name_value(names, to_value(o, r));
            entries.push((r, v));
            k = k + 1;
        }
        assert(entries@ =~= value_list(regs.seq(), f));
        SsaRegMap::from_sorted_entries(entries)
    }
}

/// Indexes the phis by block.
pub fn index_phi_candidate_ranges(cfg: &Cfg, phis: &Vec<PhiCandidate>) -> (r: Vec<PhiRange>)
    requires
        forall|a: int, b: int| 0 <= a < b < phis@.len() ==> (#[trigger] phis@[a]).block.0 <= (#[trigger] phis@[b]).block.0,
    ensures
        r@.len() == cfg.blocks@.len(),
        forall|b: int| 0 <= b < r@.len() ==> is_range(phis@, b, #[trigger] r@[b]),
{
    let n = cfg.blocks.len();
    let total = phis.len();
    let mut r: Vec<PhiRange> = Vec::new();
    let mut next: usize = 0;
    let mut b: usize = 0;
    proof {
        count_below_split(phis@, 0, 0, phis@.len());
    }
    while b < n
        invariant
            n == cfg.blocks@.len(),
            total == phis@.len(),
            forall|x: int, y: int| 0 <= x < y < phis@.len() ==> (#[trigger] phis@[x]).block.0 <= (#[trigger] phis@[y]).block.0,
            b <= n,
            next <= total,
            next as nat == count_where(phis@.len(), block_below(phis@, b as int)),
            forall|k: int| 0 <= k < next ==> (#[trigger] phis@[k]).block.0 < b,
            forall|k: int| next <= k < total ==> (#[trigger] phis@[k]).block.0 >= b,
            r@.len() == b,
            forall|q: int| 0 <= q < b ==> is_range(phis@, q, #[trigger] r@[q]),
        decreases n - b,
    {
        let start = next;
        while next < total && phis[next].block.0 == b
            invariant
                total == phis@.len(),
                start <= next <= total,
                forall|k: int| 0 <= k < start ==> (#[trigger] phis@[k]).block.0 < b,
                forall|k: int| start <= k < next ==> (#[trigger] phis@[k]).block.0 == b,
                forall|k: int| start <= k < total ==> (#[trigger] phis@[k]).block.0 >= b,
            decreases total - next,
        {
            next = next + 1;
        }
        proof {
            assert forall|k: int| next <= k < total implies (#[trigger] phis@[k]).block.0 >= b + 1 by {
                if k > next {
                    assert(phis@[next as int].block.0 <= phis@[k].block.0);
                }
            }
            count_below_split(phis@, next as int, b as int + 1, phis@.len());
        }
        r.push(PhiRange { start, end: next });
        b = b + 1;
    }
    r
}

/// Where the first `m` phis lie below `b` and the others do not, `m` of them lie below.
pub proof fn count_below_split(phis: Seq<PhiCandidate>, m: int, b: int, n: nat)
    requires
        0 <= m <= phis.len(),
        n <= phis.len(),
        forall|k: int| 0 <= k < m ==> (#[trigger] phis[k]).block.0 < b,
        forall|k: int| m <= k < phis.len() ==> (#[trigger] phis[k]).block.0 >= b,
    ensures
        count_where(n, block_below(phis, b)) == if n < m {
            n
        } else {
            m as nat
        },
    decreases n,
{
    if n > 0 {
        count_below_split(phis, m, b, (n - 1) as nat);
        assert(block_below(phis, b)(n - 1) == (phis[n - 1].block.0 < b));
    }
}

impl<'a> SsaInput<'a> {
    /// What instruction `i` reads.
    fn read_values(&self, names: &Names, tracks: &Vec<Track>, phis: &Vec<Vec<Option<usize>>>, i: usize) -> (r: SsaRegMap)
        requires
            self.names_ok(names),
            tracks@.len() == self.reg_count,
            forall|x: int| 0 <= x < tracks@.len() ==> (#[trigger] tracks@[x])@ == self.track(Reg(x as usize)),
            phis@.len() == self.reg_count,
            forall|x: int| 0 <= x < phis@.len() ==> (#[trigger] phis@[x])@ == self.phis_for(Reg(x as usize)),
            i < self.uses@.len(),
        ensures
            r@ == self.read_list(i as int),
            forall|k: int|
                0 <= k < r@.len() ==> within(
                    (#[trigger] r@[k]).1,
                    count_where(self.sites().len(), is_kept(self.standing())),
                    self.defs@.len(),
                ),
    {
        let b = self.cfg.instr_to_block[i];
        assert(self.cfg.has_block(self.cfg.instr_to_block@[i as int]));
        let mut entries: Vec<(Reg, SsaValue)> = Vec::new();
        if !self.cfg.reachable_blocks.contains(b) {
            assert(entries@ =~= self.read_list(i as int));
            return SsaRegMap::from_sorted_entries(entries);
        }
        let regs = &self.uses[i];
        let ghost f = self.named_before(i as int);
        let n = regs.len();
        let tree = &self.graph.dominator_tree.tree;
        let mut k: usize = 0;
        while k < n
            invariant
                self.names_ok(names),
                tracks@.len() == self.reg_count,
                forall|x: int| 0 <= x < tracks@.len() ==> (#[trigger] tracks@[x])@ == self.track(Reg(x as usize)),
                phis@.len() == self.reg_count,
                forall|x: int| 0 <= x < phis@.len() ==> (#[trigger] phis@[x])@ == self.phis_for(Reg(x as usize)),
                i < self.uses@.len(),
                b == self.cfg.instr_to_block@[i as int],
                self.cfg.has_block(b),
                tree == &self.graph.dominator_tree.tree,
                *regs == self.uses@[i as int],
                f == self.named_before(i as int),
                n == regs.seq().len(),
                k <= n,
                entries@ =~= value_list(regs.seq(), f).subrange(0, k as int),
                forall|q: int|
                    0 <= q < entries@.len() ==> within(
                        (#[trigger] entries@[q]).1,
                        count_where(self.sites().len(), is_kept(self.standing())),
                        self.defs@.len(),
                    ),
            decreases n - k,
        {
            let r = regs.at(k);
            assert(self.uses@[i as int]@.contains(r));
            assert(r == Reg(r.0));
            let o = tracks[r.0].find_held(self.cfg, tree, &phis[r.0], b.0, i);
            proof {
                self.held_within(r, b, i as int);
            }
            let v = self.name_value(names, to_value(o, r));
            entries.push((r, v));
            k = k + 1;
        }
        assert(entries@ =~= value_list(regs.seq(), f));
        SsaRegMap::from_sorted_entries(entries)
    }

    /// Places the phis, finds every value, and lets phis that stand for a single value go.
    pub fn build_ssa(&self) -> (r: SsaAnalysis)
        requires
            self.wf(),
        ensures
            r.describes(self),
    {
        let tracks = self.collect_tracks();
        let sites = self.place(&tracks);
        let phi_names = self.name_phis(&sites);
        let raw = self.collect_phis(&tracks, &phi_names, &sites);
        proof {
            assert(sites.len() <= usize::MAX);
            assert(self.defs.len() <= usize::MAX);
            self.all_flows_within();
            assert forall|p: int, j: int| 0 <= p < raw@.len() && 0 <= j < raw@[p].incoming@.len() implies match (
            #[trigger] raw@[p].incoming@[j]).value {
                SsaValue::Phi(q) => q.0 < raw@.len(),
                _ => true,
            } by {
                assert(within(self.flows()[p][j], self.flows().len(), self.defs@.len()));
            }
        }
        let standing = trivial_phi_replacements(&raw);
        let numbers = number_kept(&standing);
        let names = Names { standing, numbers };
        proof {
            assert(sites.len() <= usize::MAX);
            assert(self.defs.len() <= usize::MAX);
            assert(self.names_ok(&names));
        }
        let phis = self.keep_phis(&names, &raw);
        let phi_block_ranges = index_phi_candidate_ranges(self.cfg, &phis);
        let n = self.cfg.blocks.len();
        let mut block_entry_values: Vec<SsaRegMap> = Vec::new();
        let mut block_exit_values: Vec<SsaRegMap> = Vec::new();
        let mut b: usize = 0;
        while b < n
            invariant
                self.names_ok(&names),
                tracks@.len() == self.reg_count,
                forall|x: int| 0 <= x < tracks@.len() ==> (#[trigger] tracks@[x])@ == self.track(Reg(x as usize)),
                phi_names@.len() == self.reg_count,
                forall|x: int| 0 <= x < phi_names@.len() ==> (#[trigger] phi_names@[x])@ == self.phis_for(Reg(x as usize)),
                n == self.cfg.blocks@.len(),
                b <= n,
                block_entry_values@.len() == b,
                block_exit_values@.len() == b,
                forall|q: int| 0 <= q < b ==> (#[trigger] block_entry_values@[q])@ == value_list(
                    self.live.live_in@[q].seq(),
                    self.named_entry(BlockRef(q as usize)),
                ),
                forall|q: int| 0 <= q < b ==> (#[trigger] block_exit_values@[q])@ == value_list(
                    self.live.live_out@[q].seq(),
                    self.named_exit(BlockRef(q as usize)),
                ),
            decreases n - b,
        {
            block_entry_values.push(self.snapshot(&names, &tracks, &phi_names, b, false));
            block_exit_values.push(self.snapshot(&names, &tracks, &phi_names, b, true));
            b = b + 1;
        }
        let total = self.uses.len();
        let mut use_values: Vec<InstrUseValues> = Vec::new();
        let mut i: usize = 0;
        while i < total
            invariant
                self.names_ok(&names),
                tracks@.len() == self.reg_count,
                forall|x: int| 0 <= x < tracks@.len() ==> (#[trigger] tracks@[x])@ == self.track(Reg(x as usize)),
                phi_names@.len() == self.reg_count,
                forall|x: int| 0 <= x < phi_names@.len() ==> (#[trigger] phi_names@[x])@ == self.phis_for(Reg(x as usize)),
                total == self.uses@.len(),
                i <= total,
                use_values@.len() == i,
                forall|q: int| 0 <= q < i ==> (#[trigger] use_values@[q]).fixed@ == self.read_list(q),
                forall|q: int, k: int|
                    0 <= q < i && 0 <= k < use_values@[q].fixed@.len() ==> within(
                        (#[trigger] use_values@[q].fixed@[k]).1,
                        count_where(self.sites().len(), is_kept(self.standing())),
                        self.defs@.len(),
                    ),
            decreases total - i,
        {
            let fixed = self.read_values(&names, &tracks, &phi_names, i);
            use_values.push(InstrUseValues { fixed });
            i = i + 1;
        }
        proof {
            nothing_is_missing(self.cfg, self.defs@.len(), phis@, use_values@);
        }
        let uses = index_uses(self.cfg, self.defs.len(), &phis, &use_values).unwrap();
        let r = SsaAnalysis { phis, phi_block_ranges, block_entry_values, block_exit_values, use_values, uses };
        proof {
            let kept = is_kept(self.standing());
            assert forall|p: int| 0 <= p < self.sites().len() && kept(p) implies #[trigger] r.holds_phi(self, p) by {
                assert(self.is_phi(&phis@[count_where(p as nat, kept) as int], p));
            }
        }
        r
    }
}

} // verus!
