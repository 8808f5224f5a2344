//! What the queries on dataflow facts promise together: of definitions, of the phis of a
//! block, and of reads in blocks outside a set.

use vstd::prelude::*;

use crate::cfg::Cfg;
use crate::collapse::{is_kept, within};
use crate::compute::{level_computable, level_facts, made_of, same_effect, ProtoEffects};
use crate::dataflow::{
    carries, feeds, flows_in, upstream, used_outside, DataflowFacts, Def, DefId, InstrEffect, InstrUseValues,
    PhiCandidate, PhiId, PhiRange, SsaValue, UseSite,
};
use crate::graph::GraphFacts;
use crate::ids::{BlockRef, InstrRef, Reg};
use crate::open_values::OpenAnalysis;
use crate::renaming::{block_below, count_below_split, is_range, SsaAnalysis, SsaInput};
use crate::search::{count_where, count_where_monotone, first_where, first_where_least};
use crate::ssa::{defs_in, defs_of, defs_upto, ids_at, BlockLiveness};
use crate::tracks::{analysable, range_fits};
use crate::uses::{incomings_within, reads_within, sites_in, sites_of, users_in, users_of};
use crate::walk::{closed_set_holds_reachable, reaches, reaches_reversed, reaches_self, reaches_then_step, reaches_transitive};

verus! {

/// Some definition is the one that instruction `i` makes of a register.
spec fn is_defined(defs: Seq<Def>, i: int, reg: Reg) -> bool {
    exists|d: int| 0 <= d < defs.len() && (#[trigger] defs[d]).instr.0 == i && defs[d].reg == reg
}

/// A definition is one that its instruction makes, in the block of that instruction.
spec fn is_made(cfg: &Cfg, effects: Seq<InstrEffect>, d: Def) -> bool {
    &&& d.instr.0 < effects.len()
    &&& effects[d.instr.0 as int].fixed_must_defs.seq().contains(d.reg)
    &&& d.block == cfg.instr_to_block@[d.instr.0 as int]
}

proof fn defs_of_known(regs: Seq<Reg>, b: BlockRef, i: int, n: nat, acc: Seq<Def>)
    requires
        0 <= i <= usize::MAX,
        n <= regs.len(),
    ensures
        acc.is_prefix_of(defs_of(regs, b, i, n, acc)),
        forall|d: int| acc.len() <= d < defs_of(regs, b, i, n, acc).len() ==> {
            let x = #[trigger] defs_of(regs, b, i, n, acc)[d];
            x.instr.0 == i && x.block == b && regs.contains(x.reg)
        },
        forall|k: int| 0 <= k < n ==> is_defined(defs_of(regs, b, i, n, acc), i, #[trigger] regs[k]),
    decreases n,
{
    if n > 0 {
        defs_of_known(regs, b, i, (n - 1) as nat, acc);
        let rest = defs_of(regs, b, i, (n - 1) as nat, acc);
        let all = defs_of(regs, b, i, n, acc);
        assert(rest.is_prefix_of(all));
        assert(all[rest.len() as int].reg == regs[n - 1]);
        assert forall|d: int| acc.len() <= d < all.len() implies {
            let x = #[trigger] all[d];
            x.instr.0 == i && x.block == b && regs.contains(x.reg)
        } by {
            if d < rest.len() {
                assert(all[d] == rest[d]);
            }
        }
        assert forall|k: int| 0 <= k < n implies is_defined(all, i, #[trigger] regs[k]) by {
            if k < n - 1 {
                assert(is_defined(rest, i, regs[k]));
                let d = choose|d: int| 0 <= d < rest.len() && (#[trigger] rest[d]).instr.0 == i && rest[d].reg == regs[k];
                assert(all[d] == rest[d]);
            }
        }
    }
}

proof fn still_defined(a: Seq<Def>, b: Seq<Def>, i: int, reg: Reg)
    requires
        a.is_prefix_of(b),
        is_defined(a, i, reg),
    ensures
        is_defined(b, i, reg),
{
    let d = choose|d: int| 0 <= d < a.len() && (#[trigger] a[d]).instr.0 == i && a[d].reg == reg;
    assert(b[d] == a[d]);
}

proof fn defs_in_known(cfg: &Cfg, effects: Seq<InstrEffect>, b: BlockRef, start: int, i: int, acc: Seq<Def>)
    requires
        0 <= start,
        i <= effects.len(),
        effects.len() <= usize::MAX,
        forall|j: int| start <= j < i ==> #[trigger] cfg.instr_to_block@[j] == b,
        forall|d: int| 0 <= d < acc.len() ==> is_made(cfg, effects, #[trigger] acc[d]),
    ensures
        acc.is_prefix_of(defs_in(effects, b, start, i, acc)),
        forall|d: int|
            0 <= d < defs_in(effects, b, start, i, acc).len() ==> is_made(
                cfg,
                effects,
                #[trigger] defs_in(effects, b, start, i, acc)[d],
            ),
        forall|j: int, reg: Reg|
            start <= j < i && #[trigger] effects[j].fixed_must_defs.seq().contains(reg) ==> is_defined(
                defs_in(effects, b, start, i, acc),
                j,
                reg,
            ),
    decreases i - start,
{
    if i > start {
        let rest = defs_in(effects, b, start, i - 1, acc);
        let all = defs_in(effects, b, start, i, acc);
        let regs = effects[i - 1].fixed_must_defs.seq();
        defs_in_known(cfg, effects, b, start, i - 1, acc);
        defs_of_known(regs, b, i - 1, regs.len(), rest);
        assert(cfg.instr_to_block@[i - 1] == b);
        assert forall|d: int| 0 <= d < all.len() implies is_made(cfg, effects, #[trigger] all[d]) by {
            if d < rest.len() {
                assert(all[d] == rest[d]);
            }
        }
        assert forall|j: int, reg: Reg|
            start <= j < i && #[trigger] effects[j].fixed_must_defs.seq().contains(reg) implies is_defined(all, j, reg) by {
            if j < i - 1 {
                still_defined(rest, all, j, reg);
            } else {
                let k = regs.index_of(reg);
                assert(regs[k] == reg);
            }
        }
    }
}

proof fn defs_upto_known(cfg: &Cfg, effects: Seq<InstrEffect>, k: nat)
    requires
        analysable(cfg),
        effects.len() == cfg.instr_to_block@.len(),
        effects.len() <= usize::MAX,
        k <= cfg.block_order@.len(),
    ensures
        forall|d: int|
            0 <= d < defs_upto(cfg, effects, k).len() ==> is_made(cfg, effects, #[trigger] defs_upto(cfg, effects, k)[d]),
        forall|q: int, j: int, reg: Reg|
            0 <= q < k && cfg.range(cfg.block_order@[q]).start.0 <= j < cfg.range(cfg.block_order@[q]).end_at()
                && #[trigger] effects[j].fixed_must_defs.seq().contains(reg) && #[trigger] cfg.has_block(cfg.block_order@[q])
                ==> is_defined(defs_upto(cfg, effects, k), j, reg),
    decreases k,
{
    if k > 0 {
        let b = cfg.block_order@[k - 1];
        let rest = defs_upto(cfg, effects, (k - 1) as nat);
        let all = defs_upto(cfg, effects, k);
        let start = cfg.range(b).start.0 as int;
        let end = cfg.range(b).end_at();
        defs_upto_known(cfg, effects, (k - 1) as nat);
        assert(cfg.has_block(b) && b != cfg.exit_block);
        range_fits(cfg, b);
        assert(end <= cfg.instr_to_block@.len());
        defs_in_known(cfg, effects, b, start, end, rest);
        assert forall|q: int, j: int, reg: Reg|
            0 <= q < k && cfg.range(cfg.block_order@[q]).start.0 <= j < cfg.range(cfg.block_order@[q]).end_at()
                && #[trigger] effects[j].fixed_must_defs.seq().contains(reg) && #[trigger] cfg.has_block(cfg.block_order@[q])
                implies is_defined(all, j, reg) by {
            if q < k - 1 {
                still_defined(rest, all, j, reg);
            }
        }
    }
}

/// A row of identities holds those of the definitions that the instruction makes.
proof fn ids_at_known(defs: Seq<Def>, i: int, n: nat)
    requires
        n <= defs.len() <= usize::MAX,
    ensures
        forall|k: int| 0 <= k < ids_at(defs, i, n).len() ==> {
            let d = #[trigger] ids_at(defs, i, n)[k];
            d.0 < n && defs[d.0 as int].instr.0 == i
        },
        forall|d: int|
            0 <= d < n && (#[trigger] defs[d]).instr.0 == i ==> ids_at(defs, i, n).contains(DefId(d as usize)),
    decreases n,
{
    if n > 0 {
        ids_at_known(defs, i, (n - 1) as nat);
        let rest = ids_at(defs, i, (n - 1) as nat);
        let all = ids_at(defs, i, n);
        assert forall|d: int| 0 <= d < n && (#[trigger] defs[d]).instr.0 == i implies all.contains(DefId(d as usize)) by {
            if d < n - 1 {
                let k = rest.index_of(DefId(d as usize));
                assert(all[k] == rest[k]);
            } else {
                assert(all[rest.len() as int] == DefId(d as usize));
            }
        }
    }
}

/// An instruction has a definition of a register exactly where the register is one that it
/// always writes. The definition is made by that instruction, of that register and in the
/// block that holds the instruction.
pub proof fn definitions_follow_effects(
    f: &DataflowFacts,
    proto: &ProtoEffects,
    cfg: &Cfg,
    graph: &GraphFacts,
    instr: InstrRef,
    reg: Reg,
)
    requires
        level_computable(proto, cfg, graph),
        level_facts(f, proto, cfg, graph),
    ensures
        f.found_def(instr, reg) is Some <==> instr.0 < f.instr_effects@.len()
            && f.instr_effects@[instr.0 as int].fixed_must_defs@.contains(reg),
        f.found_def(instr, reg) matches Some(d) ==> d.0 < f.defs@.len() && f.defs@[d.0 as int].instr == instr
            && f.defs@[d.0 as int].reg == reg && f.defs@[d.0 as int].block == cfg.instr_to_block@[instr.0 as int],
{
    let (open, live, ssa) = choose|open: OpenAnalysis, live: BlockLiveness, ssa: SsaAnalysis| #[trigger]
        made_of(f, proto, cfg, graph, &open, &live, &ssa);
    assert(made_of(f, proto, cfg, graph, &open, &live, &ssa));
    let effects = proto.instr_effects@;
    let defs = f.defs@;
    assert(f.defs.len() <= usize::MAX);
    assert(proto.instr_effects.len() <= usize::MAX);
    defs_upto_known(cfg, effects, cfg.block_order@.len());
    if instr.0 < f.instr_defs@.len() {
        let i = instr.0 as int;
        let row = f.instr_defs@[i]@;
        let p = f.defines_reg(instr, reg);
        assert(row == ids_at(defs, i, defs.len()));
        ids_at_known(defs, i, defs.len());
        first_where_least(row.len(), p);
        assert(same_effect(&f.instr_effects@[i], &effects[i]));
        let regs = effects[i].fixed_must_defs.seq();
        match f.found_def(instr, reg) {
            Some(d) => {
                assert(is_made(cfg, effects, defs[d.0 as int]));
            },
            None => {
                if regs.contains(reg) {
                    let b = cfg.instr_to_block@[i];
                    assert(cfg.block_order@.contains(b));
                    let q = cfg.block_order@.index_of(b);
                    assert(cfg.block_order@[q] == b && cfg.has_block(cfg.block_order@[q]));
                    assert(effects[i].fixed_must_defs.seq().contains(reg));
                    assert(is_defined(defs, i, reg));
                    let d = choose|d: int| 0 <= d < defs.len() && (#[trigger] defs[d]).instr.0 == i && defs[d].reg == reg;
                    assert(row.contains(DefId(d as usize)));
                    let k = row.index_of(DefId(d as usize));
                    assert(p(k));
                }
            },
        }
    }
}

/// A place that satisfies `p` with `j` such places before it.
proof fn nth_where(n: nat, p: spec_fn(int) -> bool, j: nat) -> (i: int)
    requires
        j < count_where(n, p),
    ensures
        0 <= i < n,
        p(i),
        count_where(i as nat, p) == j,
    decreases n,
{
    if j < count_where((n - 1) as nat, p) {
        nth_where((n - 1) as nat, p, j)
    } else {
        n - 1
    }
}

/// The phi at place `j` is what became of one of the phis that were placed.
proof fn phi_site(ssa: &SsaAnalysis, input: &SsaInput, j: int) -> (p: int)
    requires
        ssa.describes(input),
        0 <= j < ssa.phis@.len(),
    ensures
        0 <= p < input.sites().len(),
        is_kept(input.standing())(p),
        count_where(p as nat, is_kept(input.standing())) == j,
        input.is_phi(&ssa.phis@[j], p),
{
    let p = nth_where(input.sites().len(), is_kept(input.standing()), j as nat);
    assert(ssa.holds_phi(input, p));
    p
}

proof fn sites_in_known(reads: Seq<(Reg, SsaValue)>, v: SsaValue, i: int, n: nat, acc: Seq<UseSite>)
    requires
        0 <= i <= usize::MAX,
        n <= reads.len(),
    ensures
        acc.is_prefix_of(sites_in(reads, v, i, n, acc)),
        forall|k: int| acc.len() <= k < sites_in(reads, v, i, n, acc).len() ==> {
            &&& (#[trigger] sites_in(reads, v, i, n, acc)[k]).instr.0 == i
            &&& exists|q: int| 0 <= q < n && (#[trigger] reads[q]).1 == v
        },
        (exists|q: int| 0 <= q < n && (#[trigger] reads[q]).1 == v) ==> sites_in(reads, v, i, n, acc).len() > acc.len(),
    decreases n,
{
    if n > 0 {
        sites_in_known(reads, v, i, (n - 1) as nat, acc);
        let rest = sites_in(reads, v, i, (n - 1) as nat, acc);
        let all = sites_in(reads, v, i, n, acc);
        assert(rest.is_prefix_of(all));
        assert forall|k: int| acc.len() <= k < all.len() implies {
            &&& (#[trigger] all[k]).instr.0 == i
            &&& exists|q: int| 0 <= q < n && (#[trigger] reads[q]).1 == v
        } by {
            if k < rest.len() {
                assert(all[k] == rest[k]);
                let q = choose|q: int| 0 <= q < n - 1 && (#[trigger] reads[q]).1 == v;
                assert(reads[q].1 == v);
            } else {
                assert(reads[n - 1].1 == v);
            }
        }
    }
}

/// Instruction `i` reads `v`.
spec fn reads_value(uses: Seq<InstrUseValues>, i: int, v: SsaValue) -> bool {
    exists|q: int| 0 <= q < uses[i].fixed@.len() && (#[trigger] uses[i].fixed@[q]).1 == v
}

/// Some site is in instruction `i`.
spec fn has_site(sites: Seq<UseSite>, i: int) -> bool {
    exists|k: int| 0 <= k < sites.len() && (#[trigger] sites[k]).instr.0 == i
}

proof fn sites_known(uses: Seq<InstrUseValues>, v: SsaValue, n: nat)
    requires
        n <= uses.len() <= usize::MAX,
    ensures
        forall|k: int| 0 <= k < sites_of(uses, v, n).len() ==> {
            let s = #[trigger] sites_of(uses, v, n)[k];
            s.instr.0 < n && reads_value(uses, s.instr.0 as int, v)
        },
        forall|i: int| 0 <= i < n && reads_value(uses, i, v) ==> #[trigger] has_site(sites_of(uses, v, n), i),
    decreases n,
{
    if n > 0 {
        sites_known(uses, v, (n - 1) as nat);
        let reads = uses[n - 1].fixed@;
        let rest = sites_of(uses, v, (n - 1) as nat);
        let all = sites_of(uses, v, n);
        sites_in_known(reads, v, n - 1, reads.len(), rest);
        assert forall|k: int| 0 <= k < all.len() implies {
            let s = #[trigger] all[k];
            s.instr.0 < n && reads_value(uses, s.instr.0 as int, v)
        } by {
            if k < rest.len() {
                assert(all[k] == rest[k]);
            } else {
                assert(sites_in(reads, v, n - 1, reads.len(), rest)[k].instr.0 == n - 1);
                let q = choose|q: int| 0 <= q < reads.len() && (#[trigger] reads[q]).1 == v;
                assert(uses[n - 1].fixed@[q].1 == v);
            }
        }
        assert forall|i: int| 0 <= i < n && reads_value(uses, i, v) implies #[trigger] has_site(all, i) by {
            if i < n - 1 {
                assert(has_site(rest, i));
                let k = choose|k: int| 0 <= k < rest.len() && (#[trigger] rest[k]).instr.0 == i;
                assert(all[k] == rest[k]);
            } else {
                let q = choose|q: int| 0 <= q < uses[i].fixed@.len() && (#[trigger] uses[i].fixed@[q]).1 == v;
                assert(reads[q].1 == v);
                assert(all[rest.len() as int].instr.0 == i);
            }
        }
    }
}

/// One of the first `n` values that flow into the phi is `v`.
spec fn takes(phi: &PhiCandidate, v: SsaValue, n: nat) -> bool {
    exists|k: int| 0 <= k < n && (#[trigger] phi.incoming@[k]).value == v
}

proof fn users_in_known(phi: &PhiCandidate, v: SsaValue, n: nat, acc: Seq<PhiId>, x: PhiId)
    requires
        n <= phi.incoming@.len(),
    ensures
        users_in(phi, v, n, acc).contains(x) <==> acc.contains(x) || (x == phi.id && v != SsaValue::Phi(phi.id) && takes(
            phi,
            v,
            n,
        )),
    decreases n,
{
    if n > 0 {
        users_in_known(phi, v, (n - 1) as nat, acc, x);
        let rest = users_in(phi, v, (n - 1) as nat, acc);
        let all = users_in(phi, v, n, acc);
        if rest.contains(x) {
            let k = rest.index_of(x);
            assert(all[k] == rest[k]);
        }
        if all.contains(x) && !rest.contains(x) {
            let k = all.index_of(x);
            assert(k == rest.len());
            assert(phi.incoming@[n - 1].value == v);
        }
        if takes(phi, v, n) && !takes(phi, v, (n - 1) as nat) {
            let k = choose|k: int| 0 <= k < n && (#[trigger] phi.incoming@[k]).value == v;
            assert(k == n - 1);
            if v != SsaValue::Phi(phi.id) {
                assert(all[rest.len() as int] == phi.id);
            }
        }
    }
}

proof fn users_known(phis: Seq<PhiCandidate>, v: SsaValue, n: nat, x: usize)
    requires
        n <= phis.len() <= usize::MAX,
        forall|p: int| 0 <= p < phis.len() ==> (#[trigger] phis[p]).id == PhiId(p as usize),
    ensures
        users_of(phis, v, n).contains(PhiId(x)) <==> x < n && flows_in(phis, x, v) && v != SsaValue::Phi(PhiId(x)),
    decreases n,
{
    if n > 0 {
        users_known(phis, v, (n - 1) as nat, x);
        let phi = &phis[n - 1];
        let rest = users_of(phis, v, (n - 1) as nat);
        users_in_known(phi, v, phi.incoming@.len(), rest, PhiId(x));
        assert(phis[n - 1].id == PhiId((n - 1) as usize));
        if x == n - 1 {
            if takes(phi, v, phi.incoming@.len()) {
                let k = choose|k: int| 0 <= k < phi.incoming@.len() && (#[trigger] phi.incoming@[k]).value == v;
                assert(phis[x as int].incoming@[k].value == v);
            }
            if flows_in(phis, x, v) {
                let k = choose|k: int| 0 <= k < phis[x as int].incoming@.len() && (#[trigger] phis[x as int].incoming@[k]).value == v;
                assert(phi.incoming@[k].value == v);
            }
        }
    }
}

/// Read `k` of instruction `i`, in a block that is not allowed, gives a value that is the
/// definition or to which the definition flows.
pub open spec fn read_outside(f: &DataflowFacts, cfg: &Cfg, def: DefId, allowed: Set<BlockRef>, i: int, k: int) -> bool {
    &&& 0 <= i < f.use_values@.len()
    &&& 0 <= k < f.use_values@[i].fixed@.len()
    &&& carries(f.phi_candidates@, f.use_values@[i].fixed@[k].1, SsaValue::Def(def))
    &&& !allowed.contains(cfg.instr_to_block@[i])
}

/// A row of sites has one outside exactly where the value is read outside.
proof fn row_outside(
    cfg: &Cfg,
    uses: Seq<InstrUseValues>,
    rows: Seq<Vec<UseSite>>,
    at: usize,
    v: SsaValue,
    allowed: Set<BlockRef>,
)
    requires
        uses.len() <= usize::MAX,
        at < rows.len(),
        rows[at as int]@ == sites_of(uses, v, uses.len()),
    ensures
        used_outside(cfg, rows, at, allowed) <==> exists|i: int|
            0 <= i < uses.len() && #[trigger] reads_value(uses, i, v) && !allowed.contains(cfg.instr_to_block@[i]),
{
    let sites = rows[at as int]@;
    sites_known(uses, v, uses.len());
    if used_outside(cfg, rows, at, allowed) {
        let k = choose|k: int|
            0 <= k < rows[at as int]@.len() && !allowed.contains(
                cfg.instr_to_block@[(#[trigger] rows[at as int]@[k]).instr.0 as int],
            );
        assert(sites[k] == sites_of(uses, v, uses.len())[k]);
        assert(reads_value(uses, sites[k].instr.0 as int, v));
    }
    if exists|i: int| 0 <= i < uses.len() && #[trigger] reads_value(uses, i, v) && !allowed.contains(cfg.instr_to_block@[i]) {
        let i = choose|i: int|
            0 <= i < uses.len() && #[trigger] reads_value(uses, i, v) && !allowed.contains(cfg.instr_to_block@[i]);
        assert(has_site(sites_of(uses, v, uses.len()), i));
        let k = choose|k: int| 0 <= k < sites.len() && (#[trigger] sites[k]).instr.0 == i;
        assert(rows[at as int]@[k].instr.0 == i);
    }
}

/// What the use tables hold of the values.
spec fn tables_match(f: &DataflowFacts, cfg: &Cfg) -> bool {
    let uses = f.use_values@;
    let phis = f.phi_candidates@;
    &&& uses.len() <= usize::MAX
    &&& phis.len() <= usize::MAX
    &&& f.def_uses@.len() == f.defs@.len()
    &&& f.def_phi_uses@.len() == f.defs@.len()
    &&& f.phi_uses@.len() == phis.len()
    &&& f.phi_phi_uses@.len() == phis.len()
    &&& reads_within(uses, phis.len(), f.defs@.len())
    &&& incomings_within(phis, f.defs@.len())
    &&& forall|p: int| 0 <= p < phis.len() ==> (#[trigger] phis[p]).id == PhiId(p as usize)
    &&& forall|d: int|
        0 <= d < f.defs@.len() ==> (#[trigger] f.def_uses@[d])@ == sites_of(uses, SsaValue::Def(DefId(d as usize)), uses.len())
    &&& forall|d: int|
        0 <= d < f.defs@.len() ==> (#[trigger] f.def_phi_uses@[d])@ == users_of(phis, SsaValue::Def(DefId(d as usize)), phis.len())
    &&& forall|p: int|
        0 <= p < phis.len() ==> (#[trigger] f.phi_uses@[p])@ == sites_of(uses, SsaValue::Phi(PhiId(p as usize)), uses.len())
    &&& forall|p: int|
        0 <= p < phis.len() ==> (#[trigger] f.phi_phi_uses@[p])@ == users_of(phis, SsaValue::Phi(PhiId(p as usize)), phis.len())
}

/// Where a phi is fed by another, the other flows into it.
proof fn feeds_goes_down(f: &DataflowFacts, cfg: &Cfg, x: usize, y: usize)
    requires
        tables_match(f, cfg),
    ensures
        feeds(f.phi_phi_uses@)(x, y) ==> upstream(f.phi_candidates@)(y, x),
        upstream(f.phi_candidates@)(y, x) && x != y ==> feeds(f.phi_phi_uses@)(x, y),
{
    let phis = f.phi_candidates@;
    if x < phis.len() {
        users_known(phis, SsaValue::Phi(PhiId(x)), phis.len(), y);
        assert(f.phi_phi_uses@[x as int]@ == users_of(phis, SsaValue::Phi(PhiId(x)), phis.len()));
    }
    if flows_in(phis, y, SsaValue::Phi(PhiId(x))) {
        let k = choose|k: int| 0 <= k < phis[y as int].incoming@.len() && (#[trigger] phis[y as int].incoming@[k]).value == SsaValue::Phi(PhiId(x));
        assert(within(phis[y as int].incoming@[k].value, phis.len(), f.defs@.len()));
    }
}

proof fn outside_is_read(f: &DataflowFacts, cfg: &Cfg, def: DefId, allowed: Set<BlockRef>)
    requires
        tables_match(f, cfg),
        f.has_use_outside(cfg, def, allowed),
    ensures
        exists|i: int, k: int| #[trigger] read_outside(f, cfg, def, allowed, i, k),
{
    let uses = f.use_values@;
    let phis = f.phi_candidates@;
    if used_outside(cfg, f.def_uses@, def.0, allowed) {
        let v = SsaValue::Def(def);
        assert(f.def_uses@[def.0 as int]@ == sites_of(uses, v, uses.len()));
        row_outside(cfg, uses, f.def_uses@, def.0, v, allowed);
        let i = choose|i: int|
            0 <= i < uses.len() && #[trigger] reads_value(uses, i, v) && !allowed.contains(cfg.instr_to_block@[i]);
        let k = choose|k: int| 0 <= k < uses[i].fixed@.len() && (#[trigger] uses[i].fixed@[k]).1 == v;
        assert(read_outside(f, cfg, def, allowed, i, k));
    } else {
        let (p, q) = choose|p: PhiId, q: usize| #[trigger] f.escapes_through(cfg, def, allowed, p, q);
        let v = SsaValue::Phi(PhiId(q));
        assert(f.phi_uses@[q as int]@ == sites_of(uses, v, uses.len()));
        row_outside(cfg, uses, f.phi_uses@, q, v, allowed);
        let i = choose|i: int|
            0 <= i < uses.len() && #[trigger] reads_value(uses, i, v) && !allowed.contains(cfg.instr_to_block@[i]);
        let k = choose|k: int| 0 <= k < uses[i].fixed@.len() && (#[trigger] uses[i].fixed@[k]).1 == v;
        assert(f.def_phi_uses@[def.0 as int]@ == users_of(phis, SsaValue::Def(def), phis.len()));
        users_known(phis, SsaValue::Def(def), phis.len(), p.0);
        assert forall|x: usize, y: usize| #[trigger] feeds(f.phi_phi_uses@)(x, y) implies upstream(phis)(y, x) by {
            feeds_goes_down(f, cfg, x, y);
        }
        reaches_reversed(feeds(f.phi_phi_uses@), upstream(phis), p.0, q);
        assert(reaches(upstream(phis), q, p.0) && flows_in(phis, p.0, SsaValue::Def(def)));
        assert(read_outside(f, cfg, def, allowed, i, k));
    }
}

proof fn read_is_outside(f: &DataflowFacts, cfg: &Cfg, def: DefId, allowed: Set<BlockRef>, i: int, k: int)
    requires
        tables_match(f, cfg),
        read_outside(f, cfg, def, allowed, i, k),
    ensures
        f.has_use_outside(cfg, def, allowed),
{
    let uses = f.use_values@;
    let phis = f.phi_candidates@;
    let v = uses[i].fixed@[k].1;
    assert(within(v, phis.len(), f.defs@.len()));
    assert(reads_value(uses, i, v));
    match v {
        SsaValue::Phi(r) => {
            let p = choose|p: usize| #[trigger] reaches(upstream(phis), r.0, p) && flows_in(phis, p, SsaValue::Def(def));
            let j = choose|j: int| 0 <= j < phis[p as int].incoming@.len() && (#[trigger] phis[p as int].incoming@[j]).value == SsaValue::Def(def);
            assert(within(phis[p as int].incoming@[j].value, phis.len(), f.defs@.len()));
            assert(f.def_phi_uses@[def.0 as int]@ == users_of(phis, SsaValue::Def(def), phis.len()));
            users_known(phis, SsaValue::Def(def), phis.len(), p);
            let step = feeds(f.phi_phi_uses@);
            let below = Set::new(|x: usize| reaches(step, x, r.0));
            reaches_self(step, r.0);
            assert forall|x: usize, y: usize| below.contains(x) && #[trigger] upstream(phis)(x, y) implies below.contains(y) by {
                if x != y {
                    feeds_goes_down(f, cfg, y, x);
                    reaches_self(step, y);
                    reaches_then_step(step, y, y, x);
                    reaches_transitive(step, y, x, r.0);
                }
            }
            closed_set_holds_reachable(upstream(phis), below, r.0, p);
            assert(f.phi_uses@[r.0 as int]@ == sites_of(uses, v, uses.len()));
            row_outside(cfg, uses, f.phi_uses@, r.0, v, allowed);
            assert(f.escapes_through(cfg, def, allowed, PhiId(p), r.0));
        },
        _ => {
            assert(v == SsaValue::Def(def));
            assert(f.def_uses@[def.0 as int]@ == sites_of(uses, v, uses.len()));
            row_outside(cfg, uses, f.def_uses@, def.0, v, allowed);
        },
    }
}

proof fn facts_match(f: &DataflowFacts, proto: &ProtoEffects, cfg: &Cfg, graph: &GraphFacts)
    requires
        level_facts(f, proto, cfg, graph),
    ensures
        tables_match(f, cfg),
{
    let (open, live, ssa) = choose|open: OpenAnalysis, live: BlockLiveness, ssa: SsaAnalysis| #[trigger]
        made_of(f, proto, cfg, graph, &open, &live, &ssa);
    assert(made_of(f, proto, cfg, graph, &open, &live, &ssa));
    let input = SsaInput {
        cfg,
        graph,
        defs: &f.defs,
        uses: &open.fixed_ssa_use_regs,
        live_uses: &open.fixed_liveness_use_regs,
        live: &live,
        reg_count: proto.reg_count,
    };
    assert(ssa.describes(&input));
    assert(f.use_values.len() <= usize::MAX);
    assert(f.phi_candidates.len() <= usize::MAX);
    assert forall|p: int| 0 <= p < f.phi_candidates@.len() implies (#[trigger] f.phi_candidates@[p]).id == PhiId(p as usize) by {
        let q = phi_site(&ssa, &input, p);
    }
    assert(tables_match(f, cfg));
}

/// A definition has a use outside the allowed blocks exactly where some instruction outside
/// them reads a value that is the definition or contains it. To flow into a phi that nothing
/// reads is no use.
pub proof fn outside_uses_are_reads(
    f: &DataflowFacts,
    proto: &ProtoEffects,
    cfg: &Cfg,
    graph: &GraphFacts,
    def: DefId,
    allowed: Set<BlockRef>,
)
    requires
        level_facts(f, proto, cfg, graph),
    ensures
        f.has_use_outside(cfg, def, allowed) <==> exists|i: int, k: int| #[trigger]
            read_outside(f, cfg, def, allowed, i, k),
{
    facts_match(f, proto, cfg, graph);
    if f.has_use_outside(cfg, def, allowed) {
        outside_is_read(f, cfg, def, allowed);
    }
    if exists|i: int, k: int| #[trigger] read_outside(f, cfg, def, allowed, i, k) {
        let (i, k) = choose|i: int, k: int| #[trigger] read_outside(f, cfg, def, allowed, i, k);
        read_is_outside(f, cfg, def, allowed, i, k);
    }
}

/// With more blocks allowed, no definition gains a use outside them.
pub proof fn wider_blocks_hide_uses(f: &DataflowFacts, cfg: &Cfg, def: DefId, allowed: Set<BlockRef>, wider: Set<BlockRef>)
    requires
        allowed.subset_of(wider),
    ensures
        f.has_use_outside(cfg, def, wider) ==> f.has_use_outside(cfg, def, allowed),
{
    assert forall|rows: Seq<Vec<UseSite>>, at: usize| #[trigger] used_outside(cfg, rows, at, wider) implies used_outside(
        cfg,
        rows,
        at,
        allowed,
    ) by {
        let k = choose|k: int|
            0 <= k < rows[at as int]@.len() && !wider.contains(
                cfg.instr_to_block@[(#[trigger] rows[at as int]@[k]).instr.0 as int],
            );
        assert(!allowed.contains(cfg.instr_to_block@[rows[at as int]@[k].instr.0 as int]));
    }
    if exists|p: PhiId, q: usize| #[trigger] f.escapes_through(cfg, def, wider, p, q) {
        let (p, q) = choose|p: PhiId, q: usize| #[trigger] f.escapes_through(cfg, def, wider, p, q);
        assert(f.escapes_through(cfg, def, allowed, p, q));
    }
}

/// A place comes before another: by block, then by register.
spec fn site_less(a: (BlockRef, Reg), b: (BlockRef, Reg)) -> bool {
    a.0.0 < b.0.0 || (a.0.0 == b.0.0 && a.1.0 < b.1.0)
}

spec fn sites_ascend(sites: Seq<(BlockRef, Reg)>) -> bool {
    forall|x: int, y: int| 0 <= x < y < sites.len() ==> site_less(#[trigger] sites[x], #[trigger] sites[y])
}

proof fn sites_in_ascend(input: &SsaInput, b: BlockRef, n: nat, acc: Seq<(BlockRef, Reg)>)
    requires
        n <= usize::MAX,
        sites_ascend(acc),
        forall|x: int| 0 <= x < acc.len() ==> (#[trigger] acc[x]).0.0 < b.0,
    ensures
        sites_ascend(input.sites_in(b, n, acc)),
        forall|x: int| 0 <= x < input.sites_in(b, n, acc).len() ==> {
            let s = #[trigger] input.sites_in(b, n, acc)[x];
            s.0.0 < b.0 || (s.0 == b && s.1.0 < n)
        },
    decreases n,
{
    if n > 0 {
        sites_in_ascend(input, b, (n - 1) as nat, acc);
        let rest = input.sites_in(b, (n - 1) as nat, acc);
        let all = input.sites_in(b, n, acc);
        assert forall|x: int| 0 <= x < all.len() implies {
            let s = #[trigger] all[x];
            s.0.0 < b.0 || (s.0 == b && s.1.0 < n)
        } by {
            if x < rest.len() {
                assert(all[x] == rest[x]);
            }
        }
        assert forall|x: int, y: int| 0 <= x < y < all.len() implies site_less(#[trigger] all[x], #[trigger] all[y]) by {
            assert(all[x] == rest[x]);
            if y < rest.len() {
                assert(all[y] == rest[y]);
            }
        }
    }
}

proof fn sites_upto_ascend(input: &SsaInput, k: nat)
    requires
        k <= usize::MAX,
    ensures
        sites_ascend(input.sites_upto(k)),
        forall|x: int| 0 <= x < input.sites_upto(k).len() ==> (#[trigger] input.sites_upto(k)[x]).0.0 < k,
    decreases k,
{
    if k > 0 {
        sites_upto_ascend(input, (k - 1) as nat);
        sites_in_ascend(input, BlockRef((k - 1) as usize), input.reg_count as nat, input.sites_upto((k - 1) as nat));
    }
}

/// The phis stand by block, then by register, under their places as identities.
spec fn phis_ascend(phis: Seq<PhiCandidate>, blocks: nat) -> bool {
    &&& forall|x: int, y: int| 0 <= x < y < phis.len() ==> site_less(
        ((#[trigger] phis[x]).block, phis[x].reg),
        ((#[trigger] phis[y]).block, phis[y].reg),
    )
    &&& forall|x: int| 0 <= x < phis.len() ==> (#[trigger] phis[x]).block.0 < blocks && phis[x].id == PhiId(x as usize)
}

proof fn facts_ascend(f: &DataflowFacts, proto: &ProtoEffects, cfg: &Cfg, graph: &GraphFacts)
    requires
        level_facts(f, proto, cfg, graph),
    ensures
        phis_ascend(f.phi_candidates@, cfg.blocks@.len()),
        f.phi_candidates@.len() <= usize::MAX,
        f.phi_block_ranges@.len() == cfg.blocks@.len(),
        forall|b: int| 0 <= b < cfg.blocks@.len() ==> is_range(f.phi_candidates@, b, #[trigger] f.phi_block_ranges@[b]),
{
    let (open, live, ssa) = choose|open: OpenAnalysis, live: BlockLiveness, ssa: SsaAnalysis| #[trigger]
        made_of(f, proto, cfg, graph, &open, &live, &ssa);
    assert(made_of(f, proto, cfg, graph, &open, &live, &ssa));
    let input = SsaInput {
        cfg,
        graph,
        defs: &f.defs,
        uses: &open.fixed_ssa_use_regs,
        live_uses: &open.fixed_liveness_use_regs,
        live: &live,
        reg_count: proto.reg_count,
    };
    assert(ssa.describes(&input));
    assert(f.phi_candidates.len() <= usize::MAX);
    assert(cfg.blocks.len() <= usize::MAX);
    sites_upto_ascend(&input, cfg.blocks@.len());
    let phis = f.phi_candidates@;
    let kept = is_kept(input.standing());
    assert forall|x: int| 0 <= x < phis.len() implies (#[trigger] phis[x]).block.0 < cfg.blocks@.len() && phis[x].id == PhiId(
        x as usize,
    ) by {
        let p = phi_site(&ssa, &input, x);
        assert(input.sites()[p].0.0 < cfg.blocks@.len());
    }
    assert forall|x: int, y: int| 0 <= x < y < phis.len() implies site_less(
        ((#[trigger] phis[x]).block, phis[x].reg),
        ((#[trigger] phis[y]).block, phis[y].reg),
    ) by {
        let p = phi_site(&ssa, &input, x);
        let q = phi_site(&ssa, &input, y);
        if q <= p {
            count_where_monotone(q as nat, p as nat, kept);
        }
        assert(site_less(input.sites()[p], input.sites()[q]));
    }
}

/// Where the phis of the blocks below `b` end.
proof fn split_at(phis: Seq<PhiCandidate>, blocks: nat, b: int)
    requires
        phis_ascend(phis, blocks),
    ensures
        ({
            let m = count_where(phis.len(), block_below(phis, b));
            &&& m <= phis.len()
            &&& forall|k: int| 0 <= k < m ==> (#[trigger] phis[k]).block.0 < b
            &&& forall|k: int| m <= k < phis.len() ==> (#[trigger] phis[k]).block.0 >= b
        }),
{
    let p = |k: int| !(phis[k].block.0 < b);
    first_where_least(phis.len(), p);
    let m = match first_where(phis.len(), p) {
        Some(i) => i,
        None => phis.len() as int,
    };
    assert forall|k: int| 0 <= k < m implies (#[trigger] phis[k]).block.0 < b by {
        assert(!p(k));
    }
    assert forall|k: int| m <= k < phis.len() implies (#[trigger] phis[k]).block.0 >= b by {
        assert(p(m));
        if k > m {
            assert(site_less((phis[m].block, phis[m].reg), (phis[k].block, phis[k].reg)));
        }
    }
    count_below_split(phis, m, b, phis.len());
}

pub open spec fn stands_in(block: BlockRef) -> spec_fn(PhiCandidate) -> bool {
    |p: PhiCandidate| p.block == block
}

proof fn filter_all(s: Seq<PhiCandidate>, p: spec_fn(PhiCandidate) -> bool)
    requires
        forall|k: int| 0 <= k < s.len() ==> p(#[trigger] s[k]),
    ensures
        s.filter(p) == s,
    decreases s.len(),
{
    reveal(Seq::filter);
    if s.len() > 0 {
        assert(p(s[s.len() - 1]));
        filter_all(s.drop_last(), p);
        assert(s.drop_last().push(s.last()) =~= s);
    }
}

proof fn filter_none(s: Seq<PhiCandidate>, p: spec_fn(PhiCandidate) -> bool)
    requires
        forall|k: int| 0 <= k < s.len() ==> !p(#[trigger] s[k]),
    ensures
        s.filter(p) == Seq::<PhiCandidate>::empty(),
    decreases s.len(),
{
    reveal(Seq::filter);
    if s.len() > 0 {
        assert(!p(s[s.len() - 1]));
        filter_none(s.drop_last(), p);
    }
}

/// What lies before and behind the phis of a block is filtered out.
proof fn slice_is_filtered(phis: Seq<PhiCandidate>, block: BlockRef, start: int, end: int)
    requires
        0 <= start <= end <= phis.len(),
        forall|k: int| 0 <= k < phis.len() ==> ((#[trigger] phis[k]).block == block <==> start <= k < end),
    ensures
        phis.subrange(start, end) == phis.filter(stands_in(block)),
{
    let p = stands_in(block);
    let head = phis.subrange(0, start);
    let mid = phis.subrange(start, end);
    let tail = phis.subrange(end, phis.len() as int);
    assert(head + mid + tail =~= phis);
    Seq::filter_distributes_over_add(head + mid, tail, p);
    Seq::filter_distributes_over_add(head, mid, p);
    assert forall|k: int| 0 <= k < head.len() implies !p(#[trigger] head[k]) by {
        assert(head[k] == phis[k]);
    }
    assert forall|k: int| 0 <= k < mid.len() implies p(#[trigger] mid[k]) by {
        assert(mid[k] == phis[start + k]);
    }
    assert forall|k: int| 0 <= k < tail.len() implies !p(#[trigger] tail[k]) by {
        assert(tail[k] == phis[end + k]);
    }
    filter_none(head, p);
    filter_all(mid, p);
    filter_none(tail, p);
    assert(Seq::<PhiCandidate>::empty() + mid + Seq::<PhiCandidate>::empty() =~= mid);
}

/// Where the phis of a block stand.
proof fn range_of_block(phis: Seq<PhiCandidate>, blocks: nat, block: BlockRef, r: PhiRange)
    requires
        phis_ascend(phis, blocks),
        is_range(phis, block.0 as int, r),
    ensures
        r.start <= r.end <= phis.len(),
        forall|k: int| 0 <= k < phis.len() ==> ((#[trigger] phis[k]).block == block <==> r.start <= k < r.end),
{
    let b = block.0 as int;
    split_at(phis, blocks, b);
    split_at(phis, blocks, b + 1);
    if r.end < r.start {
        assert(phis[r.end as int].block.0 < b);
    }
}

/// The phis of a block are all those that stand in it, in the order of their identities, and
/// their registers ascend: no register has two. A block that is not there has none.
pub proof fn phis_stand_by_block(f: &DataflowFacts, proto: &ProtoEffects, cfg: &Cfg, graph: &GraphFacts, block: BlockRef)
    requires
        level_facts(f, proto, cfg, graph),
    ensures
        f.phis_in(block) == f.phi_candidates@.filter(stands_in(block)),
        forall|x: int, y: int|
            0 <= x < y < f.phis_in(block).len() ==> (#[trigger] f.phis_in(block)[x]).id.0 < (#[trigger] f.phis_in(block)[y]).id.0
                && f.phis_in(block)[x].reg.0 < f.phis_in(block)[y].reg.0,
        !cfg.has_block(block) ==> f.phis_in(block).len() == 0,
{
    facts_ascend(f, proto, cfg, graph);
    let phis = f.phi_candidates@;
    if cfg.has_block(block) {
        let r = f.phi_block_ranges@[block.0 as int];
        assert(is_range(phis, block.0 as int, r));
        range_of_block(phis, cfg.blocks@.len(), block, r);
        slice_is_filtered(phis, block, r.start as int, r.end as int);
        let mid = f.phis_in(block);
        assert forall|x: int, y: int| 0 <= x < y < mid.len() implies (#[trigger] mid[x]).id.0 < (#[trigger] mid[y]).id.0
            && mid[x].reg.0 < mid[y].reg.0 by {
            let (v, w) = (r.start + x, r.start + y);
            assert(mid[x] == phis[v] && mid[y] == phis[w]);
            assert(site_less((phis[v].block, phis[v].reg), (phis[w].block, phis[w].reg)));
        }
    } else {
        let p = stands_in(block);
        assert forall|k: int| 0 <= k < phis.len() implies !p(#[trigger] phis[k]) by {
            assert(phis[k].block.0 < cfg.blocks@.len());
        }
        filter_none(phis, p);
    }
}

/// The phis of the first `n` blocks, one block after the other.
pub open spec fn phis_by_block(f: &DataflowFacts, n: nat) -> Seq<PhiCandidate>
    decreases n,
{
    if n == 0 {
        Seq::empty()
    } else {
        phis_by_block(f, (n - 1) as nat) + f.phis_in(BlockRef((n - 1) as usize))
    }
}

proof fn blocks_so_far(f: &DataflowFacts, proto: &ProtoEffects, cfg: &Cfg, graph: &GraphFacts, n: nat)
    requires
        level_facts(f, proto, cfg, graph),
        n <= cfg.blocks@.len() <= usize::MAX,
    ensures
        phis_by_block(f, n) == f.phi_candidates@.subrange(
            0,
            count_where(f.phi_candidates@.len(), block_below(f.phi_candidates@, n as int)) as int,
        ),
    decreases n,
{
    facts_ascend(f, proto, cfg, graph);
    let phis = f.phi_candidates@;
    split_at(phis, cfg.blocks@.len(), n as int);
    let m = count_where(phis.len(), block_below(phis, n as int)) as int;
    if n == 0 {
        if m > 0 {
            assert(phis[0].block.0 < 0);
        }
        assert(phis.subrange(0, m) =~= Seq::<PhiCandidate>::empty());
    } else {
        blocks_so_far(f, proto, cfg, graph, (n - 1) as nat);
        split_at(phis, cfg.blocks@.len(), n - 1);
        let r = f.phi_block_ranges@[n - 1];
        assert(is_range(phis, n - 1, r));
        assert(r.start <= r.end) by {
            if r.end < r.start {
                assert(phis[r.end as int].block.0 < n - 1);
            }
        }
        assert(phis.subrange(0, r.start as int) + phis.subrange(r.start as int, r.end as int) =~= phis.subrange(0, m));
    }
}

/// The phis of all the blocks, one block after the other, are all the phis.
pub proof fn blocks_hold_all_phis(f: &DataflowFacts, proto: &ProtoEffects, cfg: &Cfg, graph: &GraphFacts)
    requires
        level_facts(f, proto, cfg, graph),
    ensures
        phis_by_block(f, cfg.blocks@.len()) == f.phi_candidates@,
{
    assert(cfg.blocks.len() <= usize::MAX);
    facts_ascend(f, proto, cfg, graph);
    let phis = f.phi_candidates@;
    let n = cfg.blocks@.len();
    split_at(phis, n, n as int);
    blocks_so_far(f, proto, cfg, graph, n);
    let m = count_where(phis.len(), block_below(phis, n as int)) as int;
    if m < phis.len() {
        assert(phis[m].block.0 < n);
    }
    assert(phis.subrange(0, m) =~= phis);
}

proof fn sites_exist(f: &DataflowFacts, cfg: &Cfg, rows: Seq<Vec<UseSite>>, at: int, v: SsaValue)
    requires
        tables_match(f, cfg),
        f.use_values@.len() == cfg.instr_to_block@.len(),
        0 <= at < rows.len(),
        rows[at]@ == sites_of(f.use_values@, v, f.use_values@.len()),
    ensures
        forall|k: int| 0 <= k < rows[at]@.len() ==> (#[trigger] rows[at]@[k]).instr.0 < cfg.instr_to_block@.len(),
{
    sites_known(f.use_values@, v, f.use_values@.len());
    assert forall|k: int| 0 <= k < rows[at]@.len() implies (#[trigger] rows[at]@[k]).instr.0 < cfg.instr_to_block@.len() by {
        assert(rows[at]@[k] == sites_of(f.use_values@, v, f.use_values@.len())[k]);
    }
}

proof fn users_exist(f: &DataflowFacts, cfg: &Cfg, rows: Seq<Vec<PhiId>>, at: int, v: SsaValue)
    requires
        tables_match(f, cfg),
        0 <= at < rows.len(),
        rows[at]@ == users_of(f.phi_candidates@, v, f.phi_candidates@.len()),
    ensures
        forall|k: int| 0 <= k < rows[at]@.len() ==> (#[trigger] rows[at]@[k]).0 < f.phi_candidates@.len(),
{
    let phis = f.phi_candidates@;
    assert forall|k: int| 0 <= k < rows[at]@.len() implies (#[trigger] rows[at]@[k]).0 < phis.len() by {
        users_known(phis, v, phis.len(), rows[at]@[k].0);
        assert(rows[at]@.contains(rows[at]@[k]));
    }
}

/// On facts that were computed every query can be asked: the tables name only definitions,
/// phis and instructions that there are.
pub proof fn facts_can_be_queried(f: &DataflowFacts, proto: &ProtoEffects, cfg: &Cfg, graph: &GraphFacts)
    requires
        level_computable(proto, cfg, graph),
        level_facts(f, proto, cfg, graph),
    ensures
        f.ranges_wf(),
        f.uses_known(cfg),
        forall|b: BlockRef| #[trigger] f.range_fits(b),
        forall|d: DefId| #[trigger] f.uses_placed(cfg, d),
        forall|i: int, k: int|
            0 <= i < f.instr_defs@.len() && 0 <= k < f.instr_defs@[i]@.len() ==> (#[trigger] f.instr_defs@[i]@[k]).0 < f.defs@.len(),
{
    let (open, live, ssa) = choose|open: OpenAnalysis, live: BlockLiveness, ssa: SsaAnalysis| #[trigger]
        made_of(f, proto, cfg, graph, &open, &live, &ssa);
    assert(made_of(f, proto, cfg, graph, &open, &live, &ssa));
    facts_ascend(f, proto, cfg, graph);
    facts_match(f, proto, cfg, graph);
    let phis = f.phi_candidates@;
    assert forall|b: int| 0 <= b < f.phi_block_ranges@.len() implies {
        let r = #[trigger] f.phi_block_ranges@[b];
        r.start <= r.end <= phis.len()
    } by {
        assert(cfg.blocks.len() <= usize::MAX);
        range_of_block(phis, cfg.blocks@.len(), BlockRef(b as usize), f.phi_block_ranges@[b]);
    }
    assert forall|d: int, k: int| 0 <= d < f.def_uses@.len() && 0 <= k < f.def_uses@[d]@.len() implies (
    #[trigger] f.def_uses@[d]@[k]).instr.0 < cfg.instr_to_block@.len() by {
        sites_exist(f, cfg, f.def_uses@, d, SsaValue::Def(DefId(d as usize)));
    }
    assert forall|p: int, k: int| 0 <= p < f.phi_uses@.len() && 0 <= k < f.phi_uses@[p]@.len() implies (
    #[trigger] f.phi_uses@[p]@[k]).instr.0 < cfg.instr_to_block@.len() by {
        sites_exist(f, cfg, f.phi_uses@, p, SsaValue::Phi(PhiId(p as usize)));
    }
    assert forall|d: int, k: int| 0 <= d < f.def_phi_uses@.len() && 0 <= k < f.def_phi_uses@[d]@.len() implies (
    #[trigger] f.def_phi_uses@[d]@[k]).0 < f.phi_phi_uses@.len() by {
        users_exist(f, cfg, f.def_phi_uses@, d, SsaValue::Def(DefId(d as usize)));
    }
    assert forall|p: int, k: int| 0 <= p < f.phi_phi_uses@.len() && 0 <= k < f.phi_phi_uses@[p]@.len() implies (
    #[trigger] f.phi_phi_uses@[p]@[k]).0 < f.phi_phi_uses@.len() by {
        users_exist(f, cfg, f.phi_phi_uses@, p, SsaValue::Phi(PhiId(p as usize)));
    }
    assert(f.defs.len() <= usize::MAX);
    assert forall|i: int, k: int| 0 <= i < f.instr_defs@.len() && 0 <= k < f.instr_defs@[i]@.len() implies (
    #[trigger] f.instr_defs@[i]@[k]).0 < f.defs@.len() by {
        ids_at_known(f.defs@, i, f.defs@.len());
        assert(f.instr_defs@[i]@[k] == ids_at(f.defs@, i, f.defs@.len())[k]);
    }
    assert forall|b: BlockRef| #[trigger] f.range_fits(b) by {}
    assert forall|d: DefId| #[trigger] f.uses_placed(cfg, d) by {
        assert(DataflowFacts::row_placed(cfg, f.def_uses@, d.0));
        assert forall|q: usize| #[trigger] f.gets_def(d, q) implies DataflowFacts::row_placed(cfg, f.phi_uses@, q) by {}
    }
}

} // verus!
