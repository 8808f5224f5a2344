//! Where open packs begin, and which values have a single reader.

use vstd::prelude::*;

use crate::block_laws::{reads_at, sites_are_the_reads, users_are_the_phis_it_flows_into};
use crate::cfg::Cfg;
use crate::dataflow::{DataflowFacts, DefId, InstrEffect, OpenDef, OpenDefId, OpenUseSources, SsaValue, UseSite};
use crate::graph::GraphFacts;
use crate::ids::{BlockRef, InstrRef, Reg};
use crate::open_values::{
    open_def_at, open_defs_in, open_defs_upto, open_source, open_track, open_upstream, outer_start, prefix_ends, takes_open,
};
use crate::tracks::{Origin, TrackModel};
use crate::uses::{sites_of, users_of};
use crate::walk::{reaches, reaches_self, reaches_then_step, reaches_transitive};

verus! {

/// The pack is the one that its instruction defines.
pub open spec fn is_made_there(effects: Seq<InstrEffect>, d: OpenDef) -> bool {
    effects[d.instr.0 as int].open_must_def == Some(d.start_reg)
}

proof fn packs_in(effects: Seq<InstrEffect>, b: BlockRef, start: int, i: int, acc: Seq<OpenDef>)
    requires
        0 <= start,
        i <= effects.len() <= usize::MAX,
        forall|k: int| 0 <= k < acc.len() ==> is_made_there(effects, #[trigger] acc[k]),
    ensures
        ({
            let now = open_defs_in(effects, b, start, i, acc);
            &&& acc.len() <= now.len() && now.take(acc.len() as int) == acc
            &&& forall|k: int| 0 <= k < now.len() ==> is_made_there(effects, #[trigger] now[k])
            &&& forall|k: int| acc.len() <= k < now.len() ==> (#[trigger] now[k]).block == b && start <= now[k].instr.0 < i
            &&& forall|j: int|
                start <= j < i && (#[trigger] effects[j]).open_must_def is Some ==> exists|k: int|
                    acc.len() <= k < now.len() && (#[trigger] now[k]).instr.0 == j
        }),
    decreases i - start,
{
    let now = open_defs_in(effects, b, start, i, acc);
    if i <= start {
        assert(now.take(acc.len() as int) =~= acc);
    } else {
        packs_in(effects, b, start, i - 1, acc);
        let rest = open_defs_in(effects, b, start, i - 1, acc);
        assert(rest.take(acc.len() as int) == acc);
        assert forall|k: int| 0 <= k < rest.len() implies #[trigger] now[k] == rest[k] by {}
        assert(now.take(acc.len() as int) =~= acc) by {
            assert forall|k: int| 0 <= k < acc.len() implies now[k] == acc[k] by {
                assert(rest.take(acc.len() as int)[k] == rest[k]);
            }
        }
        assert forall|k: int| 0 <= k < now.len() implies is_made_there(effects, #[trigger] now[k]) by {
            if k < rest.len() {
                assert(is_made_there(effects, rest[k]));
            }
        }
        assert forall|k: int| acc.len() <= k < now.len() implies (#[trigger] now[k]).block == b && start <= now[k].instr.0
            < i by {
            if k < rest.len() {
                assert(rest[k].block == b);
            }
        }
        assert forall|j: int| start <= j < i && (#[trigger] effects[j]).open_must_def is Some implies exists|k: int|
            acc.len() <= k < now.len() && (#[trigger] now[k]).instr.0 == j by {
            if j == i - 1 {
                assert(now[rest.len() as int].instr.0 == j);
            } else {
                let k = choose|k: int| acc.len() <= k < rest.len() && (#[trigger] rest[k]).instr.0 == j;
                assert(now[k].instr.0 == j);
            }
        }
    }
}

/// The packs that are listed are those that the instructions of the blocks define, each with
/// its first register.
pub proof fn packs_are_what_instructions_define(cfg: &Cfg, effects: Seq<InstrEffect>, n: nat, at: int, j: int)
    requires
        effects.len() <= usize::MAX,
        n <= cfg.block_order@.len(),
        forall|k: int|
            0 <= k < cfg.block_order@.len() ==> cfg.range(#[trigger] cfg.block_order@[k]).end_at() <= effects.len(),
    ensures
        forall|k: int|
            0 <= k < open_defs_upto(cfg, effects, n).len() ==> is_made_there(
                effects,
                #[trigger] open_defs_upto(cfg, effects, n)[k],
            ),
        0 <= at < n && cfg.range(cfg.block_order@[at]).start.0 <= j < cfg.range(cfg.block_order@[at]).end_at()
            && effects[j].open_must_def is Some ==> exists|k: int|
            0 <= k < open_defs_upto(cfg, effects, n).len() && (#[trigger] open_defs_upto(cfg, effects, n)[k]).instr.0 == j
                && open_defs_upto(cfg, effects, n)[k].block == cfg.block_order@[at],
    decreases n,
{
    if n > 0 {
        let m = (n - 1) as nat;
        packs_are_what_instructions_define(cfg, effects, m, at, j);
        let b = cfg.block_order@[m as int];
        let rest = open_defs_upto(cfg, effects, m);
        let now = open_defs_upto(cfg, effects, n);
        packs_in(effects, b, cfg.range(b).start.0 as int, cfg.range(b).end_at(), rest);
        if 0 <= at < n && cfg.range(cfg.block_order@[at]).start.0 <= j < cfg.range(cfg.block_order@[at]).end_at()
            && effects[j].open_must_def is Some {
            if at < m {
                let k = choose|k: int|
                    0 <= k < rest.len() && (#[trigger] rest[k]).instr.0 == j && rest[k].block == cfg.block_order@[at];
                assert(now.take(rest.len() as int)[k] == rest[k]);
                assert(now[k] == rest[k]);
            } else {
                let k = choose|k: int| rest.len() <= k < now.len() && (#[trigger] now[k]).instr.0 == j;
                assert(now[k].block == b);
            }
        }
    }
}

proof fn last_pack_at(defs: Seq<OpenDef>, i: int, n: nat)
    requires
        n <= defs.len() <= usize::MAX,
    ensures
        match open_def_at(defs, i, n) {
            Some(k) => k < n && defs[k as int].instr.0 == i && forall|j: int| k < j < n ==> (#[trigger] defs[j]).instr.0 != i,
            None => forall|j: int| 0 <= j < n ==> (#[trigger] defs[j]).instr.0 != i,
        },
    decreases n,
{
    if n > 0 {
        last_pack_at(defs, i, (n - 1) as nat);
    }
}

/// As a variable, the open pack is read where an instruction uses one, and written where one
/// defines it.
pub proof fn packs_are_read_and_written(effects: Seq<InstrEffect>, defs: Seq<OpenDef>, i: int)
    requires
        0 <= i < effects.len(),
        defs.len() <= usize::MAX,
    ensures
        open_track(effects, defs).reads[i] == (effects[i].open_use is Some),
        match open_track(effects, defs).writes[i] {
            Some(k) => k < defs.len() && defs[k as int].instr.0 == i,
            None => forall|k: int| 0 <= k < defs.len() ==> (#[trigger] defs[k]).instr.0 != i,
        },
{
    last_pack_at(defs, i, defs.len());
}

proof fn outermost(defs: Seq<OpenDef>, ids: Seq<OpenDefId>, n: nat, largest: bool)
    requires
        n <= ids.len(),
    ensures
        match outer_start(defs, ids, n, largest) {
            Some(x) => {
                &&& n > 0
                &&& exists|k: int| 0 <= k < n && defs[(#[trigger] ids[k]).0 as int].start_reg.0 == x
                &&& forall|k: int|
                    0 <= k < n ==> if largest {
                        defs[(#[trigger] ids[k]).0 as int].start_reg.0 <= x
                    } else {
                        x <= defs[ids[k].0 as int].start_reg.0
                    }
            },
            None => n == 0,
        },
    decreases n,
{
    if n > 0 {
        outermost(defs, ids, (n - 1) as nat, largest);
        let x = outer_start(defs, ids, n, largest)->0;
        let here = defs[ids[n - 1].0 as int].start_reg.0;
        if x == here {
            assert(defs[ids[n - 1].0 as int].start_reg.0 == x);
        } else {
            let k = choose|k: int| 0 <= k < n - 1 && defs[(#[trigger] ids[k]).0 as int].start_reg.0 == x;
            assert(defs[ids[k].0 as int].start_reg.0 == x);
        }
    }
}

/// A register that is no less than the start and no more than the number of registers.
pub open spec fn lies_between(x: usize, start: usize, count: usize) -> bool {
    start <= x <= count
}

/// What a pack surely fills before its open part ends at or before the open part of each of
/// its sources, what it may fill ends at or behind it, and both lie between the first register
/// and the last. A pack of unknown origin surely fills nothing and may fill everything.
pub proof fn fixed_parts_end_where_sources_begin(
    s: &OpenUseSources,
    defs: Seq<OpenDef>,
    entry: Option<Reg>,
    start: usize,
    count: usize,
    k: int,
)
    requires
        start <= count,
        0 <= k < s.defs.seq().len(),
    ensures
        ({
            let (sure, may) = prefix_ends(s, defs, entry, start, count);
            let here = defs[s.defs.seq()[k].0 as int].start_reg.0;
            &&& lies_between(sure, start, count) && lies_between(may, start, count) && sure <= may
            &&& sure <= here || sure == start
            &&& here <= may || may == count
            &&& s.has_entry && entry is None ==> sure == start && may == count
            &&& s.has_entry && entry is Some ==> (sure <= (entry->0).0 || sure == start) && ((entry->0).0 <= may || may
                == count)
            &&& !s.has_entry ==> exists|j: int|
                0 <= j < s.defs.seq().len() && (sure == defs[(#[trigger] s.defs.seq()[j]).0 as int].start_reg.0 || sure
                    == start || sure == count)
        }),
{
    let ids = s.defs.seq();
    outermost(defs, ids, ids.len(), false);
    outermost(defs, ids, ids.len(), true);
    assert(defs[ids[k].0 as int].start_reg.0 == defs[ids[k].0 as int].start_reg.0);
    if !s.has_entry {
        let low = outer_start(defs, ids, ids.len(), false)->0;
        let j = choose|j: int| 0 <= j < ids.len() && defs[(#[trigger] ids[j]).0 as int].start_reg.0 == low;
        assert(defs[ids[j].0 as int].start_reg.0 == low);
    }
}

/// A value without sources inside has no part before its open one, unless it comes from
/// outside.
pub proof fn packs_from_outside_start_at_the_entry(
    s: &OpenUseSources,
    defs: Seq<OpenDef>,
    entry: Option<Reg>,
    start: usize,
    count: usize,
)
    requires
        s.defs.seq().len() == 0,
        start <= count,
    ensures
        ({
            let (sure, may) = prefix_ends(s, defs, entry, start, count);
            &&& !s.has_entry ==> sure == start && may == start
            &&& s.has_entry && entry is Some && start <= (entry->0).0 <= count ==> sure == (entry->0).0 && may == (
            entry->0).0
        }),
{
}

/// A definition that is used only at one place is read by no other instruction or register,
/// and flows into no phi.
pub proof fn sole_uses_are_the_only_reads(
    f: &DataflowFacts,
    d: DefId,
    at: InstrRef,
    reg: Reg,
    i: int,
    r: Reg,
    p: int,
    k: int,
)
    requires
        f.use_values@.len() <= usize::MAX,
        d.0 < f.def_uses@.len() && d.0 < f.def_phi_uses@.len(),
        f.def_uses@[d.0 as int]@ == sites_of(f.use_values@, SsaValue::Def(d), f.use_values@.len()),
        f.def_phi_uses@[d.0 as int]@ == users_of(f.phi_candidates@, SsaValue::Def(d), f.phi_candidates@.len()),
        f.used_only_by(SsaValue::Def(d), at, reg),
        0 <= i < f.use_values@.len(),
        0 <= p < f.phi_candidates@.len() && 0 <= k < f.phi_candidates@[p].incoming@.len(),
    ensures
        at.0 < f.use_values@.len() && reads_at(f.use_values@, at.0 as int, reg, SsaValue::Def(d)),
        reads_at(f.use_values@, i, r, SsaValue::Def(d)) ==> i == at.0 && r == reg,
        f.phi_candidates@[p].incoming@[k].value != SsaValue::Def(d),
{
    let v = SsaValue::Def(d);
    let row = f.def_uses@[d.0 as int]@;
    let x = UseSite { instr: at, reg };
    assert(row[0] == x);
    sites_are_the_reads(f.use_values@, v, f.use_values@.len(), x);
    let y = UseSite { instr: InstrRef(i as usize), reg: r };
    sites_are_the_reads(f.use_values@, v, f.use_values@.len(), y);
    if row.contains(y) {
        let j = row.index_of(y);
        assert(j == 0);
    }
    if f.phi_candidates@[p].incoming@[k].value == v {
        users_are_the_phis_it_flows_into(f.phi_candidates@, v, f.phi_candidates@.len(), f.phi_candidates@[p].id);
        assert(f.def_phi_uses@[d.0 as int]@.contains(f.phi_candidates@[p].id));
        let j = f.def_phi_uses@[d.0 as int]@.index_of(f.phi_candidates@[p].id);
        assert(f.def_phi_uses@[d.0 as int]@.len() == 0);
    }
}

proof fn source_at(cfg: &Cfg, graph: &GraphFacts, track: TrackModel, p: usize, q: usize, source: Origin)
    requires
        reaches(open_upstream(cfg, graph, track), p, q),
        takes_open(cfg, graph, track, q, source),
    ensures
        open_source(cfg, graph, track, Origin::Phi(p), source),
{
    let o = Origin::Phi(p);
    if let Origin::Phi(k) = o {
        assert(reaches(open_upstream(cfg, graph, track), k, q) && takes_open(cfg, graph, track, q, source));
        assert(open_source(cfg, graph, track, o, source));
    }
}

/// What is no phi is its own only source. What a phi takes is a source of it, and whatever is a
/// source of a phi that it takes is one of its own.
pub proof fn sources_pass_through_phis(
    cfg: &Cfg,
    graph: &GraphFacts,
    track: TrackModel,
    p: usize,
    q: usize,
    d: usize,
    source: Origin,
)
    ensures
        open_source(cfg, graph, track, Origin::Def(d), source) <==> source == Origin::Def(d),
        open_source(cfg, graph, track, Origin::Entry, source) <==> source == Origin::Entry,
        takes_open(cfg, graph, track, p, source) ==> open_source(cfg, graph, track, Origin::Phi(p), source),
        takes_open(cfg, graph, track, p, Origin::Phi(q)) && open_source(cfg, graph, track, Origin::Phi(q), source)
            ==> open_source(cfg, graph, track, Origin::Phi(p), source),
        p == cfg.entry_block.0 ==> open_source(cfg, graph, track, Origin::Phi(p), Origin::Entry),
{
    let step = open_upstream(cfg, graph, track);
    reaches_self(step, p);
    assert(reaches(open_upstream(cfg, graph, track), p, p));
    if takes_open(cfg, graph, track, p, source) {
        source_at(cfg, graph, track, p, p, source);
    }
    if takes_open(cfg, graph, track, p, Origin::Phi(q)) && open_source(cfg, graph, track, Origin::Phi(q), source) {
        let r = choose|r: usize| #[trigger] reaches(step, q, r) && takes_open(cfg, graph, track, r, source);
        assert(step(p, q));
        reaches_then_step(step, p, p, q);
        reaches_transitive(step, p, q, r);
        source_at(cfg, graph, track, p, r, source);
    }
    if p == cfg.entry_block.0 {
        assert(takes_open(cfg, graph, track, p, Origin::Entry));
    }
}

} // verus!
