//! What the small questions about blocks and regions ask for.

use vstd::prelude::*;

use crate::cfg::{Cfg, EdgeKind};
use crate::condition_arcs::ShortModel;
use crate::conditions::{crosses_loop, crosses_some_loop, owned_at, owns_condition, required_header};
use crate::dataflow::{InstrUseValues, PhiCandidate, PhiId, SsaValue, UseSite};
use crate::flood::step_in;
use crate::graph::DominatorTree;
use crate::helpers::{
    enters_region, forward_region, has_prefix, leaves_region, merge_arm_preds, movable_prefix, open_region,
    pure_terminal, reducible_at, region_exits, same_or_jump, same_return,
};
use crate::ids::{BlockRef, EdgeRef, InstrRef, Reg};
use crate::lir::{LowInstr, LoweredProto};
use crate::loop_values::LoopModel;
use crate::uses::{only_block, sites_in, sites_of, users_in, users_of};
use crate::walk::{closed_set_holds_reachable, reaches, reaches_self, reaches_then_step};

verus! {

/// An instruction that passes control on by itself.
pub open spec fn passes_control(i: LowInstr) -> bool {
    match i {
        LowInstr::Jump(_)
        | LowInstr::Branch(_)
        | LowInstr::Return(_)
        | LowInstr::TailCall(_)
        | LowInstr::NumericForInit(_)
        | LowInstr::NumericForLoop(_)
        | LowInstr::GenericForLoop(_) => true,
        _ => false,
    }
}

/// A block does something besides passing control on just when one of its instructions is not
/// its last one, or does not pass control on.
pub proof fn prefixes_are_other_instructions(proto: &LoweredProto, cfg: &Cfg, b: BlockRef)
    requires
        cfg.has_block(b),
        cfg.range(b).end_at() <= proto.instrs@.len(),
    ensures
        has_prefix(proto, cfg, b) <==> exists|i: int|
            cfg.range(b).start.0 <= i < cfg.range(b).end_at() && !(i == cfg.range(b).end_at() - 1 && passes_control(
                #[trigger] proto.instrs@[i],
            )),
{
    let r = cfg.range(b);
    if r.len > 0 {
        let last = proto.instrs@[r.end_at() - 1];
        let first = proto.instrs@[r.start.0 as int];
        if has_prefix(proto, cfg, b) && r.len > 1 {
            assert(!(r.start.0 == r.end_at() - 1 && passes_control(first)));
        }
        if has_prefix(proto, cfg, b) && r.len == 1 {
            assert(!passes_control(last));
        }
    }
}

/// What comes before the passing of control can be moved only if it does nothing but load
/// constants.
pub proof fn movable_prefixes_load_constants(proto: &LoweredProto, cfg: &Cfg, b: BlockRef, i: int)
    requires
        cfg.has_block(b),
        cfg.range(b).end_at() <= proto.instrs@.len(),
        cfg.range(b).start.0 <= i < cfg.range(b).end_at(),
        movable_prefix(proto, cfg, b),
    ensures
        match proto.instrs@[i] {
            LowInstr::LoadNil(_)
            | LowInstr::LoadBool(_)
            | LowInstr::LoadConst(_)
            | LowInstr::LoadInteger(_)
            | LowInstr::LoadNumber(_) => true,
            other => i == cfg.range(b).end_at() - 1 && passes_control(other),
        },
{
}

/// A block that is copied to its users has several of them, one instruction, and only an edge
/// that ends the function.
pub proof fn pure_terminals_end_the_function(cfg: &Cfg, b: BlockRef)
    requires
        cfg.adjacency_wf(),
        pure_terminal(cfg, b) is Some,
    ensures
        pure_terminal(cfg, b)->0 == EdgeKind::Return || pure_terminal(cfg, b)->0 == EdgeKind::TailCall,
        cfg.range(b).len == 1,
        cfg.in_edges(b).len() > 1,
        forall|e: EdgeRef| #[trigger]
            cfg.has_edge(e) && cfg.edge(e).from == b ==> cfg.edge(e).to == cfg.exit_block && cfg.edge(e).kind
                == pure_terminal(cfg, b)->0,
{
    assert forall|e: EdgeRef| #[trigger] cfg.has_edge(e) && cfg.edge(e).from == b implies cfg.edge(e).to
        == cfg.exit_block && cfg.edge(e).kind == pure_terminal(cfg, b)->0 by {
        let k = choose|k: int| 0 <= k < cfg.out_edges(b).len() && cfg.out_edges(b)[k] == e;
    }
}

/// The last instruction of a block.
pub open spec fn last_of(proto: &LoweredProto, cfg: &Cfg, b: BlockRef) -> LowInstr {
    proto.instrs@[cfg.range(b).end_at() - 1]
}

/// Two places count as one where they are one, or where the block of the first holds only a
/// jump to an instruction of the block of the second.
pub proof fn transparent_jumps_are_looked_through(
    proto: &LoweredProto,
    cfg: &Cfg,
    actual: InstrRef,
    expected: InstrRef,
)
    ensures
        same_or_jump(proto, cfg, actual, actual),
        same_or_jump(proto, cfg, actual, expected) && actual != expected ==> ({
            let a = cfg.instr_to_block@[actual.0 as int];
            &&& cfg.range(a).len == 1
            &&& last_of(proto, cfg, a) matches LowInstr::Jump(j) && cfg.instr_to_block@[j.target.0 as int]
                == cfg.instr_to_block@[expected.0 as int]
        }),
{
}

/// Two returns are the same only where both blocks hold nothing else and return the same.
pub proof fn same_returns_return_the_same(proto: &LoweredProto, cfg: &Cfg, actual: InstrRef, expected: InstrRef)
    requires
        same_return(proto, cfg, actual, expected),
    ensures
        ({
            let a = cfg.instr_to_block@[actual.0 as int];
            let b = cfg.instr_to_block@[expected.0 as int];
            &&& cfg.range(a).len == 1 && cfg.range(b).len == 1
            &&& last_of(proto, cfg, a) is Return
            &&& last_of(proto, cfg, a) == last_of(proto, cfg, b)
        }),
        same_return(proto, cfg, expected, actual),
{
}

/// A block where a collection may go on.
pub open spec fn may_pass(
    cfg: &Cfg,
    stop: Option<BlockRef>,
    limit: Option<(BlockRef, &DominatorTree)>,
    b: BlockRef,
) -> bool {
    &&& stop != Some(b)
    &&& cfg.reachable_blocks@.contains(b)
    &&& limit is Some ==> (limit->0).1.dominated((limit->0).0, b)
}

/// What is collected from some entries never holds the stop nor anything beyond the limit,
/// holds the entries that may be passed, goes on along every edge to a block that may be
/// passed, and holds nothing that the entries do not reach so.
pub proof fn collections_stop_where_they_must(
    cfg: &Cfg,
    entries: Seq<BlockRef>,
    stop: Option<BlockRef>,
    limit: Option<(BlockRef, &DominatorTree)>,
    closed: Set<BlockRef>,
)
    ensures
        forall|b: BlockRef| #[trigger]
            forward_region(cfg, entries, stop, limit).contains(b) ==> may_pass(cfg, stop, limit, b),
        forall|k: int|
            0 <= k < entries.len() && may_pass(cfg, stop, limit, #[trigger] entries[k]) ==> forward_region(
                cfg,
                entries,
                stop,
                limit,
            ).contains(entries[k]),
        forall|e: EdgeRef| #[trigger]
            cfg.has_edge(e) && forward_region(cfg, entries, stop, limit).contains(cfg.edge(e).from) && may_pass(
                cfg,
                stop,
                limit,
                cfg.edge(e).to,
            ) ==> forward_region(cfg, entries, stop, limit).contains(cfg.edge(e).to),
        (forall|k: int| 0 <= k < entries.len() ==> closed.contains(#[trigger] entries[k])) && (forall|e: EdgeRef| #[trigger]
            cfg.has_edge(e) && closed.contains(cfg.edge(e).from) ==> closed.contains(cfg.edge(e).to)) ==> forward_region(
            cfg,
            entries,
            stop,
            limit,
        ).subset_of(closed),
{
    let open = open_region(cfg, stop, limit);
    let step = step_in(cfg, open, false);
    let all = forward_region(cfg, entries, stop, limit);
    assert forall|b: BlockRef| #[trigger] all.contains(b) implies may_pass(cfg, stop, limit, b) by {
        let k = choose|k: int|
            0 <= k < entries.len() && open.contains(#[trigger] entries[k]) && reaches(step, entries[k], b);
        closed_set_holds_reachable(step, open, entries[k], b);
    }
    assert forall|k: int| 0 <= k < entries.len() && may_pass(cfg, stop, limit, #[trigger] entries[k]) implies all.contains(
        entries[k],
    ) by {
        reaches_self(step, entries[k]);
        assert(open.contains(entries[k]));
    }
    assert forall|e: EdgeRef| #[trigger]
        cfg.has_edge(e) && all.contains(cfg.edge(e).from) && may_pass(cfg, stop, limit, cfg.edge(e).to) implies all.contains(
        cfg.edge(e).to,
    ) by {
        let (a, b) = (cfg.edge(e).from, cfg.edge(e).to);
        let k = choose|k: int|
            0 <= k < entries.len() && open.contains(#[trigger] entries[k]) && reaches(step, entries[k], a);
        assert(may_pass(cfg, stop, limit, a));
        assert(cfg.links(a, b));
        assert(step(a, b));
        reaches_then_step(step, entries[k], a, b);
    }
    if (forall|k: int| 0 <= k < entries.len() ==> closed.contains(#[trigger] entries[k])) && (forall|e: EdgeRef| #[trigger]
        cfg.has_edge(e) && closed.contains(cfg.edge(e).from) ==> closed.contains(cfg.edge(e).to)) {
        assert forall|b: BlockRef| all.contains(b) implies closed.contains(b) by {
            let k = choose|k: int|
                0 <= k < entries.len() && open.contains(#[trigger] entries[k]) && reaches(step, entries[k], b);
            closed_set_holds_reachable(step, closed, entries[k], b);
        }
    }
}

/// An arm flows into its merge through blocks that lie on the arm, are not the merge, and have
/// an edge to it; where the arm's entry has such an edge, it is one of them.
pub proof fn arms_flow_in_before_the_merge(cfg: &Cfg, entry: BlockRef, merge: BlockRef, b: BlockRef)
    ensures
        merge_arm_preds(cfg, entry, merge).contains(b) ==> b != merge && cfg.reachable_blocks@.contains(b) && exists|
            e: EdgeRef,
        | #[trigger] cfg.has_edge(e) && cfg.edge(e).from == b && cfg.edge(e).to == merge,
        entry != merge && cfg.reachable_blocks@.contains(entry) && (exists|e: EdgeRef| #[trigger]
            cfg.has_edge(e) && cfg.edge(e).from == entry && cfg.edge(e).to == merge) ==> merge_arm_preds(
            cfg,
            entry,
            merge,
        ).contains(entry),
{
    let limit: Option<(BlockRef, &DominatorTree)> = None;
    collections_stop_where_they_must(cfg, seq![entry], Some(merge), limit, Set::empty());
    let arm = forward_region(cfg, seq![entry], Some(merge), limit);
    if merge_arm_preds(cfg, entry, merge).contains(b) {
        assert(arm.contains(b));
        assert(may_pass(cfg, Some(merge), limit, b));
    }
    assert(seq![entry][0] == entry);
    if entry != merge && cfg.reachable_blocks@.contains(entry) {
        assert(may_pass(cfg, Some(merge), limit, seq![entry][0]));
        assert(arm.contains(entry));
    }
}

/// The exits of a region are the reachable blocks outside of it to which one of its blocks has
/// an edge.
pub proof fn exits_lie_outside(cfg: &Cfg, blocks: Set<BlockRef>, b: BlockRef)
    ensures
        region_exits(cfg, blocks).contains(b) <==> !blocks.contains(b) && cfg.reachable_blocks@.contains(b) && exists|
            e: EdgeRef,
        | #[trigger] cfg.has_edge(e) && blocks.contains(cfg.edge(e).from) && cfg.edge(e).to == b,
{
    if !blocks.contains(b) && cfg.reachable_blocks@.contains(b) && exists|e: EdgeRef| #[trigger]
        cfg.has_edge(e) && blocks.contains(cfg.edge(e).from) && cfg.edge(e).to == b {
        let e = choose|e: EdgeRef| #[trigger]
            cfg.has_edge(e) && blocks.contains(cfg.edge(e).from) && cfg.edge(e).to == b;
        assert(leaves_region(cfg, blocks, e));
    }
}

/// A region is entered at its header alone just when every edge into another of its blocks
/// comes from within, or from where nothing gets.
pub proof fn reducible_regions_are_entered_at_the_header(cfg: &Cfg, header: BlockRef, blocks: Set<BlockRef>)
    ensures
        reducible_at(cfg, header, blocks) <==> forall|e: EdgeRef| #[trigger]
            cfg.has_edge(e) && blocks.contains(cfg.edge(e).to) && cfg.edge(e).to != header ==> blocks.contains(
                cfg.edge(e).from,
            ) || !cfg.reachable_blocks@.contains(cfg.edge(e).from),
{
    if reducible_at(cfg, header, blocks) {
        assert forall|e: EdgeRef| #[trigger]
            cfg.has_edge(e) && blocks.contains(cfg.edge(e).to) && cfg.edge(e).to != header implies blocks.contains(
            cfg.edge(e).from,
        ) || !cfg.reachable_blocks@.contains(cfg.edge(e).from) by {
            assert(enters_region(cfg, blocks, e) ==> cfg.edge(e).to == header);
        }
    }
}

/// A condition that crosses no loop holds the deciding block of a loop only as its own header,
/// or where a loop with the same header owns it.
pub proof fn conditions_keep_out_of_other_loops(cfg: &Cfg, loops: Seq<LoopModel>, s: ShortModel, j: int)
    requires
        !crosses_some_loop(cfg, loops, s),
        0 <= j < loops.len(),
        required_header(cfg, loops[j]) is Some,
        s.blocks.contains(required_header(cfg, loops[j])->0),
    ensures
        required_header(cfg, loops[j])->0 == s.header || exists|i: int|
            0 <= i < loops.len() && (#[trigger] loops[i]).header == loops[j].header && required_header(cfg, loops[i])
                == Some(s.header) && forall|b: BlockRef| #[trigger]
                s.blocks.contains(b) ==> loops[i].blocks.contains(b) || loops[i].scope.contains(b)
                    || loops[i].control.contains(b),
{
    assert(!crosses_loop(cfg, loops, s, j));
    if required_header(cfg, loops[j])->0 != s.header {
        assert(owned_at(cfg, loops, s, loops[j].header));
        let i = choose|i: int|
            0 <= i < loops.len() && owns_condition(cfg, #[trigger] loops[i], s) && loops[i].header
                == loops[j].header;
        assert(loops[i].header == loops[j].header);
    }
}

/// Instruction `i` reads `v` from register `reg`.
pub open spec fn reads_at(uses: Seq<InstrUseValues>, i: int, reg: Reg, v: SsaValue) -> bool {
    uses[i].fixed@.contains((reg, v))
}

proof fn sites_within(reads: Seq<(Reg, SsaValue)>, v: SsaValue, i: int, n: nat, acc: Seq<UseSite>, x: UseSite)
    requires
        n <= reads.len(),
    ensures
        sites_in(reads, v, i, n, acc).contains(x) <==> acc.contains(x) || x.instr == InstrRef(i as usize) && exists|k: int|
            0 <= k < n && #[trigger] reads[k] == (x.reg, v),
    decreases n,
{
    if n > 0 {
        let m = (n - 1) as nat;
        sites_within(reads, v, i, m, acc, x);
        let rest = sites_in(reads, v, i, m, acc);
        let now = sites_in(reads, v, i, n, acc);
        if rest.contains(x) {
            let k = rest.index_of(x);
            assert(now[k] == x);
        }
        if now.contains(x) && !rest.contains(x) {
            let k = now.index_of(x);
            assert(k == rest.len() || now[k] == rest[k]);
            assert(reads[m as int] == (x.reg, v));
        }
        if x.instr == InstrRef(i as usize) && reads[m as int] == (x.reg, v) {
            assert(now.last() == x);
        }
    } else {
        assert(sites_in(reads, v, i, n, acc) == acc);
    }
}

/// The sites that are listed for a value are the instructions and registers that read it.
pub proof fn sites_are_the_reads(uses: Seq<InstrUseValues>, v: SsaValue, n: nat, x: UseSite)
    requires
        n <= uses.len() <= usize::MAX,
    ensures
        sites_of(uses, v, n).contains(x) <==> x.instr.0 < n && reads_at(uses, x.instr.0 as int, x.reg, v),
    decreases n,
{
    if n > 0 {
        let m = n - 1;
        sites_are_the_reads(uses, v, m as nat, x);
        let reads = uses[m].fixed@;
        sites_within(reads, v, m, reads.len(), sites_of(uses, v, m as nat), x);
        if x.instr == InstrRef(m as usize) {
            if reads.contains((x.reg, v)) {
                let k = reads.index_of((x.reg, v));
                assert(reads[k] == (x.reg, v));
            }
        }
    }
}

proof fn users_within(phi: &PhiCandidate, v: SsaValue, n: nat, acc: Seq<PhiId>, x: PhiId)
    requires
        n <= phi.incoming@.len(),
    ensures
        users_in(phi, v, n, acc).contains(x) <==> acc.contains(x) || x == phi.id && v != SsaValue::Phi(phi.id) && exists|
            k: int,
        | 0 <= k < n && (#[trigger] phi.incoming@[k]).value == v,
    decreases n,
{
    if n > 0 {
        let m = (n - 1) as nat;
        users_within(phi, v, m, acc, x);
        let rest = users_in(phi, v, m, acc);
        let now = users_in(phi, v, n, acc);
        if rest.contains(x) {
            let k = rest.index_of(x);
            assert(now[k] == x);
        }
        if now.contains(x) && !rest.contains(x) {
            let k = now.index_of(x);
            assert(k == rest.len() || now[k] == rest[k]);
            assert(phi.incoming@[m as int].value == v && x == phi.id);
        }
        if x == phi.id && v != SsaValue::Phi(phi.id) && phi.incoming@[m as int].value == v {
            assert(now.last() == x);
        }
    }
}

/// The phis that are listed for a value are those that it flows into, but for itself.
pub proof fn users_are_the_phis_it_flows_into(phis: Seq<PhiCandidate>, v: SsaValue, n: nat, x: PhiId)
    requires
        n <= phis.len(),
    ensures
        users_of(phis, v, n).contains(x) <==> v != SsaValue::Phi(x) && exists|p: int, k: int|
            0 <= p < n && 0 <= k < phis[p].incoming@.len() && phis[p].id == x && (#[trigger] phis[p].incoming@[k]).value == v,
    decreases n,
{
    if n > 0 {
        let m = n - 1;
        users_are_the_phis_it_flows_into(phis, v, m as nat, x);
        let phi = &phis[m];
        users_within(phi, v, phi.incoming@.len(), users_of(phis, v, m as nat), x);
        if v != SsaValue::Phi(x) && exists|p: int, k: int|
            0 <= p < n && 0 <= k < phis[p].incoming@.len() && phis[p].id == x && (#[trigger] phis[p].incoming@[k]).value == v {
            let (p, k) = choose|p: int, k: int|
                0 <= p < n && 0 <= k < phis[p].incoming@.len() && phis[p].id == x && (#[trigger] phis[p].incoming@[k]).value
                    == v;
            if p < m {
                assert(phis[p].incoming@[k].value == v);
            } else {
                assert(phi.incoming@[k].value == v);
            }
        }
    }
}

/// The block of a value's reads is named just when there are some and all stand in it.
pub proof fn the_only_block_holds_every_read(cfg: &Cfg, sites: Seq<UseSite>, b: BlockRef)
    ensures
        only_block(cfg, sites) == Some(b) <==> sites.len() > 0 && forall|k: int|
            0 <= k < sites.len() ==> cfg.instr_to_block@[(#[trigger] sites[k]).instr.0 as int] == b,
{
    if sites.len() > 0 && forall|k: int|
        0 <= k < sites.len() ==> cfg.instr_to_block@[(#[trigger] sites[k]).instr.0 as int] == b {
        assert(cfg.instr_to_block@[sites[0].instr.0 as int] == b);
    }
}

} // verus!
