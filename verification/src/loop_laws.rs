//! What the kinds of loops say of the instructions.

use vstd::prelude::*;

use crate::cfg::{Cfg, EdgeKind};
use crate::dataflow::DataflowFacts;
use crate::evidence::{LoopKindHint, LoopSourceBindings};
use crate::helpers::{fits, known_blocks};
use crate::ids::{BlockRef, EdgeRef, InstrRef, Reg};
use crate::lir::{BranchInstr, GenericForCallInstr, GenericForLoopInstr, JumpInstr, LowInstr, LoweredProto, NumericForInstr, ResultPack};
use crate::loop_shape::{
    all_terminal, backedge_sources, block_cleans_up, carried_regs, closes, feeds_condition, init_at, is_cleanup,
    is_condition_step, latch_at, needed_before, only_source, region_cleans_up, repeat_condition, shape_of, to_or_out,
    writes_any, Shape, ShapeInput,
};
use crate::search::{only_where, only_where_alone};

verus! {

/// `i` is the last instruction of block `b`.
pub open spec fn ends_in(proto: &LoweredProto, cfg: &Cfg, b: BlockRef, i: LowInstr) -> bool {
    &&& cfg.has_block(b)
    &&& cfg.range(b).len >= 1
    &&& cfg.range(b).start.0 + cfg.range(b).len <= proto.instrs@.len()
    &&& proto.instrs@[cfg.range(b).start.0 + cfg.range(b).len - 1] == i
}

/// `i` and `j` are the last two instructions of block `b`.
pub open spec fn ends_in_both(proto: &LoweredProto, cfg: &Cfg, b: BlockRef, i: LowInstr, j: LowInstr) -> bool {
    ends_in(proto, cfg, b, j) && cfg.range(b).len >= 2 && proto.instrs@[cfg.range(b).start.0 + cfg.range(b).len - 2] == i
}

/// Instruction `i` stands in one of `blocks`.
pub open spec fn stands_in(cfg: &Cfg, i: InstrRef, blocks: Set<BlockRef>) -> bool {
    blocks.contains(cfg.instr_to_block@[i.0 as int])
}

/// The call of the iterator hands its results to the loop's variables, and its control value
/// to where the loop looks for it.
pub open spec fn calls_for(call: GenericForCallInstr, i: GenericForLoopInstr) -> bool {
    call.control == i.control_target && call.results == ResultPack::Fixed(i.bindings)
}

/// Some back edge comes from a block that closes, with the same registers, the numeric `for`
/// that the block before the loop opens into its header.
pub open spec fn counted(proto: &LoweredProto, cfg: &Cfg, s: ShapeInput) -> bool {
    exists|init: NumericForInstr, latch: NumericForInstr, k: int|
        #![trigger ends_in(proto, cfg, s.preheader->0, LowInstr::NumericForInit(init)), ends_in(proto, cfg, cfg.edge(s.backedges[k]).from, LowInstr::NumericForLoop(latch))]
        {
            &&& s.preheader is Some
            &&& ends_in(proto, cfg, s.preheader->0, LowInstr::NumericForInit(init))
            &&& cfg.instr_to_block@[init.body_target.0 as int] == s.header
            &&& 0 <= k < s.backedges.len()
            &&& ends_in(proto, cfg, cfg.edge(s.backedges[k]).from, LowInstr::NumericForLoop(latch))
            &&& same_registers(init, latch)
        }
}

/// Block `b` branches, one way into `blocks` and one way out of them.
pub open spec fn parts_ways(cfg: &Cfg, b: BlockRef, blocks: Set<BlockRef>) -> bool {
    exists|t: EdgeRef, f: EdgeRef| #[trigger]
        is_fork(cfg, b, t, f) && blocks.contains(cfg.edge(t).to) != blocks.contains(cfg.edge(f).to)
}

/// `t` and `f` are the true and the false edge out of block `b`.
pub open spec fn is_fork(cfg: &Cfg, b: BlockRef, t: EdgeRef, f: EdgeRef) -> bool {
    &&& cfg.has_edge(t) && cfg.edge(t).from == b && cfg.edge(t).kind == EdgeKind::BranchTrue
    &&& cfg.has_edge(f) && cfg.edge(f).from == b && cfg.edge(f).kind == EdgeKind::BranchFalse
}

/// Block `b` goes to `target` or leaves `blocks`.
pub open spec fn leaves_or(cfg: &Cfg, b: BlockRef, target: BlockRef, blocks: Set<BlockRef>) -> bool {
    exists|t: EdgeRef, f: EdgeRef| #[trigger]
        is_fork(cfg, b, t, f) && ((cfg.edge(t).to == target && !blocks.contains(cfg.edge(f).to)) || (cfg.edge(f).to == target
            && !blocks.contains(cfg.edge(t).to)))
}

/// Some back edge comes from block `b`.
pub open spec fn comes_back(cfg: &Cfg, s: ShapeInput, b: BlockRef) -> bool {
    exists|k: int| 0 <= k < s.backedges.len() && cfg.edge(#[trigger] s.backedges[k]).from == b
}

/// The back edges come from block `b`, and from nowhere else.
pub open spec fn comes_back_only(cfg: &Cfg, s: ShapeInput, b: BlockRef) -> bool {
    s.backedges.len() > 0 && forall|k: int| 0 <= k < s.backedges.len() ==> cfg.edge(#[trigger] s.backedges[k]).from == b
}

/// A loop whose header asks the iterator and goes on into the loop or leaves it is a generic
/// `for`, unless it counts: it goes on at its header, and its variables are those that the
/// header's last instruction binds. So is one that is left either way.
pub proof fn generic_for_is_recognised(
    proto: &LoweredProto,
    cfg: &Cfg,
    dataflow: &DataflowFacts,
    s: ShapeInput,
    call: GenericForCallInstr,
    i: GenericForLoopInstr,
)
    requires
        fits(proto, cfg),
        cfg.has_block(s.header),
        !counted(proto, cfg, s),
        ends_in_both(proto, cfg, s.header, LowInstr::GenericForCall(call), LowInstr::GenericForLoop(i)),
        calls_for(call, i),
        stands_in(cfg, i.body_target, s.blocks) || cfg.instr_to_block@[i.body_target.0 as int]
            == cfg.instr_to_block@[i.exit_target.0 as int],
        !stands_in(cfg, i.exit_target, s.blocks),
    ensures
        ({
            let r = shape_of(proto, cfg, dataflow, s);
            &&& r.kind == LoopKindHint::GenericForLike
            &&& r.continue_target == Some(s.header)
            &&& r.bindings == Some(LoopSourceBindings::Generic(i.bindings))
        }),
{
    if shape_of(proto, cfg, dataflow, s).kind == LoopKindHint::NumericForLike {
        numeric_for_counts(proto, cfg, dataflow, s);
    }
}

/// The registers that the opening instruction names are those of the closing one.
pub open spec fn same_registers(init: NumericForInstr, latch: NumericForInstr) -> bool {
    init.index == latch.index && init.limit == latch.limit && init.step == latch.step && init.binding == latch.binding
}

/// The loop counts: `init` opens it into its header, `latch` closes it where it goes on.
pub open spec fn counts_with(
    proto: &LoweredProto,
    cfg: &Cfg,
    s: ShapeInput,
    r: Shape,
    init: NumericForInstr,
    latch: NumericForInstr,
) -> bool {
    &&& s.preheader is Some
    &&& ends_in(proto, cfg, s.preheader->0, LowInstr::NumericForInit(init))
    &&& cfg.instr_to_block@[init.body_target.0 as int] == s.header
    &&& r.continue_target is Some
    &&& comes_back(cfg, s, r.continue_target->0)
    &&& ends_in(proto, cfg, r.continue_target->0, LowInstr::NumericForLoop(latch))
    &&& same_registers(init, latch)
    &&& r.bindings == Some(LoopSourceBindings::Numeric(init.binding))
}

/// A loop is a numeric `for` only where the block before opens one into its header. It goes
/// on at a block that comes back and closes the loop with the same registers, and its
/// variable is the register that the opening instruction binds.
pub proof fn numeric_for_counts(proto: &LoweredProto, cfg: &Cfg, dataflow: &DataflowFacts, s: ShapeInput)
    requires
        shape_of(proto, cfg, dataflow, s).kind == LoopKindHint::NumericForLike,
    ensures
        counted(proto, cfg, s),
        exists|init: NumericForInstr, latch: NumericForInstr| #[trigger]
            counts_with(proto, cfg, s, shape_of(proto, cfg, dataflow, s), init, latch),
{
    let p = s.preheader->0;
    let init = init_at(proto, cfg, p)->0;
    let sources = backedge_sources(cfg, s.backedges);
    let q = closes(proto, cfg, sources, init);
    let n = cfg.blocks@.len();
    let b = only_where(n, q)->0;
    only_where_alone(n, q, b);
    assert(q(b));
    let block = BlockRef(b as usize);
    let latch = latch_at(proto, cfg, block)->0;
    let k = choose|k: int| 0 <= k < s.backedges.len() && cfg.edge(#[trigger] s.backedges[k]).from == block;
    assert(ends_in(proto, cfg, p, LowInstr::NumericForInit(init)));
    assert(ends_in(proto, cfg, cfg.edge(s.backedges[k]).from, LowInstr::NumericForLoop(latch)));
    assert(counts_with(proto, cfg, s, shape_of(proto, cfg, dataflow, s), init, latch));
}

/// A loop that the block before opens as a numeric `for` into its header, and that the one
/// closing instruction with the same registers, body and exit brings back, is a numeric `for`:
/// it goes on at the block of that instruction, whose register is its variable.
pub proof fn numeric_for_is_recognised(
    proto: &LoweredProto,
    cfg: &Cfg,
    dataflow: &DataflowFacts,
    s: ShapeInput,
    i: NumericForInstr,
    latch: BlockRef,
)
    requires
        fits(proto, cfg),
        s.preheader is Some,
        ends_in(proto, cfg, s.preheader->0, LowInstr::NumericForInit(i)),
        cfg.instr_to_block@[i.body_target.0 as int] == s.header,
        comes_back(cfg, s, latch),
        ends_in(proto, cfg, latch, LowInstr::NumericForLoop(i)),
        forall|k: int, j: NumericForInstr| #![trigger ends_in(proto, cfg, cfg.edge(s.backedges[k]).from, LowInstr::NumericForLoop(j))]
            0 <= k < s.backedges.len() && ends_in(proto, cfg, cfg.edge(s.backedges[k]).from, LowInstr::NumericForLoop(j))
                ==> cfg.edge(s.backedges[k]).from == latch,
    ensures
        shape_of(proto, cfg, dataflow, s) == (Shape {
            kind: LoopKindHint::NumericForLike,
            continue_target: Some(latch),
            bindings: Some(LoopSourceBindings::Numeric(i.binding)),
        }),
{
    let sources = backedge_sources(cfg, s.backedges);
    let q = closes(proto, cfg, sources, i);
    let n = cfg.blocks@.len();
    assert(sources.contains(latch));
    assert(BlockRef(latch.0 as int as usize) == latch);
    assert(q(latch.0 as int));
    assert forall|b: int| 0 <= b < n && b != latch.0 implies !#[trigger] q(b) by {
        if q(b) {
            let block = BlockRef(b as usize);
            let k = choose|k: int| 0 <= k < s.backedges.len() && cfg.edge(#[trigger] s.backedges[k]).from == block;
            let j = latch_at(proto, cfg, block)->0;
            assert(n <= usize::MAX) by {
                let m = cfg.blocks.len();
                assert(m == n);
            }
            assert(ends_in(proto, cfg, cfg.edge(s.backedges[k]).from, LowInstr::NumericForLoop(j)));
        }
    }
    only_where_alone(n, q, latch.0 as int);
}

/// A loop whose header does nothing but branch, one way into the loop and one way out of it,
/// is a `while`, unless it counts.
pub proof fn while_is_recognised(
    proto: &LoweredProto,
    cfg: &Cfg,
    dataflow: &DataflowFacts,
    s: ShapeInput,
    b: BranchInstr,
)
    requires
        fits(proto, cfg),
        cfg.has_block(s.header),
        !counted(proto, cfg, s),
        ends_in(proto, cfg, s.header, LowInstr::Branch(b)),
        cfg.range(s.header).len == 1,
        cfg.out_edges(s.header).len() == 2,
        parts_ways(cfg, s.header, s.blocks),
    ensures
        shape_of(proto, cfg, dataflow, s) == (Shape {
            kind: LoopKindHint::WhileLike,
            continue_target: Some(s.header),
            bindings: None,
        }),
{
    if shape_of(proto, cfg, dataflow, s).kind == LoopKindHint::NumericForLike {
        numeric_for_counts(proto, cfg, dataflow, s);
    }
    let (t, f) = choose|t: EdgeRef, f: EdgeRef| #[trigger]
        is_fork(cfg, s.header, t, f) && s.blocks.contains(cfg.edge(t).to) != s.blocks.contains(cfg.edge(f).to);
    cfg.branch_edges_by_kind(s.header, t, f);
}

/// A loop is a `while` only where its header branches, one way into the loop and one way out
/// of it. It goes on at its header and has no variables.
pub proof fn while_branches_at_its_header(proto: &LoweredProto, cfg: &Cfg, dataflow: &DataflowFacts, s: ShapeInput)
    requires
        fits(proto, cfg),
        cfg.has_block(s.header),
        shape_of(proto, cfg, dataflow, s).kind == LoopKindHint::WhileLike,
    ensures
        exists|b: BranchInstr| #[trigger] ends_in(proto, cfg, s.header, LowInstr::Branch(b)),
        parts_ways(cfg, s.header, s.blocks),
        shape_of(proto, cfg, dataflow, s).continue_target == Some(s.header),
        shape_of(proto, cfg, dataflow, s).bindings is None,
{
    match cfg.terminator_of(proto.instrs@, s.header) {
        Some(LowInstr::Branch(b)) => {
            assert(ends_in(proto, cfg, s.header, LowInstr::Branch(b)));
        },
        _ => {},
    }
    let (t, f) = cfg.branch_edges_of(s.header)->0;
    cfg.branch_edges_by_kind(s.header, t, f);
    assert(is_fork(cfg, s.header, t, f));
}

/// A loop is a generic `for` only where its header asks the iterator and may leave the loop.
/// It goes on at its header, and its variables are those that the header binds.
pub proof fn generic_for_asks_at_its_header(proto: &LoweredProto, cfg: &Cfg, dataflow: &DataflowFacts, s: ShapeInput)
    requires
        fits(proto, cfg),
        cfg.has_block(s.header),
        shape_of(proto, cfg, dataflow, s).kind == LoopKindHint::GenericForLike,
    ensures
        exists|call: GenericForCallInstr, i: GenericForLoopInstr| {
            &&& #[trigger] ends_in_both(proto, cfg, s.header, LowInstr::GenericForCall(call), LowInstr::GenericForLoop(i))
            &&& calls_for(call, i)
            &&& !stands_in(cfg, i.exit_target, s.blocks)
            &&& shape_of(proto, cfg, dataflow, s).bindings == Some(LoopSourceBindings::Generic(i.bindings))
        },
        shape_of(proto, cfg, dataflow, s).continue_target == Some(s.header),
{
    match cfg.terminator_of(proto.instrs@, s.header) {
        Some(LowInstr::GenericForLoop(i)) => {
            match proto.instrs@[cfg.range(s.header).end_at() - 2] {
                LowInstr::GenericForCall(call) => {
                    assert(ends_in_both(proto, cfg, s.header, LowInstr::GenericForCall(call), LowInstr::GenericForLoop(i)));
                },
                _ => {},
            }
        },
        _ => {},
    }
}

/// Only the two `for` loops have variables.
pub proof fn only_for_loops_have_variables(proto: &LoweredProto, cfg: &Cfg, dataflow: &DataflowFacts, s: ShapeInput)
    ensures
        ({
            let r = shape_of(proto, cfg, dataflow, s);
            &&& r.bindings is None <==> r.kind != LoopKindHint::NumericForLike && r.kind != LoopKindHint::GenericForLike
            &&& r.kind == LoopKindHint::NumericForLike ==> r.bindings is Some && r.bindings->0 is Numeric
            &&& r.kind == LoopKindHint::GenericForLike ==> r.bindings is Some && r.bindings->0 is Generic
        }),
{
}

/// Every instruction between the first of block `b` and its last writes none of `regs` and
/// has no effect beyond registers: it stores nothing, ends no scope and passes no control on.
pub open spec fn only_computes(proto: &LoweredProto, cfg: &Cfg, dataflow: &DataflowFacts, b: BlockRef, regs: Set<Reg>) -> bool {
    forall|i: int| #![trigger proto.instrs@[i]]
        cfg.range(b).start.0 <= i < cfg.range(b).start.0 + cfg.range(b).len - 1 ==> {
            &&& i < dataflow.instr_effects@.len()
            &&& forall|r: Reg| #[trigger] regs.contains(r) ==> !dataflow.instr_effects@[i].defines(r)
            &&& !(proto.instrs@[i] is SetUpvalue) && !(proto.instrs@[i] is SetTable) && !(proto.instrs@[i] is SetList)
            &&& !(proto.instrs@[i] is Close) && !(proto.instrs@[i] is Tbc)
            &&& !proto.instrs@[i].ends_control()
            &&& !(proto.instrs@[i] is GenericForPrep) && !(proto.instrs@[i] is GenericForCall)
        }
}

/// The header of a `while` only works towards its condition, and writes no register that the
/// loop carries from one iteration to the next.
pub proof fn while_header_only_computes(proto: &LoweredProto, cfg: &Cfg, dataflow: &DataflowFacts, s: ShapeInput)
    requires
        fits(proto, cfg),
        cfg.has_block(s.header),
        shape_of(proto, cfg, dataflow, s).kind == LoopKindHint::WhileLike,
    ensures
        only_computes(
            proto,
            cfg,
            dataflow,
            s.header,
            Set::new(|r: Reg| exists|k: int| 0 <= k < s.values.len() && (#[trigger] s.values[k]).reg == r),
        ),
{
    let regs = carried_regs(s.values);
    assert(regs =~= Set::new(|r: Reg| exists|k: int| 0 <= k < s.values.len() && (#[trigger] s.values[k]).reg == r));
    let range = cfg.range(s.header);
    let last = range.end_at() - 1;
    assert forall|i: int| #![trigger proto.instrs@[i]]
        range.start.0 <= i < range.start.0 + range.len - 1 implies {
        &&& i < dataflow.instr_effects@.len()
        &&& forall|r: Reg| #[trigger] regs.contains(r) ==> !dataflow.instr_effects@[i].defines(r)
        &&& is_condition_step(proto.instrs@[i])
    } by {
        condition_steps_compute(
            proto,
            dataflow,
            regs,
            range.start.0 as int,
            last,
            dataflow.instr_effects@[last].fixed_uses@,
            i,
        );
    }
}

proof fn condition_steps_compute(
    proto: &LoweredProto,
    dataflow: &DataflowFacts,
    carried: Set<Reg>,
    start: int,
    end: int,
    needed: Set<Reg>,
    i: int,
)
    requires
        feeds_condition(proto, dataflow, carried, start, end, needed),
        start <= i < end,
    ensures
        i < dataflow.instr_effects@.len(),
        forall|r: Reg| #[trigger] carried.contains(r) ==> !dataflow.instr_effects@[i].defines(r),
        is_condition_step(proto.instrs@[i]),
    decreases end - start,
{
    let k = end - 1;
    let effect = &dataflow.instr_effects@[k];
    if i < k {
        if writes_any(effect, needed) {
            condition_steps_compute(proto, dataflow, carried, start, k, needed_before(effect, needed), i);
        } else {
            condition_steps_compute(proto, dataflow, carried, start, k, needed, i);
        }
    } else {
        assert forall|r: Reg| #[trigger] carried.contains(r) implies !dataflow.instr_effects@[i].defines(r) by {
            if effect.defines(r) {
                assert(writes_any(effect, carried));
            }
        }
    }
}

/// The one source that the back edges have is where all of them come from.
proof fn only_source_is_the_source(cfg: &Cfg, s: ShapeInput, b: BlockRef)
    ensures
        only_source(cfg, s.backedges) == Some(b) <==> comes_back_only(cfg, s, b),
{
    let sources = backedge_sources(cfg, s.backedges);
    let froms = s.backedges.map_values(|e: EdgeRef| cfg.edge(e).from);
    assert(sources =~= froms.to_set()) by {
        assert forall|x: BlockRef| sources.contains(x) <==> froms.contains(x) by {
            if sources.contains(x) {
                let k = choose|k: int| 0 <= k < s.backedges.len() && cfg.edge(#[trigger] s.backedges[k]).from == x;
                assert(froms[k] == x);
            }
            if froms.contains(x) {
                let k = choose|k: int| 0 <= k < froms.len() && froms[k] == x;
                assert(cfg.edge(s.backedges[k]).from == x);
            }
        }
    }
    vstd::seq_lib::seq_to_set_is_finite(froms);
    if only_source(cfg, s.backedges) == Some(b) {
        assert(sources.len() == 1);
        let x = sources.choose();
        assert(sources.remove(x).len() == 0);
        sources.remove(x).lemma_len0_is_empty();
        assert(sources.contains(x));
        assert(sources.contains(b));
        assert forall|k: int| 0 <= k < s.backedges.len() implies cfg.edge(#[trigger] s.backedges[k]).from == b by {
            let y = cfg.edge(s.backedges[k]).from;
            assert(sources.contains(y));
            if y != x {
                assert(sources.remove(x).contains(y));
            }
            if b != x {
                assert(sources.remove(x).contains(b));
            }
        }
        if s.backedges.len() == 0 {
            assert(!sources.contains(b));
        }
    }
    if comes_back_only(cfg, s, b) {
        assert(cfg.edge(s.backedges[0]).from == b);
        assert(sources =~= Set::empty().insert(b));
        assert(sources.len() == 1);
        assert(sources.contains(b));
    }
}

/// Block `b` closes scopes, if anything, and jumps to block `target`.
pub open spec fn only_closes_and_jumps(proto: &LoweredProto, cfg: &Cfg, b: BlockRef, target: BlockRef) -> bool {
    &&& exists|j: JumpInstr| #[trigger]
        ends_in(proto, cfg, b, LowInstr::Jump(j)) && cfg.instr_to_block@[j.target.0 as int] == target
    &&& forall|i: int|
        cfg.range(b).start.0 <= i < cfg.range(b).start.0 + cfg.range(b).len - 1 ==> (#[trigger] proto.instrs@[i]) is Close
}

/// A loop is a `repeat` only where one block brings it back and its condition, at which it
/// goes on, branches out of the loop or back: to the header at once, or to a block that does
/// nothing but close scopes and jump there.
pub proof fn repeat_branches_at_its_end(proto: &LoweredProto, cfg: &Cfg, dataflow: &DataflowFacts, s: ShapeInput)
    requires
        fits(proto, cfg),
        forall|k: int| 0 <= k < s.backedges.len() ==> cfg.has_edge(#[trigger] s.backedges[k]),
        shape_of(proto, cfg, dataflow, s).kind == LoopKindHint::RepeatLike,
    ensures
        ({
            let r = shape_of(proto, cfg, dataflow, s);
            &&& r.bindings is None
            &&& r.continue_target is Some
            &&& exists|b: BranchInstr| #[trigger] ends_in(proto, cfg, r.continue_target->0, LowInstr::Branch(b))
            &&& {
                ||| comes_back_only(cfg, s, r.continue_target->0) && leaves_or(cfg, r.continue_target->0, s.header, s.blocks)
                ||| exists|p: BlockRef| #[trigger]
                    comes_back_only(cfg, s, p) && only_closes_and_jumps(proto, cfg, p, s.header) && leaves_or(
                        cfg,
                        r.continue_target->0,
                        p,
                        s.blocks,
                    )
            }
        }),
{
    let r = shape_of(proto, cfg, dataflow, s);
    let source = only_source(cfg, s.backedges)->0;
    only_source_is_the_source(cfg, s, source);
    let k: int = 0;
    assert(cfg.edge(s.backedges[k]).from == source && cfg.has_edge(s.backedges[k]));
    let c = r.continue_target->0;
    match cfg.terminator_of(proto.instrs@, c) {
        Some(LowInstr::Branch(b)) => {
            assert(ends_in(proto, cfg, c, LowInstr::Branch(b)));
        },
        _ => {},
    }
    let (t, f) = cfg.branch_edges_of(c)->0;
    cfg.branch_edges_by_kind(c, t, f);
    assert(is_fork(cfg, c, t, f));
    if c != source || !to_or_out(cfg, source, s.header, s.blocks) {
        match cfg.terminator_of(proto.instrs@, source) {
            Some(LowInstr::Jump(j)) => {
                assert(ends_in(proto, cfg, source, LowInstr::Jump(j)));
            },
            _ => {},
        }
        assert(leaves_or(cfg, c, source, s.blocks));
    }
}

/// Where the back edges come from one block that branches back to the header or out of the
/// loop, while the header neither branches nor asks an iterator, the loop is a `repeat` that
/// goes on at that block, unless it counts.
pub proof fn repeat_is_recognised(
    proto: &LoweredProto,
    cfg: &Cfg,
    dataflow: &DataflowFacts,
    s: ShapeInput,
    source: BlockRef,
    b: BranchInstr,
)
    requires
        fits(proto, cfg),
        cfg.has_block(s.header),
        !counted(proto, cfg, s),
        forall|i: BranchInstr| !#[trigger] ends_in(proto, cfg, s.header, LowInstr::Branch(i)),
        forall|i: GenericForLoopInstr| !#[trigger] ends_in(proto, cfg, s.header, LowInstr::GenericForLoop(i)),
        comes_back_only(cfg, s, source),
        ends_in(proto, cfg, source, LowInstr::Branch(b)),
        cfg.out_edges(source).len() == 2,
        leaves_or(cfg, source, s.header, s.blocks),
    ensures
        shape_of(proto, cfg, dataflow, s) == (Shape {
            kind: LoopKindHint::RepeatLike,
            continue_target: Some(source),
            bindings: None,
        }),
{
    let r = shape_of(proto, cfg, dataflow, s);
    if r.kind == LoopKindHint::NumericForLike {
        numeric_for_counts(proto, cfg, dataflow, s);
    }
    only_source_is_the_source(cfg, s, source);
    match cfg.terminator_of(proto.instrs@, s.header) {
        Some(i) => {
            assert(ends_in(proto, cfg, s.header, i));
        },
        None => {},
    }
    let (t, f) = choose|t: EdgeRef, f: EdgeRef| #[trigger]
        is_fork(cfg, source, t, f) && ((cfg.edge(t).to == s.header && !s.blocks.contains(cfg.edge(f).to)) || (cfg.edge(f).to
            == s.header && !s.blocks.contains(cfg.edge(t).to)));
    cfg.branch_edges_by_kind(source, t, f);
}

/// Block `b` ends the function: it returns, calls in tail position, or is the exit.
pub open spec fn ends_function_at(proto: &LoweredProto, cfg: &Cfg, b: BlockRef) -> bool {
    ||| exists|i: LowInstr| #[trigger] ends_in(proto, cfg, b, i) && (i is Return || i is TailCall)
    ||| b == cfg.exit_block
}

/// Block `b` ends in a jump to block `target`.
pub open spec fn jumps_back(proto: &LoweredProto, cfg: &Cfg, b: BlockRef, target: BlockRef) -> bool {
    exists|j: JumpInstr| #[trigger]
        ends_in(proto, cfg, b, LowInstr::Jump(j)) && cfg.instr_to_block@[j.target.0 as int] == target
}

/// A loop is a `while true` only where everything that leaves it ends the function and no
/// block of it opens or closes a scope. It goes on at the one block that jumps back to its
/// header, or at the header itself, where that branches and several blocks come back to it.
pub proof fn endless_loops_end_the_function(proto: &LoweredProto, cfg: &Cfg, dataflow: &DataflowFacts, s: ShapeInput)
    requires
        fits(proto, cfg),
        known_blocks(cfg, s.exits),
        shape_of(proto, cfg, dataflow, s).kind == LoopKindHint::WhileTrueLike,
    ensures
        ({
            let r = shape_of(proto, cfg, dataflow, s);
            &&& r.bindings is None
            &&& forall|x: BlockRef| #[trigger] s.exits.contains(x) ==> ends_function_at(proto, cfg, x)
            &&& forall|b: BlockRef, i: int| #![trigger s.blocks.contains(b), proto.instrs@[i]]
                s.blocks.contains(b) && cfg.range(b).start.0 <= i < cfg.range(b).start.0 + cfg.range(b).len ==> !(
                proto.instrs@[i] is Close || proto.instrs@[i] is Tbc)
            &&& r.continue_target is Some
            &&& {
                ||| comes_back_only(cfg, s, r.continue_target->0) && jumps_back(proto, cfg, r.continue_target->0, s.header)
                ||| r.continue_target == Some(s.header) && (exists|b: BranchInstr| #[trigger]
                    ends_in(proto, cfg, s.header, LowInstr::Branch(b))) && (forall|b: BlockRef| !#[trigger] comes_back_only(cfg, s, b))
            }
        }),
{
    let r = shape_of(proto, cfg, dataflow, s);
    assert(all_terminal(proto, cfg, s.exits));
    assert(!region_cleans_up(proto, cfg, s.blocks));
    assert forall|x: BlockRef| #[trigger] s.exits.contains(x) implies ends_function_at(proto, cfg, x) by {
        match cfg.terminator_of(proto.instrs@, x) {
            Some(i) => {
                assert(ends_in(proto, cfg, x, i));
            },
            None => {},
        }
    }
    assert forall|b: BlockRef, i: int| #![trigger s.blocks.contains(b), proto.instrs@[i]]
        s.blocks.contains(b) && cfg.range(b).start.0 <= i < cfg.range(b).start.0 + cfg.range(b).len implies !(
    proto.instrs@[i] is Close || proto.instrs@[i] is Tbc) by {
        if is_cleanup(proto.instrs@[i]) {
            assert(block_cleans_up(proto, cfg, b));
        }
    }
    let source = r.continue_target->0;
    only_source_is_the_source(cfg, s, source);
    match cfg.terminator_of(proto.instrs@, source) {
        Some(i) => {
            assert(ends_in(proto, cfg, source, i));
        },
        None => {},
    }
    if backedge_sources(cfg, s.backedges).len() > 1 {
        assert forall|b: BlockRef| !#[trigger] comes_back_only(cfg, s, b) by {
            only_source_is_the_source(cfg, s, b);
        }
    }
}

/// Where the back edges come from one block that jumps to the header and to which no block of
/// the loop branches, the header neither branches nor asks an iterator, nothing in the loop
/// opens or closes a scope and everything that leaves it ends the function, the loop is a
/// `while true` that goes on at that block, unless it counts.
pub proof fn endless_loop_is_recognised(
    proto: &LoweredProto,
    cfg: &Cfg,
    dataflow: &DataflowFacts,
    s: ShapeInput,
    source: BlockRef,
    j: JumpInstr,
)
    requires
        fits(proto, cfg),
        cfg.has_block(s.header),
        !counted(proto, cfg, s),
        forall|i: BranchInstr| !#[trigger] ends_in(proto, cfg, s.header, LowInstr::Branch(i)),
        forall|i: GenericForLoopInstr| !#[trigger] ends_in(proto, cfg, s.header, LowInstr::GenericForLoop(i)),
        comes_back_only(cfg, s, source),
        ends_in(proto, cfg, source, LowInstr::Jump(j)),
        cfg.instr_to_block@[j.target.0 as int] == s.header,
        forall|c: BlockRef, i: BranchInstr| #![trigger ends_in(proto, cfg, c, LowInstr::Branch(i))]
            s.blocks.contains(c) && ends_in(proto, cfg, c, LowInstr::Branch(i)) ==> !cfg.links(c, source),
        forall|b: BlockRef, i: int| #![trigger s.blocks.contains(b), proto.instrs@[i]]
            s.blocks.contains(b) && cfg.range(b).start.0 <= i < cfg.range(b).start.0 + cfg.range(b).len ==> !(
            proto.instrs@[i] is Close || proto.instrs@[i] is Tbc),
        known_blocks(cfg, s.exits),
        forall|x: BlockRef| #[trigger]
            s.exits.contains(x) ==> exists|i: LowInstr| #[trigger]
                ends_in(proto, cfg, x, i) && (i is Return || i is TailCall),
    ensures
        shape_of(proto, cfg, dataflow, s) == (Shape {
            kind: LoopKindHint::WhileTrueLike,
            continue_target: Some(source),
            bindings: None,
        }),
{
    let r = shape_of(proto, cfg, dataflow, s);
    if r.kind == LoopKindHint::NumericForLike {
        numeric_for_counts(proto, cfg, dataflow, s);
    }
    only_source_is_the_source(cfg, s, source);
    match cfg.terminator_of(proto.instrs@, s.header) {
        Some(i) => {
            assert(ends_in(proto, cfg, s.header, i));
        },
        None => {},
    }
    assert(!region_cleans_up(proto, cfg, s.blocks)) by {
        if region_cleans_up(proto, cfg, s.blocks) {
            let b = choose|b: BlockRef| #[trigger] s.blocks.contains(b) && block_cleans_up(proto, cfg, b);
            let i = choose|i: int|
                cfg.range(b).start.0 <= i < cfg.range(b).end_at() && is_cleanup(#[trigger] proto.instrs@[i]);
            assert(s.blocks.contains(b));
        }
    }
    assert(all_terminal(proto, cfg, s.exits));
    if repeat_condition(proto, cfg, source, s.blocks) is Some {
        let c = repeat_condition(proto, cfg, source, s.blocks)->0;
        let preds = cfg.predecessors_of(source).intersect(s.blocks);
        assert(preds == Set::<BlockRef>::empty().insert(c));
        assert(preds.contains(c));
        cfg.lists_hold_links(source);
        assert(cfg.led_from(source, c));
        match cfg.terminator_of(proto.instrs@, c) {
            Some(LowInstr::Branch(i)) => {
                assert(ends_in(proto, cfg, c, LowInstr::Branch(i)));
            },
            _ => {},
        }
    }
}

} // verus!
