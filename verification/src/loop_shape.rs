//! What kind of source loop a loop is.

use vstd::prelude::*;

use crate::cfg::Cfg;
use crate::dataflow::{DataflowFacts, InstrEffect};
use crate::evidence::{LoopKindHint, LoopSourceBindings, LoopValueMerge};
use crate::graph::GraphFacts;
use crate::helpers::{
    block_jumps_to, block_of, equivalent_single_return_targets, fits, jumps_to, known_blocks,
    ranges_fit, same_or_jump, same_or_transparent_jump_target, same_return, targets_exist,
};
use crate::ids::{BlockRef, EdgeRef, InstrRef, Reg};
use crate::idset::IdSet;
use crate::lir::{GenericForLoopInstr, LowInstr, LoweredProto, NumericForInstr, ResultPack};
use crate::loop_exits::{close_jump, transparent_jump_target};
use crate::loop_values::{merge_models, MergeModel};
use crate::search::{count_where, count_where_monotone, first_where, only_where};

verus! {

/// The facts of one prototype that the recognition of loops reads.
#[derive(Clone, Copy)]
pub struct LoopContext<'a> {
    pub proto: &'a LoweredProto,
    pub cfg: &'a Cfg,
    pub graph: &'a GraphFacts,
    pub dataflow: &'a DataflowFacts,
}

/// The same target, or one that returns the same.
pub open spec fn same_exit(proto: &LoweredProto, cfg: &Cfg, actual: InstrRef, expected: InstrRef) -> bool {
    same_or_jump(proto, cfg, actual, expected) || same_return(proto, cfg, actual, expected)
}

pub fn same_or_equivalent_exit_target(proto: &LoweredProto, cfg: &Cfg, actual: InstrRef, expected: InstrRef) -> (r: bool)
    requires
        fits(proto, cfg),
        actual.0 < proto.instrs@.len(),
        expected.0 < proto.instrs@.len(),
    ensures
        r == same_exit(proto, cfg, actual, expected),
{
    same_or_transparent_jump_target(proto, cfg, actual, expected) || equivalent_single_return_targets(
        proto,
        cfg,
        actual,
        expected,
    )
}

/// The registers of the loop's state are the same.
pub open spec fn same_state(a: NumericForInstr, b: NumericForInstr) -> bool {
    a.index == b.index && a.limit == b.limit && a.step == b.step && a.binding == b.binding
}

pub fn numeric_for_state_matches(a: &NumericForInstr, b: &NumericForInstr) -> (r: bool)
    ensures
        r == same_state(*a, *b),
{
    a.index == b.index && a.limit == b.limit && a.step == b.step && a.binding == b.binding
}

/// The two instructions open and close one numeric `for` loop.
pub open spec fn numeric_match(proto: &LoweredProto, cfg: &Cfg, init: NumericForInstr, latch: NumericForInstr) -> bool {
    &&& same_state(init, latch)
    &&& latch.body_target == init.body_target || jumps_to(
        proto,
        cfg,
        block_of(cfg, init.body_target),
        block_of(cfg, latch.body_target),
    )
    &&& same_exit(proto, cfg, latch.exit_target, init.exit_target)
}

pub open spec fn numeric_targets_exist(i: NumericForInstr, n: nat) -> bool {
    i.body_target.0 < n && i.exit_target.0 < n
}

pub fn numeric_for_instrs_match(
    proto: &LoweredProto,
    cfg: &Cfg,
    init: &NumericForInstr,
    latch: &NumericForInstr,
) -> (r: bool)
    requires
        fits(proto, cfg),
        numeric_targets_exist(*init, proto.instrs@.len()),
        numeric_targets_exist(*latch, proto.instrs@.len()),
    ensures
        r == numeric_match(proto, cfg, *init, *latch),
{
    if !numeric_for_state_matches(init, latch) {
        return false;
    }
    let body = cfg.instr_to_block[init.body_target.0];
    if !(latch.body_target == init.body_target || block_jumps_to(proto, cfg, body, cfg.instr_to_block[latch.body_target.0])) {
        return false;
    }
    same_or_equivalent_exit_target(proto, cfg, latch.exit_target, init.exit_target)
}

/// The instruction that opens a numeric `for` at the end of a block.
pub open spec fn init_at(proto: &LoweredProto, cfg: &Cfg, b: BlockRef) -> Option<NumericForInstr> {
    match cfg.terminator_of(proto.instrs@, b) {
        Some(LowInstr::NumericForInit(i)) => Some(i),
        _ => None,
    }
}

/// The instruction that closes a numeric `for` at the end of a block.
pub open spec fn latch_at(proto: &LoweredProto, cfg: &Cfg, b: BlockRef) -> Option<NumericForInstr> {
    match cfg.terminator_of(proto.instrs@, b) {
        Some(LowInstr::NumericForLoop(i)) => Some(i),
        _ => None,
    }
}

pub fn find_init(proto: &LoweredProto, cfg: &Cfg, b: BlockRef) -> (r: Option<NumericForInstr>)
    requires
        fits(proto, cfg),
        cfg.has_block(b),
    ensures
        r == init_at(proto, cfg, b),
        r is Some ==> numeric_targets_exist(r->0, proto.instrs@.len()),
{
    proof {
        ranges_fit(proto, cfg, b);
    }
    match cfg.terminator(proto.instrs.as_slice(), b) {
        Some(LowInstr::NumericForInit(i)) => {
            assert(targets_exist(proto.instrs@[cfg.range(b).end_at() - 1], proto.instrs@.len()));
            Some(*i)
        },
        _ => None,
    }
}

pub fn find_latch(proto: &LoweredProto, cfg: &Cfg, b: BlockRef) -> (r: Option<NumericForInstr>)
    requires
        fits(proto, cfg),
        cfg.has_block(b),
    ensures
        r == latch_at(proto, cfg, b),
        r is Some ==> numeric_targets_exist(r->0, proto.instrs@.len()),
{
    proof {
        ranges_fit(proto, cfg, b);
    }
    match cfg.terminator(proto.instrs.as_slice(), b) {
        Some(LowInstr::NumericForLoop(i)) => {
            assert(targets_exist(proto.instrs@[cfg.range(b).end_at() - 1], proto.instrs@.len()));
            Some(*i)
        },
        _ => None,
    }
}

/// Block `b` is one of `sources` and closes the loop that `init` opens.
pub open spec fn closes(
    proto: &LoweredProto,
    cfg: &Cfg,
    sources: Set<BlockRef>,
    init: NumericForInstr,
) -> spec_fn(int) -> bool {
    |b: int|
        sources.contains(BlockRef(b as usize)) && match latch_at(proto, cfg, BlockRef(b as usize)) {
            Some(l) => numeric_match(proto, cfg, init, l),
            None => false,
        }
}

/// The only source that closes the loop which the preheader opens at the header.
pub open spec fn numeric_latch(
    proto: &LoweredProto,
    cfg: &Cfg,
    header: BlockRef,
    preheader: Option<BlockRef>,
    sources: Set<BlockRef>,
) -> Option<BlockRef> {
    match preheader {
        Some(p) => match init_at(proto, cfg, p) {
            Some(init) => if block_of(cfg, init.body_target) == header {
                match only_where(cfg.blocks@.len(), closes(proto, cfg, sources, init)) {
                    Some(b) => Some(BlockRef(b as usize)),
                    None => None,
                }
            } else {
                None
            },
            None => None,
        },
        None => None,
    }
}

pub fn numeric_for_latch_for_preheader(
    proto: &LoweredProto,
    cfg: &Cfg,
    header: BlockRef,
    preheader: Option<BlockRef>,
    sources: &IdSet<BlockRef>,
) -> (r: Option<BlockRef>)
    requires
        fits(proto, cfg),
        preheader is Some ==> cfg.has_block(preheader->0),
    ensures
        r == numeric_latch(proto, cfg, header, preheader, sources@),
        r is Some ==> cfg.has_block(r->0),
{
    let p = match preheader {
        None => {
            return None;
        },
        Some(p) => p,
    };
    let init = match find_init(proto, cfg, p) {
        None => {
            return None;
        },
        Some(i) => i,
    };
    if cfg.instr_to_block[init.body_target.0] != header {
        return None;
    }
    let n = cfg.blocks.len();
    let ghost q = closes(proto, cfg, sources@, init);
    let mut found: Option<BlockRef> = None;
    let mut b: usize = 0;
    while b < n
        invariant
            fits(proto, cfg),
            n == cfg.blocks@.len(),
            preheader == Some(p),
            init_at(proto, cfg, p) == Some(init),
            block_of(cfg, init.body_target) == header,
            numeric_targets_exist(init, proto.instrs@.len()),
            q == closes(proto, cfg, sources@, init),
            b <= n,
            match found {
                None => count_where(b as nat, q) == 0 && first_where(b as nat, q) is None,
                Some(x) => count_where(b as nat, q) == 1 && first_where(b as nat, q) == Some(x.0 as int) && x.0 < b,
            },
        decreases n - b,
    {
        let block = BlockRef(b);
        let hit = sources.contains(block) && match find_latch(proto, cfg, block) {
            Some(l) => numeric_for_instrs_match(proto, cfg, &init, &l),
            None => false,
        };
        assert(BlockRef(b as int as usize) == block);
        assert(q(b as int) == hit);
        if hit {
            if found.is_some() {
                proof {
                    count_where_monotone((b + 1) as nat, n as nat, q);
                }
                return None;
            }
            found = Some(block);
        }
        b = b + 1;
    }
    found
}

/// The sources of the back edges.
pub open spec fn backedge_sources(cfg: &Cfg, backedges: Seq<EdgeRef>) -> Set<BlockRef> {
    Set::new(|b: BlockRef| exists|i: int| 0 <= i < backedges.len() && cfg.edge(#[trigger] backedges[i]).from == b)
}

pub fn collect_sources(cfg: &Cfg, backedges: &Vec<EdgeRef>) -> (r: IdSet<BlockRef>)
    requires
        cfg.adjacency_wf(),
        forall|i: int| 0 <= i < backedges@.len() ==> cfg.has_edge(#[trigger] backedges@[i]),
    ensures
        r@ == backedge_sources(cfg, backedges@),
        known_blocks(cfg, r@),
{
    let n = backedges.len();
    let mut r: IdSet<BlockRef> = IdSet::new();
    let mut i: usize = 0;
    while i < n
        invariant
            cfg.adjacency_wf(),
            forall|i: int| 0 <= i < backedges@.len() ==> cfg.has_edge(#[trigger] backedges@[i]),
            n == backedges@.len(),
            i <= n,
            known_blocks(cfg, r@),
            forall|b: BlockRef| #[trigger] r@.contains(b) <==> exists|j: int| 0 <= j < i && cfg.edge(#[trigger] backedges@[j]).from == b,
        decreases n - i,
    {
        let e = backedges[i];
        assert(cfg.has_edge(backedges@[i as int]));
        let from = cfg.edges[e.0].from;
        let ghost before = r@;
        r.insert(from);
        proof {
            assert(cfg.edge(backedges@[i as int]).from == from);
            assert forall|b: BlockRef| #[trigger] r@.contains(b) <==> exists|j: int| 0 <= j < i + 1 && cfg.edge(#[trigger] backedges@[j]).from == b by {
                if before.contains(b) {
                    let j = choose|j: int| 0 <= j < i && cfg.edge(#[trigger] backedges@[j]).from == b;
                    assert(cfg.edge(backedges@[j]).from == b);
                }
                if exists|j: int| 0 <= j < i + 1 && cfg.edge(#[trigger] backedges@[j]).from == b {
                    let j = choose|j: int| 0 <= j < i + 1 && cfg.edge(#[trigger] backedges@[j]).from == b;
                    if j < i {
                        assert(before.contains(b));
                    }
                }
            }
        }
        i = i + 1;
    }
    assert(r@ =~= backedge_sources(cfg, backedges@));
    r
}

/// Exactly one of the branch's targets lies in `blocks`.
pub open spec fn enters_or_leaves(cfg: &Cfg, header: BlockRef, blocks: Set<BlockRef>) -> bool {
    match cfg.branch_edges_of(header) {
        Some((t, f)) => blocks.contains(cfg.edge(t).to) != blocks.contains(cfg.edge(f).to),
        None => false,
    }
}

pub fn branch_has_loop_body_and_exit(cfg: &Cfg, header: BlockRef, blocks: &IdSet<BlockRef>) -> (r: bool)
    requires
        cfg.adjacency_wf(),
        cfg.has_block(header),
    ensures
        r == enters_or_leaves(cfg, header, blocks@),
{
    match cfg.branch_edges(header) {
        Some((t, f)) => blocks.contains(cfg.edges[t.0].to) != blocks.contains(cfg.edges[f.0].to),
        None => false,
    }
}

/// One target of the branch is `target`, the other lies outside of `blocks`.
pub open spec fn to_or_out(cfg: &Cfg, block: BlockRef, target: BlockRef, blocks: Set<BlockRef>) -> bool {
    match cfg.branch_edges_of(block) {
        Some((t, f)) => (cfg.edge(t).to == target && !blocks.contains(cfg.edge(f).to)) || (cfg.edge(f).to == target
            && !blocks.contains(cfg.edge(t).to)),
        None => false,
    }
}

pub fn branch_has_header_and_exit(cfg: &Cfg, block: BlockRef, header: BlockRef, blocks: &IdSet<BlockRef>) -> (r: bool)
    requires
        cfg.adjacency_wf(),
        cfg.has_block(block),
    ensures
        r == to_or_out(cfg, block, header, blocks@),
{
    match cfg.branch_edges(block) {
        Some((t, f)) => {
            let a = cfg.edges[t.0].to;
            let b = cfg.edges[f.0].to;
            (a == header && !blocks.contains(b)) || (b == header && !blocks.contains(a))
        },
        None => false,
    }
}

pub open spec fn ends_in_branch(proto: &LoweredProto, cfg: &Cfg, b: BlockRef) -> bool {
    match cfg.terminator_of(proto.instrs@, b) {
        Some(LowInstr::Branch(_)) => true,
        _ => false,
    }
}

pub fn block_ends_in_branch(proto: &LoweredProto, cfg: &Cfg, b: BlockRef) -> (r: bool)
    requires
        fits(proto, cfg),
        cfg.has_block(b),
    ensures
        r == ends_in_branch(proto, cfg, b),
{
    proof {
        ranges_fit(proto, cfg, b);
    }
    match cfg.terminator(proto.instrs.as_slice(), b) {
        Some(LowInstr::Branch(_)) => true,
        _ => false,
    }
}

/// The condition of a `repeat` behind a pad that only closes scopes and jumps back: the pad's
/// only predecessor in the loop, which goes to the pad or leaves.
pub open spec fn repeat_condition(
    proto: &LoweredProto,
    cfg: &Cfg,
    source: BlockRef,
    blocks: Set<BlockRef>,
) -> Option<BlockRef> {
    if close_jump(proto, cfg, source) is None {
        None
    } else {
        match cfg.unique_predecessor(source, blocks) {
            Some(c) => if ends_in_branch(proto, cfg, c) && to_or_out(cfg, c, source, blocks) {
                Some(c)
            } else {
                None
            },
            None => None,
        }
    }
}

pub fn repeat_continue_target_via_backedge_pad(
    proto: &LoweredProto,
    cfg: &Cfg,
    source: BlockRef,
    blocks: &IdSet<BlockRef>,
) -> (r: Option<BlockRef>)
    requires
        fits(proto, cfg),
        cfg.has_block(source),
    ensures
        r == repeat_condition(proto, cfg, source, blocks@),
        r is Some ==> cfg.has_block(r->0),
{
    if transparent_jump_target(proto, cfg, source).is_none() {
        return None;
    }
    match cfg.unique_reachable_predecessor(source, blocks, false) {
        Some(c) => if block_ends_in_branch(proto, cfg, c) && branch_has_header_and_exit(cfg, c, source, blocks) {
            Some(c)
        } else {
            None
        },
        None => None,
    }
}

/// Instruction `i` opens or closes a scope.
pub open spec fn is_cleanup(i: LowInstr) -> bool {
    i is Close || i is Tbc
}

pub open spec fn block_cleans_up(proto: &LoweredProto, cfg: &Cfg, b: BlockRef) -> bool {
    exists|i: int| cfg.range(b).start.0 <= i < cfg.range(b).end_at() && is_cleanup(#[trigger] proto.instrs@[i])
}

pub open spec fn region_cleans_up(proto: &LoweredProto, cfg: &Cfg, blocks: Set<BlockRef>) -> bool {
    exists|b: BlockRef| #[trigger] blocks.contains(b) && block_cleans_up(proto, cfg, b)
}

fn check_block_cleanup(proto: &LoweredProto, cfg: &Cfg, b: BlockRef) -> (r: bool)
    requires
        fits(proto, cfg),
        cfg.has_block(b),
    ensures
        r == block_cleans_up(proto, cfg, b),
{
    proof {
        ranges_fit(proto, cfg, b);
    }
    let range = cfg.blocks[b.0].instrs;
    let end = range.end();
    let mut i: usize = range.start.0;
    while i < end
        invariant
            range == cfg.range(b),
            end == range.end_at(),
            end <= proto.instrs@.len(),
            range.start.0 <= i,
            forall|j: int| range.start.0 <= j < i ==> !is_cleanup(#[trigger] proto.instrs@[j]),
        decreases end - i,
    {
        match proto.instrs[i] {
            LowInstr::Close(_) | LowInstr::Tbc(_) => {
                assert(is_cleanup(proto.instrs@[i as int]));
                return true;
            },
            _ => {},
        }
        i = i + 1;
    }
    false
}

pub fn region_has_scope_cleanup(proto: &LoweredProto, cfg: &Cfg, blocks: &IdSet<BlockRef>) -> (r: bool)
    requires
        fits(proto, cfg),
        known_blocks(cfg, blocks@),
    ensures
        r == region_cleans_up(proto, cfg, blocks@),
{
    let n = blocks.len();
    let mut i: usize = 0;
    while i < n
        invariant
            fits(proto, cfg),
            known_blocks(cfg, blocks@),
            n == blocks.seq().len(),
            i <= n,
            forall|k: int| 0 <= k < i ==> !block_cleans_up(proto, cfg, #[trigger] blocks.seq()[k]),
        decreases n - i,
    {
        let b = blocks.at(i);
        if check_block_cleanup(proto, cfg, b) {
            return true;
        }
        i = i + 1;
    }
    proof {
        if region_cleans_up(proto, cfg, blocks@) {
            let b = choose|b: BlockRef| #[trigger] blocks@.contains(b) && block_cleans_up(proto, cfg, b);
            let k = choose|k: int| 0 <= k < blocks.seq().len() && blocks.seq()[k] == b;
            assert(!block_cleans_up(proto, cfg, blocks.seq()[k]));
        }
    }
    false
}

/// The block ends the function: it returns, or it is the exit itself.
pub open spec fn is_terminal(proto: &LoweredProto, cfg: &Cfg, b: BlockRef) -> bool {
    match cfg.terminator_of(proto.instrs@, b) {
        Some(i) => i is Return || i is TailCall,
        None => b == cfg.exit_block,
    }
}

pub open spec fn all_terminal(proto: &LoweredProto, cfg: &Cfg, exits: Set<BlockRef>) -> bool {
    forall|b: BlockRef| #[trigger] exits.contains(b) ==> is_terminal(proto, cfg, b)
}

pub fn exits_are_terminal(proto: &LoweredProto, cfg: &Cfg, exits: &IdSet<BlockRef>) -> (r: bool)
    requires
        fits(proto, cfg),
        known_blocks(cfg, exits@),
    ensures
        r == all_terminal(proto, cfg, exits@),
{
    let n = exits.len();
    let mut i: usize = 0;
    while i < n
        invariant
            fits(proto, cfg),
            known_blocks(cfg, exits@),
            n == exits.seq().len(),
            i <= n,
            forall|k: int| 0 <= k < i ==> is_terminal(proto, cfg, #[trigger] exits.seq()[k]),
        decreases n - i,
    {
        let b = exits.at(i);
        proof {
            ranges_fit(proto, cfg, b);
        }
        let terminal = match cfg.terminator(proto.instrs.as_slice(), b) {
            Some(LowInstr::Return(_)) | Some(LowInstr::TailCall(_)) => true,
            Some(_) => false,
            None => b == cfg.exit_block,
        };
        if !terminal {
            assert(!is_terminal(proto, cfg, b));
            return false;
        }
        i = i + 1;
    }
    proof {
        assert forall|b: BlockRef| #[trigger] exits@.contains(b) implies is_terminal(proto, cfg, b) by {
            let k = choose|k: int| 0 <= k < exits.seq().len() && exits.seq()[k] == b;
            assert(is_terminal(proto, cfg, exits.seq()[k]));
        }
    }
    true
}

/// A `for ... do break end`: the loop's exit and body are one block, or the exit only jumps to
/// the body.
pub open spec fn breaks_at_once(proto: &LoweredProto, cfg: &Cfg, i: GenericForLoopInstr) -> bool {
    block_of(cfg, i.exit_target) == block_of(cfg, i.body_target) || same_or_jump(proto, cfg, i.exit_target, i.body_target)
}

pub fn generic_for_immediate_break(proto: &LoweredProto, cfg: &Cfg, instr: &GenericForLoopInstr) -> (r: bool)
    requires
        fits(proto, cfg),
        instr.body_target.0 < proto.instrs@.len(),
        instr.exit_target.0 < proto.instrs@.len(),
    ensures
        r == breaks_at_once(proto, cfg, *instr),
{
    cfg.instr_to_block[instr.exit_target.0] == cfg.instr_to_block[instr.body_target.0] || same_or_transparent_jump_target(
        proto,
        cfg,
        instr.exit_target,
        instr.body_target,
    )
}

/// The header ends in the call and the test of a generic `for` whose body lies in the loop
/// and whose exit does not.
pub open spec fn is_generic_header(
    proto: &LoweredProto,
    cfg: &Cfg,
    header: BlockRef,
    i: GenericForLoopInstr,
    blocks: Set<BlockRef>,
) -> bool {
    cfg.range(header).len >= 2 && match proto.instrs@[cfg.range(header).end_at() - 2] {
        LowInstr::GenericForCall(call) => call.control == i.control_target && call.results == ResultPack::Fixed(i.bindings) && (
        breaks_at_once(proto, cfg, i) || blocks.contains(block_of(cfg, i.body_target))) && !blocks.contains(
            block_of(cfg, i.exit_target),
        ),
        _ => false,
    }
}

pub fn generic_for_has_loop_body_and_exit(
    proto: &LoweredProto,
    cfg: &Cfg,
    header: BlockRef,
    instr: &GenericForLoopInstr,
    blocks: &IdSet<BlockRef>,
) -> (r: bool)
    requires
        fits(proto, cfg),
        cfg.has_block(header),
        instr.body_target.0 < proto.instrs@.len(),
        instr.exit_target.0 < proto.instrs@.len(),
    ensures
        r == is_generic_header(proto, cfg, header, *instr, blocks@),
{
    proof {
        ranges_fit(proto, cfg, header);
    }
    let range = cfg.blocks[header.0].instrs;
    if range.len < 2 {
        return false;
    }
    match proto.instrs[range.end() - 2] {
        LowInstr::GenericForCall(call) => {
            let fixed = match call.results {
                ResultPack::Fixed(range) => range == instr.bindings,
                _ => false,
            };
            call.control == instr.control_target && fixed && (generic_for_immediate_break(proto, cfg, instr) || blocks.contains(
                cfg.instr_to_block[instr.body_target.0],
            )) && !blocks.contains(cfg.instr_to_block[instr.exit_target.0])
        },
        _ => false,
    }
}

pub open spec fn generic_at(proto: &LoweredProto, cfg: &Cfg, b: BlockRef) -> Option<GenericForLoopInstr> {
    match cfg.terminator_of(proto.instrs@, b) {
        Some(LowInstr::GenericForLoop(i)) => Some(i),
        _ => None,
    }
}

pub fn find_generic(proto: &LoweredProto, cfg: &Cfg, b: BlockRef) -> (r: Option<GenericForLoopInstr>)
    requires
        fits(proto, cfg),
        cfg.has_block(b),
    ensures
        r == generic_at(proto, cfg, b),
        r is Some ==> (r->0).body_target.0 < proto.instrs@.len() && (r->0).exit_target.0 < proto.instrs@.len(),
{
    proof {
        ranges_fit(proto, cfg, b);
    }
    match cfg.terminator(proto.instrs.as_slice(), b) {
        Some(LowInstr::GenericForLoop(i)) => {
            assert(targets_exist(proto.instrs@[cfg.range(b).end_at() - 1], proto.instrs@.len()));
            Some(*i)
        },
        _ => None,
    }
}

/// An instruction that can stand in the evaluation of a condition: it writes nothing but
/// registers and passes no control on.
pub open spec fn is_condition_step(i: LowInstr) -> bool {
    !(i is SetUpvalue || i is SetTable || i is SetList || i is TailCall || i is Return || i is Close || i is Tbc
        || i is NumericForInit || i is NumericForLoop || i is GenericForPrep || i is GenericForCall || i is GenericForLoop
        || i is Jump || i is Branch)
}

pub fn instr_is_while_header_prefix(instr: &LowInstr) -> (r: bool)
    ensures
        r == is_condition_step(*instr),
{
    match instr {
        LowInstr::SetUpvalue(_)
        | LowInstr::SetTable(_)
        | LowInstr::SetList(_)
        | LowInstr::TailCall(_)
        | LowInstr::Return(_)
        | LowInstr::Close(_)
        | LowInstr::Tbc(_)
        | LowInstr::NumericForInit(_)
        | LowInstr::NumericForLoop(_)
        | LowInstr::GenericForPrep(_)
        | LowInstr::GenericForCall(_)
        | LowInstr::GenericForLoop(_)
        | LowInstr::Jump(_)
        | LowInstr::Branch(_) => false,
        _ => true,
    }
}

/// The registers needed before an instruction, given those needed after it.
pub open spec fn needed_before(effect: &InstrEffect, needed: Set<Reg>) -> Set<Reg> {
    Set::new(
        |r: Reg|
            (needed.contains(r) && !effect.defines(r)) || effect.fixed_uses@.contains(r) || effect.open_use == Some(r),
    )
}

pub open spec fn writes_any(effect: &InstrEffect, regs: Set<Reg>) -> bool {
    exists|r: Reg| #[trigger] regs.contains(r) && effect.defines(r)
}

/// The instructions from `start` up to `end` only work towards the registers in `needed`, or
/// have no effect at all, and leave the carried registers alone.
pub open spec fn feeds_condition(
    proto: &LoweredProto,
    dataflow: &DataflowFacts,
    carried: Set<Reg>,
    start: int,
    end: int,
    needed: Set<Reg>,
) -> bool
    decreases end - start,
{
    if end <= start {
        true
    } else {
        let k = end - 1;
        let effect = &dataflow.instr_effects@[k];
        k < dataflow.instr_effects@.len() && !writes_any(effect, carried) && is_condition_step(proto.instrs@[k]) && if writes_any(
            effect,
            needed,
        ) {
            feeds_condition(proto, dataflow, carried, start, k, needed_before(effect, needed))
        } else {
            k < dataflow.effect_summaries@.len() && dataflow.effect_summaries@[k].tags@.len() == 0 && feeds_condition(
                proto,
                dataflow,
                carried,
                start,
                k,
                needed,
            )
        }
    }
}

/// The registers whose values the loop carries from one iteration to the next.
pub open spec fn carried_regs(values: Seq<MergeModel>) -> Set<Reg> {
    Set::new(|r: Reg| exists|i: int| 0 <= i < values.len() && (#[trigger] values[i]).reg == r)
}

/// The block evaluates a condition and branches on it, and does nothing else.
pub open spec fn is_while_header(
    proto: &LoweredProto,
    cfg: &Cfg,
    dataflow: &DataflowFacts,
    b: BlockRef,
    values: Seq<MergeModel>,
) -> bool {
    ends_in_branch(proto, cfg, b) && (cfg.range(b).len == 1 || {
        let last = cfg.range(b).end_at() - 1;
        last < dataflow.instr_effects@.len() && feeds_condition(
            proto,
            dataflow,
            carried_regs(values),
            cfg.range(b).start.0 as int,
            last,
            dataflow.instr_effects@[last].fixed_uses@,
        )
    })
}

fn effect_writes_any(effect: &InstrEffect, regs: &IdSet<Reg>) -> (r: bool)
    ensures
        r == writes_any(effect, regs@),
{
    let n = regs.len();
    let mut i: usize = 0;
    while i < n
        invariant
            n == regs.seq().len(),
            i <= n,
            forall|k: int| 0 <= k < i ==> !effect.defines(#[trigger] regs.seq()[k]),
        decreases n - i,
    {
        let reg = regs.at(i);
        if effect.must_define(reg) {
            return true;
        }
        i = i + 1;
    }
    proof {
        if writes_any(effect, regs@) {
            let r = choose|r: Reg| #[trigger] regs@.contains(r) && effect.defines(r);
            let k = choose|k: int| 0 <= k < regs.seq().len() && regs.seq()[k] == r;
            assert(!effect.defines(regs.seq()[k]));
        }
    }
    false
}

fn step_needed(effect: &InstrEffect, needed: &IdSet<Reg>) -> (r: IdSet<Reg>)
    ensures
        r@ == needed_before(effect, needed@),
{
    let mut r = effect.fixed_uses.clone();
    if let Some(reg) = effect.open_use {
        r.insert(reg);
    }
    let n = needed.len();
    let mut i: usize = 0;
    while i < n
        invariant
            n == needed.seq().len(),
            i <= n,
            forall|x: Reg| #[trigger] r@.contains(x) ==> needed_before(effect, needed@).contains(x),
            forall|x: Reg| effect.fixed_uses@.contains(x) || effect.open_use == Some(x) ==> #[trigger] r@.contains(x),
            forall|k: int| 0 <= k < i && !effect.defines(#[trigger] needed.seq()[k]) ==> r@.contains(needed.seq()[k]),
        decreases n - i,
    {
        let reg = needed.at(i);
        if !effect.must_define(reg) {
            r.insert(reg);
        }
        i = i + 1;
    }
    proof {
        assert forall|x: Reg| r@.contains(x) <==> needed_before(effect, needed@).contains(x) by {
            if needed@.contains(x) {
                let k = choose|k: int| 0 <= k < needed.seq().len() && needed.seq()[k] == x;
                assert(needed.seq()[k] == x);
            }
        }
        assert(r@ =~= needed_before(effect, needed@));
    }
    r
}

pub fn block_is_while_header_like(
    proto: &LoweredProto,
    cfg: &Cfg,
    dataflow: &DataflowFacts,
    block: BlockRef,
    values: &Vec<LoopValueMerge>,
) -> (r: bool)
    requires
        fits(proto, cfg),
        cfg.has_block(block),
    ensures
        r == is_while_header(proto, cfg, dataflow, block, merge_models(values@)),
{
    proof {
        ranges_fit(proto, cfg, block);
    }
    if !block_ends_in_branch(proto, cfg, block) {
        return false;
    }
    let range = cfg.blocks[block.0].instrs;
    if range.len == 1 {
        return true;
    }
    let ghost models = merge_models(values@);
    let mut carried: IdSet<Reg> = IdSet::new();
    let n = values.len();
    let mut i: usize = 0;
    while i < n
        invariant
            models == merge_models(values@),
            n == values@.len(),
            i <= n,
            forall|x: Reg| #[trigger] carried@.contains(x) <==> exists|j: int| 0 <= j < i && (#[trigger] models[j]).reg == x,
        decreases n - i,
    {
        let reg = values[i].reg;
        let ghost before = carried@;
        carried.insert(reg);
        proof {
            assert(models[i as int].reg == reg);
            assert forall|x: Reg| #[trigger] carried@.contains(x) <==> exists|j: int| 0 <= j < i + 1 && (#[trigger] models[j]).reg == x by {
                if before.contains(x) {
                    let j = choose|j: int| 0 <= j < i && (#[trigger] models[j]).reg == x;
                    assert(models[j].reg == x);
                }
                if exists|j: int| 0 <= j < i + 1 && (#[trigger] models[j]).reg == x {
                    let j = choose|j: int| 0 <= j < i + 1 && (#[trigger] models[j]).reg == x;
                    if j < i {
                        assert(before.contains(x));
                    }
                }
            }
        }
        i = i + 1;
    }
    assert(carried@ =~= carried_regs(models));
    let last: usize = range.end() - 1;
    if last >= dataflow.instr_effects.len() {
        return false;
    }
    let start: usize = range.start.0;
    let mut needed = dataflow.instr_effects[last].fixed_uses.clone();
    let ghost want = feeds_condition(
        proto,
        dataflow,
        carried@,
        start as int,
        last as int,
        dataflow.instr_effects@[last as int].fixed_uses@,
    );
    let mut end: usize = last;
    while end > start
        invariant
            models == merge_models(values@),
            start <= end <= last,
            last < proto.instrs@.len(),
            want == feeds_condition(proto, dataflow, carried@, start as int, end as int, needed@),
            want == is_while_header(proto, cfg, dataflow, block, models),
        decreases end - start,
    {
        let k: usize = end - 1;
        if k >= dataflow.instr_effects.len() {
            return false;
        }
        let effect = &dataflow.instr_effects[k];
        if effect_writes_any(effect, &carried) || !instr_is_while_header_prefix(&proto.instrs[k]) {
            return false;
        }
        if effect_writes_any(effect, &needed) {
            needed = step_needed(effect, &needed);
        } else if k >= dataflow.effect_summaries.len() || dataflow.effect_summaries[k].tags.len() != 0 {
            return false;
        }
        end = k;
    }
    true
}

/// What decides the kind of a loop.
pub struct ShapeInput {
    pub header: BlockRef,
    pub blocks: Set<BlockRef>,
    pub backedges: Seq<EdgeRef>,
    pub exits: Set<BlockRef>,
    pub preheader: Option<BlockRef>,
    pub values: Seq<MergeModel>,
}

/// A loop's kind, the block at which its iterations end, and its variables.
pub struct Shape {
    pub kind: LoopKindHint,
    pub continue_target: Option<BlockRef>,
    pub bindings: Option<LoopSourceBindings>,
}

/// The only source of back edges.
pub open spec fn only_source(cfg: &Cfg, backedges: Seq<EdgeRef>) -> Option<BlockRef> {
    let sources = backedge_sources(cfg, backedges);
    if sources.len() == 1 {
        Some(choose|b: BlockRef| sources.contains(b))
    } else {
        None
    }
}

pub open spec fn plain_shape(kind: LoopKindHint, continue_target: Option<BlockRef>) -> Shape {
    Shape { kind, continue_target, bindings: None }
}

pub open spec fn shape_of(proto: &LoweredProto, cfg: &Cfg, dataflow: &DataflowFacts, s: ShapeInput) -> Shape {
    let sources = backedge_sources(cfg, s.backedges);
    let latch = numeric_latch(proto, cfg, s.header, s.preheader, sources);
    let generic = generic_at(proto, cfg, s.header);
    let only = only_source(cfg, s.backedges);
    if latch is Some {
        Shape {
            kind: LoopKindHint::NumericForLike,
            continue_target: latch,
            bindings: Some(LoopSourceBindings::Numeric((init_at(proto, cfg, s.preheader->0)->0).binding)),
        }
    } else if generic is Some && is_generic_header(proto, cfg, s.header, generic->0, s.blocks) {
        Shape {
            kind: LoopKindHint::GenericForLike,
            continue_target: Some(s.header),
            bindings: Some(LoopSourceBindings::Generic((generic->0).bindings)),
        }
    } else if is_while_header(proto, cfg, dataflow, s.header, s.values) && enters_or_leaves(cfg, s.header, s.blocks) {
        plain_shape(LoopKindHint::WhileLike, Some(s.header))
    } else if sources.len() > 1 && s.exits.len() > 1 && ends_in_branch(proto, cfg, s.header) && !region_cleans_up(
        proto,
        cfg,
        s.blocks,
    ) && all_terminal(proto, cfg, s.exits) {
        plain_shape(LoopKindHint::WhileTrueLike, Some(s.header))
    } else if only is Some && jumps_to(proto, cfg, only->0, s.header) && repeat_condition(proto, cfg, only->0, s.blocks) is Some {
        plain_shape(LoopKindHint::RepeatLike, repeat_condition(proto, cfg, only->0, s.blocks))
    } else if only is Some && jumps_to(proto, cfg, only->0, s.header) && !region_cleans_up(proto, cfg, s.blocks) && all_terminal(
        proto,
        cfg,
        s.exits,
    ) {
        plain_shape(LoopKindHint::WhileTrueLike, only)
    } else if only is Some && ends_in_branch(proto, cfg, only->0) && to_or_out(cfg, only->0, s.header, s.blocks) {
        plain_shape(LoopKindHint::RepeatLike, only)
    } else {
        plain_shape(LoopKindHint::Unknown, only)
    }
}

pub fn infer_loop_shape(
    ctx: &LoopContext,
    header: BlockRef,
    blocks: &IdSet<BlockRef>,
    backedges: &Vec<EdgeRef>,
    exits: &IdSet<BlockRef>,
    preheader: Option<BlockRef>,
    values: &Vec<LoopValueMerge>,
) -> (r: (LoopKindHint, Option<BlockRef>, Option<LoopSourceBindings>))
    requires
        fits(ctx.proto, ctx.cfg),
        ctx.cfg.has_block(header),
        known_blocks(ctx.cfg, blocks@),
        known_blocks(ctx.cfg, exits@),
        preheader is Some ==> ctx.cfg.has_block(preheader->0),
        forall|i: int| 0 <= i < backedges@.len() ==> ctx.cfg.has_edge(#[trigger] backedges@[i]),
    ensures
        ({
            let s = shape_of(
                ctx.proto,
                ctx.cfg,
                ctx.dataflow,
                ShapeInput {
                    header,
                    blocks: blocks@,
                    backedges: backedges@,
                    exits: exits@,
                    preheader,
                    values: merge_models(values@),
                },
            );
            r.0 == s.kind && r.1 == s.continue_target && r.2 == s.bindings
        }),
        r.1 is Some ==> ctx.cfg.has_block(r.1->0),
{
    let proto = ctx.proto;
    let cfg = ctx.cfg;
    let sources = collect_sources(cfg, backedges);
    if let Some(source) = numeric_for_latch_for_preheader(proto, cfg, header, preheader, &sources) {
        let init = find_init(proto, cfg, preheader.unwrap()).unwrap();
        return (LoopKindHint::NumericForLike, Some(source), Some(LoopSourceBindings::Numeric(init.binding)));
    }
    if let Some(i) = find_generic(proto, cfg, header) {
        if generic_for_has_loop_body_and_exit(proto, cfg, header, &i, blocks) {
            return (LoopKindHint::GenericForLike, Some(header), Some(LoopSourceBindings::Generic(i.bindings)));
        }
    }
    if block_is_while_header_like(proto, cfg, ctx.dataflow, header, values) && branch_has_loop_body_and_exit(cfg, header, blocks) {
        return (LoopKindHint::WhileLike, Some(header), None);
    }
    let source_count = sources.len();
    if source_count > 1 && exits.len() > 1 && block_ends_in_branch(proto, cfg, header) && !region_has_scope_cleanup(
        proto,
        cfg,
        blocks,
    ) && exits_are_terminal(proto, cfg, exits) {
        return (LoopKindHint::WhileTrueLike, Some(header), None);
    }
    if source_count != 1 {
        return (LoopKindHint::Unknown, None, None);
    }
    let source = sources.at(0);
    proof {
        let set = backedge_sources(cfg, backedges@);
        let other = choose|b: BlockRef| set.contains(b);
        let k = choose|k: int| 0 <= k < sources.seq().len() && sources.seq()[k] == other;
        assert(sources@.contains(other));
        assert(other == source);
        assert(only_source(cfg, backedges@) == Some(source));
    }
    if block_jumps_to(proto, cfg, source, header) {
        let condition = repeat_continue_target_via_backedge_pad(proto, cfg, source, blocks);
        if condition.is_some() {
            return (LoopKindHint::RepeatLike, condition, None);
        }
        if !region_has_scope_cleanup(proto, cfg, blocks) && exits_are_terminal(proto, cfg, exits) {
            return (LoopKindHint::WhileTrueLike, Some(source), None);
        }
    }
    if block_ends_in_branch(proto, cfg, source) && branch_has_header_and_exit(cfg, source, header, blocks) {
        return (LoopKindHint::RepeatLike, Some(source), None);
    }
    (LoopKindHint::Unknown, Some(source), None)
}

} // verus!
