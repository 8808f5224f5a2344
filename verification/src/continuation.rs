//! Where a loop goes on when it is left.

use vstd::prelude::*;

use crate::cfg::{Cfg, EdgeKind};
use crate::conditions::{exits_exist, ConditionModel, ConditionPlanInput};
use crate::evidence::{LoopCandidate, LoopKindHint, ShortCircuitExit};
use crate::graph::GraphFacts;
use crate::helpers::{fits, known_blocks, ranges_fit};
use crate::ids::BlockRef;
use crate::idset::IdSet;
use crate::lir::{LowInstr, LoweredProto, ValuePack};
use crate::loop_exits::{check_only_closes, exit_target, only_closes, transparent_loop_exit_target};
use crate::loop_values::LoopModel;
use crate::repeats::ends_function;
use crate::search::{count_where, count_where_monotone, first_where, only_where};

verus! {

/// Single edges lead from `b`, outside of the loop, to `to`.
pub open spec fn runs_straight(cfg: &Cfg, c: LoopModel, b: BlockRef, to: BlockRef, fuel: nat) -> bool
    decreases fuel,
{
    if b == to {
        true
    } else if fuel == 0 || c.blocks.contains(b) || c.control.contains(b) || !cfg.has_block(b) || cfg.out_edges(b).len() != 1 {
        false
    } else {
        runs_straight(cfg, c, cfg.edge(cfg.out_edges(b)[0]).to, to, (fuel - 1) as nat)
    }
}

pub fn linear_loop_exit_tail(cfg: &Cfg, candidate: &LoopCandidate, block: BlockRef, continuation: BlockRef) -> (r: bool)
    requires
        cfg.wf(),
        cfg.has_block(block),
    ensures
        r == runs_straight(cfg, candidate@, block, continuation, cfg.blocks@.len()),
{
    let mut at = block;
    let mut remaining: usize = cfg.blocks.len();
    while at != continuation
        invariant
            cfg.wf(),
            cfg.has_block(at),
            runs_straight(cfg, candidate@, block, continuation, cfg.blocks@.len()) == runs_straight(
                cfg,
                candidate@,
                at,
                continuation,
                remaining as nat,
            ),
        decreases remaining,
    {
        if remaining == 0 || candidate.blocks.contains(at) || candidate.control_blocks.contains(at) || cfg.succs[at.0].len() != 1 {
            return false;
        }
        let e = cfg.succs[at.0][0];
        assert(e == cfg.out_edges(at)[0]);
        at = cfg.edges[e.0].to;
        remaining = remaining - 1;
    }
    true
}

/// The function ends at the exit, or one block later.
pub open spec fn ends_soon(proto: &LoweredProto, cfg: &Cfg, exit: BlockRef) -> bool {
    ends_function(proto, cfg, exit) || match cfg.unique_successor(exit) {
        Some(t) => ends_function(proto, cfg, t),
        None => false,
    }
}

fn check_ends(proto: &LoweredProto, cfg: &Cfg, b: BlockRef) -> (r: bool)
    requires
        fits(proto, cfg),
        cfg.has_block(b),
    ensures
        r == ends_function(proto, cfg, b),
{
    proof {
        ranges_fit(proto, cfg, b);
    }
    match cfg.terminator(proto.instrs.as_slice(), b) {
        Some(LowInstr::Return(_)) => true,
        Some(LowInstr::TailCall(_)) => true,
        _ => false,
    }
}

pub fn loop_exit_is_terminal(proto: &LoweredProto, cfg: &Cfg, exit: BlockRef) -> (r: bool)
    requires
        fits(proto, cfg),
        cfg.has_block(exit),
    ensures
        r == ends_soon(proto, cfg, exit),
{
    if check_ends(proto, cfg, exit) {
        return true;
    }
    match cfg.unique_reachable_successor(exit) {
        Some(t) => check_ends(proto, cfg, t),
        None => false,
    }
}

/// The block only closes scopes and returns nothing.
pub open spec fn returns_nothing(proto: &LoweredProto, cfg: &Cfg, b: BlockRef) -> bool {
    match cfg.terminator_of(proto.instrs@, b) {
        Some(LowInstr::Return(r)) => match r.values {
            ValuePack::Fixed(range) => range.len == 0 && only_closes(
                proto,
                cfg.range(b).start.0 as int,
                cfg.range(b).end_at() - 1,
            ),
            ValuePack::Open(_) => false,
        },
        _ => false,
    }
}

/// One past what the block does before it jumps, if it does.
pub open spec fn work_end(proto: &LoweredProto, cfg: &Cfg, b: BlockRef) -> int {
    if cfg.terminator_of(proto.instrs@, b) is Some && cfg.terminator_of(proto.instrs@, b)->0 is Jump {
        cfg.range(b).end_at() - 1
    } else {
        cfg.range(b).end_at()
    }
}

/// The exit closes scopes, and then the function returns nothing.
pub open spec fn closes_and_returns(proto: &LoweredProto, cfg: &Cfg, b: BlockRef) -> bool {
    &&& cfg.out_edges(b).len() == 1
    &&& cfg.edge(cfg.out_edges(b)[0]).kind == EdgeKind::Fallthrough || cfg.edge(cfg.out_edges(b)[0]).kind == EdgeKind::Jump
    &&& cfg.range(b).start.0 < work_end(proto, cfg, b)
    &&& only_closes(proto, cfg.range(b).start.0 as int, work_end(proto, cfg, b))
    &&& returns_nothing(proto, cfg, cfg.edge(cfg.out_edges(b)[0]).to)
}

fn check_returns_nothing(proto: &LoweredProto, cfg: &Cfg, b: BlockRef) -> (r: bool)
    requires
        fits(proto, cfg),
        cfg.has_block(b),
    ensures
        r == returns_nothing(proto, cfg, b),
{
    proof {
        ranges_fit(proto, cfg, b);
    }
    match cfg.terminator(proto.instrs.as_slice(), b) {
        Some(LowInstr::Return(ret)) => match ret.values {
            ValuePack::Fixed(range) => {
                let own = cfg.blocks[b.0].instrs;
                range.len == 0 && check_only_closes(proto, own.start.0, own.end() - 1)
            },
            ValuePack::Open(_) => false,
        },
        _ => false,
    }
}

fn check_closes_and_returns(proto: &LoweredProto, cfg: &Cfg, b: BlockRef) -> (r: bool)
    requires
        fits(proto, cfg),
        cfg.has_block(b),
    ensures
        r == closes_and_returns(proto, cfg, b),
{
    proof {
        ranges_fit(proto, cfg, b);
    }
    if cfg.succs[b.0].len() != 1 {
        return false;
    }
    let e = cfg.succs[b.0][0];
    assert(e == cfg.out_edges(b)[0]);
    let kind = cfg.edges[e.0].kind;
    if kind != EdgeKind::Fallthrough && kind != EdgeKind::Jump {
        return false;
    }
    let range = cfg.blocks[b.0].instrs;
    let jumps = match cfg.terminator(proto.instrs.as_slice(), b) {
        Some(LowInstr::Jump(_)) => true,
        _ => false,
    };
    let end = if jumps {
        range.end() - 1
    } else {
        range.end()
    };
    range.start.0 < end && check_only_closes(proto, range.start.0, end) && check_returns_nothing(proto, cfg, cfg.edges[e.0].to)
}

pub open spec fn quiet_exit(proto: &LoweredProto, cfg: &Cfg, exits: Seq<BlockRef>) -> spec_fn(int) -> bool {
    |i: int| closes_and_returns(proto, cfg, exits[i])
}

/// The only exit that closes scopes and then returns nothing. The exits come by number.
pub open spec fn only_quiet_exit(proto: &LoweredProto, cfg: &Cfg, exits: Seq<BlockRef>) -> Option<BlockRef> {
    match only_where(exits.len(), quiet_exit(proto, cfg, exits)) {
        Some(i) => Some(exits[i]),
        None => None,
    }
}

pub fn unique_cleanup_to_empty_return_exit(proto: &LoweredProto, cfg: &Cfg, exits: &IdSet<BlockRef>) -> (r: Option<BlockRef>)
    requires
        fits(proto, cfg),
        known_blocks(cfg, exits@),
    ensures
        r == only_quiet_exit(proto, cfg, exits.seq()),
        r is Some ==> exits@.contains(r->0),
{
    let n = exits.len();
    let ghost p = quiet_exit(proto, cfg, exits.seq());
    let mut found: Option<usize> = None;
    let mut i: usize = 0;
    while i < n
        invariant
            fits(proto, cfg),
            known_blocks(cfg, exits@),
            n == exits.seq().len(),
            p == quiet_exit(proto, cfg, exits.seq()),
            i <= n,
            match found {
                None => count_where(i as nat, p) == 0 && first_where(i as nat, p) is None,
                Some(k) => count_where(i as nat, p) == 1 && first_where(i as nat, p) == Some(k as int) && k < i,
            },
        decreases n - i,
    {
        let b = exits.at(i);
        assert(cfg.has_block(b));
        let here = check_closes_and_returns(proto, cfg, b);
        assert(p(i as int) == here);
        if here {
            if found.is_some() {
                proof {
                    count_where_monotone((i + 1) as nat, n as nat, p);
                }
                return None;
            }
            found = Some(i);
        }
        i = i + 1;
    }
    match found {
        Some(k) => Some(exits.at(k)),
        None => None,
    }
}

/// The nearest block that post-dominates the first `n` exits.
pub open spec fn common_exit(g: &GraphFacts, exits: Seq<BlockRef>, n: nat) -> Option<BlockRef>
    decreases n,
{
    if n == 0 {
        None
    } else if n == 1 {
        Some(exits[0])
    } else {
        match common_exit(g, exits, (n - 1) as nat) {
            Some(b) => g.common_postdom(b, exits[n - 1]),
            None => None,
        }
    }
}

/// The block belongs to the next iteration.
pub open spec fn goes_on_in(c: LoopModel, b: BlockRef) -> bool {
    c.blocks.contains(b) || c.control.contains(b) || c.continue_target == Some(b)
}

/// Where the condition leaves the loop.
pub open spec fn condition_exit(
    proto: &LoweredProto,
    cfg: &Cfg,
    c: LoopModel,
    condition: Option<ConditionModel>,
) -> Option<BlockRef> {
    match condition {
        Some(m) => match m.s.exit {
            ShortCircuitExit::BranchExit { truthy, falsy } => {
                let out = if goes_on_in(c, truthy) && !goes_on_in(c, falsy) {
                    Some(falsy)
                } else if !goes_on_in(c, truthy) && goes_on_in(c, falsy) {
                    Some(truthy)
                } else {
                    None
                };
                match out {
                    Some(b) => if b == cfg.exit_block {
                        None
                    } else {
                        match exit_target(proto, cfg, b) {
                            Some(t) => Some(t),
                            None => Some(b),
                        }
                    },
                    None => None,
                }
            },
            ShortCircuitExit::ValueMerge(_) => None,
        },
        None => None,
    }
}

/// Some exit but `b` soon ends the function.
pub open spec fn other_exit_ends(proto: &LoweredProto, cfg: &Cfg, exits: Set<BlockRef>, b: BlockRef) -> bool {
    exists|x: BlockRef| #[trigger] exits.contains(x) && x != b && ends_soon(proto, cfg, x)
}

/// Where the loop goes on: at the block behind all exits, or where its condition leaves it.
pub open spec fn goes_on_at(
    proto: &LoweredProto,
    cfg: &Cfg,
    g: &GraphFacts,
    c: LoopModel,
    exits: Seq<BlockRef>,
    condition: Option<ConditionModel>,
) -> Option<BlockRef> {
    let direct = condition_exit(proto, cfg, c, condition);
    let common = match common_exit(g, exits, exits.len()) {
        Some(b) => if b == cfg.exit_block {
            None
        } else {
            Some(b)
        },
        None => None,
    };
    let quiet = only_quiet_exit(proto, cfg, exits);
    if exits.len() == 0 {
        None
    } else if common is None && (c.kind == LoopKindHint::Unknown || c.kind == LoopKindHint::WhileTrueLike) && quiet is Some && ((
    direct is Some && ends_soon(proto, cfg, direct->0)) || other_exit_ends(proto, cfg, c.exits, quiet->0)) {
        quiet
    } else {
        match (direct, common) {
            (Some(d), Some(m)) => if d != m && !runs_straight(cfg, c, d, m, cfg.blocks@.len()) {
                Some(d)
            } else {
                Some(m)
            },
            (Some(d), None) => Some(d),
            (None, m) => m,
        }
    }
}

fn find_condition_exit(
    proto: &LoweredProto,
    cfg: &Cfg,
    c: &LoopCandidate,
    condition: Option<&ConditionPlanInput>,
) -> (r: Option<BlockRef>)
    requires
        fits(proto, cfg),
        condition is Some ==> exits_exist(cfg, (condition->0).candidate.exit),
    ensures
        r == condition_exit(
            proto,
            cfg,
            c@,
            match condition {
                Some(m) => Some(m@),
                None => None,
            },
        ),
        r is Some ==> cfg.has_block(r->0),
{
    let (truthy, falsy) = match condition {
        Some(m) => match m.candidate.exit {
            ShortCircuitExit::BranchExit { truthy, falsy } => (truthy, falsy),
            ShortCircuitExit::ValueMerge(_) => {
                return None;
            },
        },
        None => {
            return None;
        },
    };
    let a = check_goes_on_in(c, truthy);
    let b = check_goes_on_in(c, falsy);
    let out = if a && !b {
        falsy
    } else if !a && b {
        truthy
    } else {
        return None;
    };
    if out == cfg.exit_block {
        return None;
    }
    match transparent_loop_exit_target(proto, cfg, out) {
        Some(t) => Some(t),
        None => Some(out),
    }
}

fn check_goes_on_in(c: &LoopCandidate, b: BlockRef) -> (r: bool)
    ensures
        r == goes_on_in(c@, b),
{
    c.blocks.contains(b) || c.control_blocks.contains(b) || match c.continue_target {
        Some(t) => t == b,
        None => false,
    }
}

fn find_common_exit(cfg: &Cfg, g: &GraphFacts, exits: &IdSet<BlockRef>) -> (r: Option<BlockRef>)
    requires
        g.sized(cfg),
        known_blocks(cfg, exits@),
    ensures
        r == common_exit(g, exits.seq(), exits.seq().len()),
        r is Some ==> cfg.has_block(r->0),
{
    let n = exits.len();
    if n == 0 {
        return None;
    }
    let mut at = exits.at(0);
    let mut i: usize = 1;
    while i < n
        invariant
            g.sized(cfg),
            known_blocks(cfg, exits@),
            n == exits.seq().len(),
            1 <= i <= n,
            common_exit(g, exits.seq(), i as nat) == Some(at),
            cfg.has_block(at),
        decreases n - i,
    {
        match g.nearest_common_postdom(at, exits.at(i)) {
            Some(b) => {
                at = b;
            },
            None => {
                proof {
                    common_exit_stops(g, exits.seq(), (i + 1) as nat, n as nat);
                }
                return None;
            },
        }
        i = i + 1;
    }
    Some(at)
}

proof fn common_exit_stops(g: &GraphFacts, exits: Seq<BlockRef>, m: nat, n: nat)
    requires
        1 < m <= n,
        common_exit(g, exits, m) is None,
    ensures
        common_exit(g, exits, n) is None,
    decreases n,
{
    if m < n {
        common_exit_stops(g, exits, m, (n - 1) as nat);
    }
}

fn check_other_exit_ends(proto: &LoweredProto, cfg: &Cfg, exits: &IdSet<BlockRef>, b: BlockRef) -> (r: bool)
    requires
        fits(proto, cfg),
        known_blocks(cfg, exits@),
    ensures
        r == other_exit_ends(proto, cfg, exits@, b),
{
    let n = exits.len();
    let mut i: usize = 0;
    while i < n
        invariant
            fits(proto, cfg),
            known_blocks(cfg, exits@),
            n == exits.seq().len(),
            i <= n,
            forall|k: int| 0 <= k < i ==> (#[trigger] exits.seq()[k]) == b || !ends_soon(proto, cfg, exits.seq()[k]),
        decreases n - i,
    {
        let x = exits.at(i);
        assert(cfg.has_block(x));
        if x != b && loop_exit_is_terminal(proto, cfg, x) {
            assert(exits@.contains(x));
            return true;
        }
        i = i + 1;
    }
    assert forall|x: BlockRef| #[trigger] exits@.contains(x) implies x == b || !ends_soon(proto, cfg, x) by {
        assert(exits.seq().contains(x));
        assert(exits.seq()[exits.seq().index_of(x)] == x);
    }
    false
}

/// Where the loop goes on when it is left.
pub fn loop_continuation(
    proto: &LoweredProto,
    cfg: &Cfg,
    graph_facts: &GraphFacts,
    candidate: &LoopCandidate,
    condition: Option<&ConditionPlanInput>,
) -> (r: Option<BlockRef>)
    requires
        fits(proto, cfg),
        graph_facts.sized(cfg),
        candidate.wf(cfg),
        condition is Some ==> exits_exist(cfg, (condition->0).candidate.exit),
    ensures
        r == goes_on_at(
            proto,
            cfg,
            graph_facts,
            candidate@,
            candidate.exits.seq(),
            match condition {
                Some(m) => Some(m@),
                None => None,
            },
        ),
        r is Some ==> cfg.has_block(r->0),
{
    if candidate.exits.len() == 0 {
        return None;
    }
    let direct = find_condition_exit(proto, cfg, candidate, condition);
    let common = match find_common_exit(cfg, graph_facts, &candidate.exits) {
        Some(b) => if b == cfg.exit_block {
            None
        } else {
            Some(b)
        },
        None => None,
    };
    let open = match candidate.kind_hint {
        LoopKindHint::Unknown => true,
        LoopKindHint::WhileTrueLike => true,
        _ => false,
    };
    if common.is_none() && open {
        if let Some(quiet) = unique_cleanup_to_empty_return_exit(proto, cfg, &candidate.exits) {
            let ends = match direct {
                Some(d) => loop_exit_is_terminal(proto, cfg, d),
                None => false,
            };
            if ends || check_other_exit_ends(proto, cfg, &candidate.exits, quiet) {
                assert(cfg.has_block(quiet));
                return Some(quiet);
            }
        }
    }
    match (direct, common) {
        (Some(d), Some(m)) => if d != m && !linear_loop_exit_tail(cfg, candidate, d, m) {
            Some(d)
        } else {
            Some(m)
        },
        (Some(d), None) => Some(d),
        (None, m) => m,
    }
}

} // verus!
