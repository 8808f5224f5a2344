//! Where a loop goes on when it is left.

use vstd::prelude::*;

use crate::branch_laws::common_post_dominators_post_dominate;
use crate::cfg::{Cfg, EdgeKind};
use crate::conditions::ConditionModel;
use crate::continuation::{
    closes_and_returns, common_exit, condition_exit, ends_soon, goes_on_at, only_quiet_exit, quiet_exit,
};
use crate::evidence::ShortCircuitExit;
use crate::forest::up;
use crate::graph::GraphFacts;
use crate::ids::BlockRef;
use crate::lir::{LowInstr, LoweredProto, ReturnInstr};
use crate::loop_exits::exit_target;
use crate::loop_laws::ends_in;
use crate::loop_refine_laws::only_closes_at;
use crate::loop_values::LoopModel;
use crate::repeats::ends_function;
use crate::search::{only_where, only_where_alone};
use crate::tree::{covers_is_ancestry, up_compose};

verus! {

/// What post-dominates a post-dominator post-dominates.
pub proof fn postdom_transitive(cfg: &Cfg, g: &GraphFacts, a: BlockRef, b: BlockRef, c: BlockRef)
    requires
        g.sized(cfg),
        g.postdom(a, b),
        g.postdom(b, c),
    ensures
        g.postdom(a, c),
{
    let t = &g.post_dominator_tree.tree;
    covers_is_ancestry(t, a.0, b.0);
    covers_is_ancestry(t, b.0, c.0);
    covers_is_ancestry(t, a.0, c.0);
    if a != b && b != c {
        let i = choose|i: nat| #[trigger] up(t.parent@, b.0, i) == Some(a.0);
        let j = choose|j: nat| #[trigger] up(t.parent@, c.0, j) == Some(b.0);
        up_compose(t.parent@, c.0, j, i);
        assert(up(t.parent@, c.0, (j + i) as nat) == Some(a.0));
    }
}

/// The block behind all exits post-dominates each of them.
pub proof fn common_exits_post_dominate(cfg: &Cfg, g: &GraphFacts, exits: Seq<BlockRef>, n: nat)
    requires
        g.sized(cfg),
        n <= exits.len(),
        common_exit(g, exits, n) is Some,
    ensures
        forall|i: int| 0 <= i < n ==> g.postdom(common_exit(g, exits, n)->0, #[trigger] exits[i]),
    decreases n,
{
    if n > 1 {
        let m = (n - 1) as nat;
        let before = common_exit(g, exits, m)->0;
        common_exits_post_dominate(cfg, g, exits, m);
        common_post_dominators_post_dominate(cfg, g, before, exits[m as int]);
        let now = common_exit(g, exits, n)->0;
        assert forall|i: int| 0 <= i < n implies g.postdom(now, #[trigger] exits[i]) by {
            if i < m {
                postdom_transitive(cfg, g, now, before, exits[i]);
            }
        }
    }
}

/// Block `b` belongs to the loop's next iteration.
pub open spec fn stays_with(c: LoopModel, b: BlockRef) -> bool {
    c.blocks.contains(b) || c.control.contains(b) || c.continue_target == Some(b)
}

/// A condition leaves a loop only where one of its exits stays with the loop and the other
/// does not: at that other exit, or where it goes on without doing anything but close scopes.
pub proof fn conditions_leave_on_one_side(proto: &LoweredProto, cfg: &Cfg, c: LoopModel, condition: Option<ConditionModel>)
    requires
        condition_exit(proto, cfg, c, condition) is Some,
    ensures
        condition is Some,
        ({
            let b = condition_exit(proto, cfg, c, condition)->0;
            match (condition->0).s.exit {
                ShortCircuitExit::BranchExit { truthy, falsy } => {
                    &&& stays_with(c, truthy) != stays_with(c, falsy)
                    &&& {
                        let out = if stays_with(c, truthy) {
                            falsy
                        } else {
                            truthy
                        };
                        out != cfg.exit_block && (b == out || exit_target(proto, cfg, out) == Some(b))
                    }
                },
                ShortCircuitExit::ValueMerge(_) => false,
            }
        }),
{
}

/// Block `b` does nothing but close scopes, and its only edge falls or jumps to a block that
/// returns nothing.
pub open spec fn ends_quietly(proto: &LoweredProto, cfg: &Cfg, b: BlockRef) -> bool {
    &&& only_closes_at(proto, cfg, b)
    &&& cfg.out_edges(b).len() == 1
    &&& cfg.edge(cfg.out_edges(b)[0]).kind == EdgeKind::Fallthrough || cfg.edge(cfg.out_edges(b)[0]).kind == EdgeKind::Jump
    &&& exists|r: ReturnInstr| #[trigger]
        ends_in(proto, cfg, cfg.edge(cfg.out_edges(b)[0]).to, LowInstr::Return(r)) && r.values is Fixed && (r.values->Fixed_0).len == 0
}

/// A loop goes on at a block that post-dominates all of its exits, at the exit of its
/// condition, or at an exit that closes scopes before the function returns nothing; a loop
/// without exits goes on nowhere.
pub proof fn loops_go_on_behind_their_exits(
    proto: &LoweredProto,
    cfg: &Cfg,
    g: &GraphFacts,
    c: LoopModel,
    exits: Seq<BlockRef>,
    condition: Option<ConditionModel>,
)
    requires
        g.sized(cfg),
    ensures
        exits.len() == 0 ==> goes_on_at(proto, cfg, g, c, exits, condition) is None,
        goes_on_at(proto, cfg, g, c, exits, condition) is Some ==> {
            let b = goes_on_at(proto, cfg, g, c, exits, condition)->0;
            ||| b != cfg.exit_block && forall|i: int| 0 <= i < exits.len() ==> g.postdom(b, #[trigger] exits[i])
            ||| condition_exit(proto, cfg, c, condition) == Some(b)
            ||| exists|i: int| 0 <= i < exits.len() && #[trigger] exits[i] == b && ends_quietly(proto, cfg, b)
        },
        exits.len() > 0 && condition is None && common_exit(g, exits, exits.len()) is Some && common_exit(g, exits, exits.len())->0
            != cfg.exit_block ==> goes_on_at(proto, cfg, g, c, exits, condition) == common_exit(g, exits, exits.len()),
{
    if common_exit(g, exits, exits.len()) is Some {
        common_exits_post_dominate(cfg, g, exits, exits.len());
    }
    let quiet = only_quiet_exit(proto, cfg, exits);
    if quiet is Some {
        let p = quiet_exit(proto, cfg, exits);
        let k = only_where(exits.len(), p)->0;
        only_where_alone(exits.len(), p, k);
        assert(p(k));
        assert(exits[k] == quiet->0);
        let to = cfg.edge(cfg.out_edges(exits[k])[0]).to;
        match cfg.terminator_of(proto.instrs@, to) {
            Some(LowInstr::Return(r)) => {
                assert(ends_in(proto, cfg, to, LowInstr::Return(r)));
            },
            _ => {},
        }
        assert(closes_and_returns(proto, cfg, exits[k]));
        assert(ends_quietly(proto, cfg, exits[k]));
    }
}

/// The last instruction of the block ends the function.
pub open spec fn returns_at_its_end(proto: &LoweredProto, cfg: &Cfg, b: BlockRef) -> bool {
    exists|i: LowInstr| #[trigger] ends_in(proto, cfg, b, i) && (i is Return || i is TailCall)
}

/// The function ends soon behind an exit just when the exit ends it, or the only block behind
/// the exit does.
pub proof fn the_function_ends_within_two_blocks(proto: &LoweredProto, cfg: &Cfg, exit: BlockRef)
    ensures
        returns_at_its_end(proto, cfg, exit) ==> ends_soon(proto, cfg, exit),
        cfg.unique_successor(exit) is Some && returns_at_its_end(proto, cfg, cfg.unique_successor(exit)->0) ==> ends_soon(
            proto,
            cfg,
            exit,
        ),
        ends_soon(proto, cfg, exit) ==> returns_at_its_end(proto, cfg, exit) || (cfg.unique_successor(exit) is Some
            && returns_at_its_end(proto, cfg, cfg.unique_successor(exit)->0)),
{
    assert forall|b: BlockRef| #[trigger] returns_at_its_end(proto, cfg, b) <==> ends_function(proto, cfg, b) by {
        if let Some(i) = cfg.terminator_of(proto.instrs@, b) {
            assert(ends_in(proto, cfg, b, i));
        }
    }
    assert(returns_at_its_end(proto, cfg, exit) == ends_function(proto, cfg, exit));
    if let Some(t) = cfg.unique_successor(exit) {
        assert(returns_at_its_end(proto, cfg, t) == ends_function(proto, cfg, t));
    }
}

} // verus!
