//! Which conditions are chosen, how far they go, and what joining them keeps.

use vstd::prelude::*;

use crate::cfg::Cfg;
use crate::condition_arcs::{ArcModel, ShortModel};
use crate::condition_safety::{
    builds_on, cut_nodes, cuts, has_escaping, has_unabsorbed, lets_escape, made_from, needs_instr, safe_part,
};
use crate::conditions::{last_action, required_header, side_uniform, single_condition, to_side, ConditionModel};
use crate::dataflow::{DataflowFacts, DefId, SsaValue};
use crate::edge_actions::ActionModel;
use crate::evidence::{LoopKindHint, ShortCircuitExit, ShortCircuitNode, ShortCircuitTarget};
use crate::guards::{exit_block, has_header, joined, GuardContext};
use crate::ids::{BlockRef, EdgeRef};
use crate::loop_laws::is_fork;
use crate::loop_values::{loop_models, LoopModel};
use crate::search::{first_where, first_where_least};
use crate::selection::ConditionSelectionInput;
use crate::walk::{reaches_self, reaches_then_step};

verus! {

/// Of the conditions on offer at block `h` none is larger than the one that is chosen: more
/// questions count first, then more blocks. Where none is on offer, the branch itself is the
/// condition, if a branch or a loop is decided there; otherwise there is none.
pub proof fn the_largest_condition_is_chosen(input: &ConditionSelectionInput, h: BlockRef)
    ensures
        match input.chosen(h) {
            Some(c) => {
                ||| (exists|i: int| 0 <= i < input.offers() && #[trigger] input.offer(i) == Some(c)) && c.s.header == h && forall|i: int|
                    0 <= i < input.offers() && (#[trigger] input.offer(i)) is Some && (input.offer(i)->0).s.header == h ==> {
                        let d = input.offer(i)->0;
                        d.s.nodes.len() < c.s.nodes.len() || (d.s.nodes.len() == c.s.nodes.len() && d.s.blocks.len()
                            <= c.s.blocks.len())
                    }
                ||| none_on_offer(input, h) && decided_at(input, h) && single_condition(
                    input.proto,
                    input.cfg,
                    h,
                ) == Some(c)
            },
            None => none_on_offer(input, h) && (decided_at(input, h) ==> single_condition(
                input.proto,
                input.cfg,
                h,
            ) is None),
        },
{
    best_is_largest(input, h, input.offers());
    assert(input.is_wanted(h) == decided_at(input, h)) by {
        if input.is_wanted(h) && !(exists|i: int| 0 <= i < input.branches@.len() && (#[trigger] input.branches@[i]).header == h) {
            let i = choose|i: int|
                0 <= i < input.loops@.len() && required_header(input.cfg, #[trigger] loop_models(input.loops@)[i]) == Some(h);
            assert(required_header(input.cfg, input.loops@[i]@) == Some(h));
        }
        if exists|i: int| 0 <= i < input.loops@.len() && required_header(input.cfg, (#[trigger] input.loops@[i])@) == Some(h) {
            let i = choose|i: int| 0 <= i < input.loops@.len() && required_header(input.cfg, (#[trigger] input.loops@[i])@) == Some(h);
            assert(loop_models(input.loops@)[i] == input.loops@[i]@);
        }
    }
}

pub open spec fn none_on_offer(input: &ConditionSelectionInput, h: BlockRef) -> bool {
    forall|i: int| 0 <= i < input.offers() && (#[trigger] input.offer(i)) is Some ==> (input.offer(i)->0).s.header != h
}

/// A branch starts at `h`, or a loop is decided there.
pub open spec fn decided_at(input: &ConditionSelectionInput, h: BlockRef) -> bool {
    ||| exists|i: int| 0 <= i < input.branches@.len() && (#[trigger] input.branches@[i]).header == h
    ||| exists|i: int| 0 <= i < input.loops@.len() && required_header(input.cfg, (#[trigger] input.loops@[i])@) == Some(h)
}

proof fn best_is_largest(input: &ConditionSelectionInput, h: BlockRef, n: nat)
    ensures
        match input.best(h, n) {
            Some(c) => {
                &&& exists|i: int| 0 <= i < n && #[trigger] input.offer(i) == Some(c)
                &&& c.s.header == h
                &&& forall|i: int|
                    0 <= i < n && (#[trigger] input.offer(i)) is Some && (input.offer(i)->0).s.header == h ==> {
                        let d = input.offer(i)->0;
                        d.s.nodes.len() < c.s.nodes.len() || (d.s.nodes.len() == c.s.nodes.len() && d.s.blocks.len()
                            <= c.s.blocks.len())
                    }
            },
            None => forall|i: int|
                0 <= i < n && (#[trigger] input.offer(i)) is Some ==> (input.offer(i)->0).s.header != h,
        },
    decreases n,
{
    if n > 0 {
        let m = (n - 1) as nat;
        best_is_largest(input, h, m);
        let last = input.offer(m as int);
        if input.best(h, m) is Some {
            let i = choose|i: int| 0 <= i < m && #[trigger] input.offer(i) == Some(input.best(h, m)->0);
            assert(0 <= i < n && input.offer(i) == Some(input.best(h, m)->0));
        }
        if last is Some {
            assert(input.offer(m as int) == Some(last->0));
        }
    }
}

/// The block that decides over a loop: none for the `for` loops and a `while true`; for a
/// `repeat` its condition, or else where it goes on; for others their condition, or else
/// their header. Only a block with a true and a false edge decides.
pub proof fn loops_are_decided_at_a_fork(cfg: &Cfg, c: LoopModel, h: BlockRef)
    requires
        cfg.wf(),
        cfg.has_block(h),
    ensures
        required_header(cfg, c) == Some(h) <==> {
            &&& c.kind == LoopKindHint::RepeatLike || c.kind == LoopKindHint::WhileLike || c.kind == LoopKindHint::Unknown
            &&& if c.condition_header is Some {
                c.condition_header == Some(h)
            } else if c.kind == LoopKindHint::RepeatLike {
                c.continue_target == Some(h)
            } else {
                c.header == h
            }
            &&& cfg.out_edges(h).len() == 2 && exists|t: EdgeRef, f: EdgeRef| #[trigger] is_fork(cfg, h, t, f)
        },
{
    match cfg.branch_edges_of(h) {
        Some((t, f)) => {
            cfg.branch_edges_by_kind(h, t, f);
            assert(is_fork(cfg, h, t, f));
        },
        None => {
            if cfg.out_edges(h).len() == 2 && exists|t: EdgeRef, f: EdgeRef| #[trigger] is_fork(cfg, h, t, f) {
                let (t, f) = choose|t: EdgeRef, f: EdgeRef| #[trigger] is_fork(cfg, h, t, f);
                cfg.branch_edges_by_kind(h, t, f);
            }
        },
    }
}

/// What the arc's last edge does.
pub open spec fn does_last(actions: Seq<ActionModel>, a: ArcModel) -> ActionModel {
    actions[a.edges[a.edges.len() - 1].0 as int]
}

/// A condition on offer ends on either side, and on each side in one way: all arcs to the same
/// side do the same at their end, and where there are several, none of them jumps or
/// continues a loop.
pub proof fn offered_conditions_end_in_one_way(input: &ConditionSelectionInput, i: int, side: ShortCircuitTarget)
    requires
        input.offer(i) is Some,
        side == ShortCircuitTarget::TruthyExit || side == ShortCircuitTarget::FalsyExit,
    ensures
        ({
            let c = input.offer(i)->0;
            &&& exists|k: int| 0 <= k < c.arcs.len() && (#[trigger] c.arcs[k]).target == side
            &&& forall|k: int| 0 <= k < c.arcs.len() ==> (#[trigger] c.arcs[k]).edges.len() > 0 && !(c.arcs[k].target is Value)
            &&& forall|j: int, k: int|
                0 <= j < k < c.arcs.len() && (#[trigger] c.arcs[j]).target == side && (#[trigger] c.arcs[k]).target == side ==> {
                    let a = does_last(input.actions(), c.arcs[j]);
                    &&& a == does_last(input.actions(), c.arcs[k])
                    &&& a.goto is None && !a.continues
                }
        }),
{
    let c = input.offer(i)->0;
    let actions = input.actions();
    assert(side_uniform(c, actions, side));
    let p = to_side(c.arcs, side);
    first_where_least(c.arcs.len(), p);
    let first = first_where(c.arcs.len(), p)->0;
    assert(p(first));
    assert(c.arcs[first].target == side);
    assert forall|j: int, k: int|
        0 <= j < k < c.arcs.len() && (#[trigger] c.arcs[j]).target == side && (#[trigger] c.arcs[k]).target == side implies {
        let a = does_last(actions, c.arcs[j]);
        &&& a == does_last(actions, c.arcs[k])
        &&& a.goto is None && !a.continues
    } by {
        if j < first {
            assert(p(j));
        }
        assert(last_action(actions, c.arcs[k]) == last_action(actions, c.arcs[first]));
        if j > first {
            assert(last_action(actions, c.arcs[j]) == last_action(actions, c.arcs[first]));
        }
    }
}

/// Block `b` can be part of a condition: what it does before its last instruction the
/// condition needs, or it has no effect, and what it defines is used in `blocks` only.
pub open spec fn fits_in(cfg: &Cfg, dataflow: &DataflowFacts, blocks: Set<BlockRef>, b: BlockRef) -> bool {
    let range = cfg.range(b);
    let last = range.start.0 + range.len - 1;
    &&& range.len > 0
    &&& forall|i: int|
        range.start.0 <= i < last ==> (#[trigger] dataflow.effect_summaries@[i]).tags@.len() == 0 || needs_instr(dataflow, last, i)
    &&& forall|i: int, k: int|
        range.start.0 <= i <= last && 0 <= k < dataflow.instr_defs@[i]@.len() ==> !dataflow.has_use_outside(
            cfg,
            #[trigger] dataflow.instr_defs@[i]@[k],
            blocks,
        )
}

proof fn cuts_where_nothing_fits(cfg: &Cfg, dataflow: &DataflowFacts, s: ShortModel, b: BlockRef)
    ensures
        (has_escaping(cfg, dataflow, s.blocks, b) || has_unabsorbed(cfg, dataflow, b)) == !fits_in(cfg, dataflow, s.blocks, b),
{
    let range = cfg.range(b);
    let last = range.start.0 + range.len - 1;
    if has_escaping(cfg, dataflow, s.blocks, b) {
        let (i, k) = choose|i: int, k: int|
            range.start.0 <= i < range.end_at() && #[trigger] lets_escape(cfg, dataflow, s.blocks, i, k);
        assert(dataflow.has_use_outside(cfg, dataflow.instr_defs@[i]@[k], s.blocks));
    }
    if has_unabsorbed(cfg, dataflow, b) && range.len > 0 {
        let i = choose|i: int|
            range.start.0 <= i < range.end_at() - 1 && (#[trigger] dataflow.effect_summaries@[i]).tags@.len() > 0 && !needs_instr(
                dataflow,
                range.end_at() - 1,
                i,
            );
        assert(dataflow.effect_summaries@[i].tags@.len() > 0);
    }
    if !fits_in(cfg, dataflow, s.blocks, b) && range.len > 0 && !has_unabsorbed(cfg, dataflow, b) {
        assert forall|i: int| range.start.0 <= i < last implies (#[trigger] dataflow.effect_summaries@[i]).tags@.len() == 0
            || needs_instr(dataflow, last, i) by {}
        let (i, k) = choose|i: int, k: int|
            range.start.0 <= i <= last && 0 <= k < dataflow.instr_defs@[i]@.len() && dataflow.has_use_outside(
                cfg,
                #[trigger] dataflow.instr_defs@[i]@[k],
                s.blocks,
            );
        assert(lets_escape(cfg, dataflow, s.blocks, i, k));
    }
}

/// The safe part of a condition asks its first questions in the same blocks, in their order.
/// All of them behind the first are asked in blocks that can be part of it; it is the whole
/// condition if all can, and otherwise it ends before the first that cannot, whose block it
/// leads to on its true side.
pub proof fn safe_parts_go_as_far_as_they_can(cfg: &Cfg, dataflow: &DataflowFacts, s: ShortModel)
    requires
        0 < s.nodes.len() <= usize::MAX,
        safe_part(cfg, dataflow, s) is Some,
    ensures
        ({
            let r = safe_part(cfg, dataflow, s)->0;
            &&& r.header == s.header && r.entry == s.entry
            &&& 0 < r.nodes.len() <= s.nodes.len()
            &&& forall|k: int| 0 <= k < r.nodes.len() ==> (#[trigger] r.nodes[k]).header == s.nodes[k].header
            &&& forall|k: int| 0 < k < r.nodes.len() ==> fits_in(cfg, dataflow, s.blocks, (#[trigger] r.nodes[k]).header)
            &&& r.nodes.len() == s.nodes.len() ==> r == s
            &&& r.nodes.len() < s.nodes.len() ==> {
                let stop = s.nodes[r.nodes.len() as int].header;
                &&& !fits_in(cfg, dataflow, s.blocks, stop)
                &&& match (r.exit, s.exit) {
                    (
                        ShortCircuitExit::BranchExit { truthy, falsy },
                        ShortCircuitExit::BranchExit { falsy: whole, .. },
                    ) => truthy == stop && falsy == whole,
                    _ => false,
                }
            }
        }),
{
    let n = (s.nodes.len() - 1) as nat;
    let p = cuts(cfg, dataflow, s);
    first_where_least(n, p);
    let r = safe_part(cfg, dataflow, s)->0;
    match first_where(n, p) {
        Some(k) => {
            let cut = (k + 1) as usize;
            assert(p(k));
            assert forall|i: int| 0 <= i < cut implies (#[trigger] r.nodes[i]).header == s.nodes[i].header && r.nodes.len() == cut by {
                cut_nodes_keep_headers(s.nodes, cut, cut as nat, i);
            }
            assert(r.nodes[0].header == s.nodes[0].header);
            cuts_where_nothing_fits(cfg, dataflow, s, s.nodes[k + 1].header);
            assert forall|q: int| 0 < q < r.nodes.len() implies fits_in(cfg, dataflow, s.blocks, (#[trigger] r.nodes[q]).header) by {
                assert(!p(q - 1));
                cuts_where_nothing_fits(cfg, dataflow, s, s.nodes[q].header);
            }
        },
        None => {
            assert forall|q: int| 0 < q < r.nodes.len() implies fits_in(cfg, dataflow, s.blocks, (#[trigger] r.nodes[q]).header) by {
                assert(!p(q - 1));
                cuts_where_nothing_fits(cfg, dataflow, s, s.nodes[q].header);
            }
        },
    }
}

proof fn cut_nodes_keep_headers(nodes: Seq<ShortCircuitNode>, cut: usize, n: nat, i: int)
    requires
        cut_nodes(nodes, cut, n) is Some,
        0 <= i < n,
    ensures
        (cut_nodes(nodes, cut, n)->0).len() == n,
        (cut_nodes(nodes, cut, n)->0)[i].header == nodes[i].header,
    decreases n,
{
    if n > 1 {
        cut_nodes_keep_headers(
            nodes,
            cut,
            (n - 1) as nat,
            if i < n - 1 {
                i
            } else {
                0
            },
        );
    } else {
        assert(cut_nodes(nodes, cut, 0) == Some(Seq::<ShortCircuitNode>::empty()));
    }
}

/// An instruction needs those whose definitions it reads, those from which a phi that it reads
/// takes them, and those that they need in turn.
pub proof fn instructions_need_what_they_read(dataflow: &DataflowFacts, q: int, i: int, d: DefId)
    requires
        d.0 < dataflow.defs@.len(),
        dataflow.defs@[d.0 as int].instr.0 == i,
    ensures
        (exists|k: int| 0 <= k < dataflow.use_values@[q].fixed@.len() && (#[trigger] dataflow.use_values@[q].fixed@[k]).1 == SsaValue::Def(d))
            ==> needs_instr(dataflow, q, i),
        forall|k: int, j: int|
            #![trigger dataflow.use_values@[q].fixed@[k], dataflow.phi_candidates@[j]]
            0 <= k < dataflow.use_values@[q].fixed@.len() && 0 <= j < dataflow.phi_candidates@.len()
                && dataflow.use_values@[q].fixed@[k].1 is Phi && (dataflow.use_values@[q].fixed@[k].1->Phi_0).0 == j && (exists|m: int|
                0 <= m < dataflow.phi_candidates@[j].incoming@.len() && (#[trigger] dataflow.phi_candidates@[j].incoming@[m]).value
                    == SsaValue::Def(d)) ==> needs_instr(dataflow, q, i),
        forall|p: int| #[trigger]
            needs_instr(dataflow, q, p) && (exists|k: int|
                0 <= k < dataflow.use_values@[p].fixed@.len() && (#[trigger] dataflow.use_values@[p].fixed@[k]).1 == SsaValue::Def(d))
                ==> needs_instr(dataflow, q, i),
{
    let step = made_from(dataflow);
    let goal = SsaValue::Def(d);
    if exists|k: int| 0 <= k < dataflow.use_values@[q].fixed@.len() && (#[trigger] dataflow.use_values@[q].fixed@[k]).1 == goal {
        reaches_self(step, goal);
        assert(builds_on(dataflow, q, goal, d));
    }
    assert forall|k: int, j: int|
        #![trigger dataflow.use_values@[q].fixed@[k], dataflow.phi_candidates@[j]]
        0 <= k < dataflow.use_values@[q].fixed@.len() && 0 <= j < dataflow.phi_candidates@.len() && dataflow.use_values@[q].fixed@[k].1 is Phi
            && (dataflow.use_values@[q].fixed@[k].1->Phi_0).0 == j && (exists|m: int|
            0 <= m < dataflow.phi_candidates@[j].incoming@.len() && (#[trigger] dataflow.phi_candidates@[j].incoming@[m]).value == goal) implies needs_instr(
        dataflow,
        q,
        i,
    ) by {
        let root = dataflow.use_values@[q].fixed@[k].1;
        reaches_self(step, root);
        assert(step(root, goal));
        reaches_then_step(step, root, root, goal);
        assert(builds_on(dataflow, q, root, d));
    }
    assert forall|p: int| #[trigger]
        needs_instr(dataflow, q, p) && (exists|k: int|
            0 <= k < dataflow.use_values@[p].fixed@.len() && (#[trigger] dataflow.use_values@[p].fixed@[k]).1 == goal) implies needs_instr(
        dataflow,
        q,
        i,
    ) by {
        let (root, c) = choose|root: SsaValue, c: DefId|
            c.0 < dataflow.defs@.len() && dataflow.defs@[c.0 as int].instr.0 == p && #[trigger] builds_on(
                dataflow,
                q,
                root,
                c,
            );
        assert(step(SsaValue::Def(c), goal));
        reaches_then_step(step, root, SsaValue::Def(c), goal);
        assert(builds_on(dataflow, q, root, d));
    }
}

/// Joining two conditions keeps the ways of their arcs: first those of the one, then those of
/// the other, each with its edges, the blocks that it passes and its answer. The whole starts
/// where the first does, has the blocks of both, and is left where the second is.
pub proof fn joining_keeps_the_arcs(root: ConditionModel, next: ConditionModel)
    requires
        joined(root, next) is Some,
    ensures
        ({
            let m = joined(root, next)->0;
            &&& m.s.header == root.s.header && m.s.entry == root.s.entry && m.s.exit == next.s.exit
            &&& forall|b: BlockRef| #[trigger] m.s.blocks.contains(b) <==> root.s.blocks.contains(b) || next.s.blocks.contains(b)
            &&& m.arcs.len() == root.arcs.len() + next.arcs.len()
            &&& forall|i: int| #![trigger m.arcs[i]]
                0 <= i < m.arcs.len() ==> {
                    let a = if i < root.arcs.len() {
                        root.arcs[i]
                    } else {
                        next.arcs[i - root.arcs.len()]
                    };
                    m.arcs[i].edges == a.edges && m.arcs[i].connectors == a.connectors && m.arcs[i].truthy == a.truthy
                }
            &&& m.s.nodes.len() == root.s.nodes.len() + next.s.nodes.len()
            &&& forall|i: int| #![trigger m.s.nodes[i]]
                0 <= i < m.s.nodes.len() ==> m.s.nodes[i].header == (if i < root.s.nodes.len() {
                    root.s.nodes[i].header
                } else {
                    next.s.nodes[i - root.s.nodes.len()].header
                })
        }),
{
}

/// Two conditions are joined only where the second asks a single question, in blocks apart
/// from the first, starts at one exit of the first and has the other exit of it among its own.
pub proof fn partners_share_an_exit(
    guards: &GuardContext,
    actions: Seq<ActionModel>,
    entries: Seq<ConditionModel>,
    i: int,
)
    requires
        guards.partner(actions, entries, i) is Some,
    ensures
        ({
            let k = guards.partner(actions, entries, i)->0;
            let root = entries[i].s;
            let next = entries[k].s;
            &&& 0 <= k < entries.len()
            &&& next.nodes.len() == 1
            &&& forall|b: BlockRef| !(#[trigger] next.blocks.contains(b) && root.blocks.contains(b))
            &&& match (root.exit, next.exit) {
                (
                    ShortCircuitExit::BranchExit { truthy: a, falsy: b },
                    ShortCircuitExit::BranchExit { truthy: x, falsy: y },
                ) => (next.header == a && (x == b || y == b)) || (next.header == b && (x == a || y == a)),
                _ => false,
            }
            &&& forall|j: int|
                0 <= j < entries.len() && (#[trigger] entries[j]).s.header != root.header ==> !entries[j].s.blocks.contains(
                    root.header,
                )
        }),
{
    let root = entries[i];
    let to_yes = exit_block(root.s.exit, ShortCircuitTarget::TruthyExit);
    let to_no = exit_block(root.s.exit, ShortCircuitTarget::FalsyExit);
    first_where_least(entries.len(), has_header(entries, to_yes));
    first_where_least(entries.len(), has_header(entries, to_no));
    let k = guards.partner(actions, entries, i)->0;
    assert(entries[k].s.blocks.disjoint(root.s.blocks));
}

} // verus!
