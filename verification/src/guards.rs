//! Conditions that follow each other and become one.

use vstd::prelude::*;

use crate::branches::loops_wf;
use crate::cfg::Cfg;
use crate::condition_arcs::{arc_known, arc_models, arcs_known, is_exit_side, ArcModel, ConditionArcEvidence, ShortModel};
use crate::conditions::{
    action_models, condition_models, input_known, last_action, same_inputs, to_side, ConditionModel,
    ConditionPlanInput,
};
use crate::dataflow::{DataflowFacts, SsaRegMap, SsaValue};
use crate::edge_actions::{ActionModel, PreliminaryEdgeAction};
use crate::evidence::{LoopCandidate, ShortCircuitExit, ShortCircuitNode, ShortCircuitNodeRef, ShortCircuitTarget};
use crate::ids::{BlockRef, EdgeRef, Reg};
use crate::lists::copy_list;
use crate::loop_values::{loop_models, LoopModel};
use crate::search::{first_where, first_where_stable};
use crate::short_order::copy_short;
use crate::tracks::{analysable, range_fits};

verus! {

/// The target with its node number raised.
pub open spec fn raised(t: ShortCircuitTarget, by: usize) -> ShortCircuitTarget {
    match t {
        ShortCircuitTarget::Node(n) => ShortCircuitTarget::Node(ShortCircuitNodeRef(by.wrapping_add(n.0))),
        _ => t,
    }
}

/// One exit now leads on to another condition, and the other becomes one of that condition's.
pub open spec fn led_on(
    t: ShortCircuitTarget,
    on: ShortCircuitTarget,
    entry: ShortCircuitTarget,
    off: ShortCircuitTarget,
    last: ShortCircuitTarget,
) -> ShortCircuitTarget {
    if t == on {
        entry
    } else if t == off {
        last
    } else {
        t
    }
}

pub open spec fn opposite(t: ShortCircuitTarget) -> ShortCircuitTarget {
    if t == ShortCircuitTarget::TruthyExit {
        ShortCircuitTarget::FalsyExit
    } else {
        ShortCircuitTarget::TruthyExit
    }
}

pub open spec fn exit_block(e: ShortCircuitExit, side: ShortCircuitTarget) -> BlockRef {
    match e {
        ShortCircuitExit::BranchExit { truthy, falsy } => if side == ShortCircuitTarget::TruthyExit {
            truthy
        } else {
            falsy
        },
        ShortCircuitExit::ValueMerge(b) => b,
    }
}

/// The side of an exit to a block; the true side comes first.
pub open spec fn side_to(e: ShortCircuitExit, b: BlockRef) -> Option<ShortCircuitTarget> {
    match e {
        ShortCircuitExit::BranchExit { truthy, falsy } => if truthy == b {
            Some(ShortCircuitTarget::TruthyExit)
        } else if falsy == b {
            Some(ShortCircuitTarget::FalsyExit)
        } else {
            None
        },
        ShortCircuitExit::ValueMerge(_) => None,
    }
}

/// The two conditions as one: where `root` leads to the header of `next`, it goes on with
/// `next`, whose exits are then those of the whole.
pub open spec fn joined(root: ConditionModel, next: ConditionModel) -> Option<ConditionModel> {
    match (side_to(root.s.exit, next.s.header), next.s.exit) {
        (Some(on), ShortCircuitExit::BranchExit { .. }) => match side_to(next.s.exit, exit_block(root.s.exit, opposite(on))) {
            Some(last) => {
                let by = root.s.nodes.len() as usize;
                let entry = ShortCircuitTarget::Node(ShortCircuitNodeRef(by.wrapping_add(next.s.entry.0)));
                let off = opposite(on);
                Some(
                    ConditionModel {
                        s: ShortModel {
                            nodes: Seq::new(
                                root.s.nodes.len(),
                                |i: int|
                                    ShortCircuitNode {
                                        truthy: led_on(root.s.nodes[i].truthy, on, entry, off, last),
                                        falsy: led_on(root.s.nodes[i].falsy, on, entry, off, last),
                                        ..root.s.nodes[i]
                                    },
                            ) + Seq::new(
                                next.s.nodes.len(),
                                |i: int|
                                    ShortCircuitNode {
                                        id: ShortCircuitNodeRef(by.wrapping_add(next.s.nodes[i].id.0)),
                                        truthy: raised(next.s.nodes[i].truthy, by),
                                        falsy: raised(next.s.nodes[i].falsy, by),
                                        ..next.s.nodes[i]
                                    },
                            ),
                            blocks: root.s.blocks.union(next.s.blocks),
                            exit: next.s.exit,
                            ..root.s
                        },
                        arcs: Seq::new(
                            root.arcs.len(),
                            |i: int| ArcModel { target: led_on(root.arcs[i].target, on, entry, off, last), ..root.arcs[i] },
                        ) + Seq::new(
                            next.arcs.len(),
                            |i: int|
                                ArcModel {
                                    source: ShortCircuitNodeRef(by.wrapping_add(next.arcs[i].source.0)),
                                    target: raised(next.arcs[i].target, by),
                                    ..next.arcs[i]
                                },
                        ),
                    },
                )
            },
            None => None,
        },
        _ => None,
    }
}

fn find_side_to(e: ShortCircuitExit, b: BlockRef) -> (r: Option<ShortCircuitTarget>)
    ensures
        r == side_to(e, b),
        r is Some ==> r->0 == ShortCircuitTarget::TruthyExit || r->0 == ShortCircuitTarget::FalsyExit,
{
    match e {
        ShortCircuitExit::BranchExit { truthy, falsy } => if truthy == b {
            Some(ShortCircuitTarget::TruthyExit)
        } else if falsy == b {
            Some(ShortCircuitTarget::FalsyExit)
        } else {
            None
        },
        ShortCircuitExit::ValueMerge(_) => None,
    }
}

pub fn offset_condition_target(target: ShortCircuitTarget, offset: usize) -> (r: ShortCircuitTarget)
    ensures
        r == raised(target, offset),
{
    match target {
        ShortCircuitTarget::Node(n) => ShortCircuitTarget::Node(ShortCircuitNodeRef(offset.wrapping_add(n.0))),
        other => other,
    }
}

fn lead_on(
    t: ShortCircuitTarget,
    on: ShortCircuitTarget,
    entry: ShortCircuitTarget,
    off: ShortCircuitTarget,
    last: ShortCircuitTarget,
) -> (r: ShortCircuitTarget)
    ensures
        r == led_on(t, on, entry, off, last),
{
    if t == on {
        entry
    } else if t == off {
        last
    } else {
        t
    }
}

fn copy_arc(a: &ConditionArcEvidence) -> (r: ConditionArcEvidence)
    ensures
        r@ == a@,
{
    ConditionArcEvidence {
        source: a.source,
        truthy: a.truthy,
        edges: copy_list(&a.edges),
        connector_blocks: copy_list(&a.connector_blocks),
        target: a.target,
    }
}

pub fn copy_arcs(list: &Vec<ConditionArcEvidence>) -> (r: Vec<ConditionArcEvidence>)
    ensures
        arc_models(r@) == arc_models(list@),
{
    let n = list.len();
    let mut r: Vec<ConditionArcEvidence> = Vec::new();
    let mut i: usize = 0;
    while i < n
        invariant
            n == list@.len(),
            i <= n,
            r@.len() == i,
            forall|k: int| 0 <= k < i ==> (#[trigger] r@[k])@ == list@[k]@,
        decreases n - i,
    {
        r.push(copy_arc(&list[i]));
        i = i + 1;
    }
    assert(arc_models(r@) =~= arc_models(list@));
    r
}

fn copy_condition(c: &ConditionPlanInput) -> (r: ConditionPlanInput)
    ensures
        r@ == c@,
{
    ConditionPlanInput { candidate: copy_short(&c.candidate), arcs: copy_arcs(&c.arcs) }
}

/// A condition is known by what it holds.
proof fn known_by_model(cfg: &Cfg, a: &ConditionPlanInput, b: &ConditionPlanInput)
    requires
        input_known(cfg, b),
        a@ == b@,
    ensures
        input_known(cfg, a),
{
    assert(a.candidate@ == b.candidate@);
    assert(a.candidate.header == a@.s.header && a.candidate.nodes@ == a@.s.nodes && a.candidate.exit == a@.s.exit);
    assert(b.candidate.header == b@.s.header && b.candidate.nodes@ == b@.s.nodes && b.candidate.exit == b@.s.exit);
    assert forall|i: int| 0 <= i < a.arcs@.len() implies arc_known(cfg, (#[trigger] a.arcs@[i])@) by {
        assert(a@.arcs.len() == a.arcs@.len() && b@.arcs.len() == b.arcs@.len());
        assert(a@.arcs[i] == a.arcs@[i]@);
        assert(b@.arcs[i] == b.arcs@[i]@);
        assert(arc_known(cfg, b.arcs@[i]@));
    }
}

fn join_nodes(
    root: &Vec<ShortCircuitNode>,
    next: &Vec<ShortCircuitNode>,
    on: ShortCircuitTarget,
    entry: ShortCircuitTarget,
    off: ShortCircuitTarget,
    last: ShortCircuitTarget,
) -> (r: Vec<ShortCircuitNode>)
    ensures
        r@ == Seq::new(
            root@.len(),
            |i: int|
                ShortCircuitNode {
                    truthy: led_on(root@[i].truthy, on, entry, off, last),
                    falsy: led_on(root@[i].falsy, on, entry, off, last),
                    ..root@[i]
                },
        ) + Seq::new(
            next@.len(),
            |i: int|
                ShortCircuitNode {
                    id: ShortCircuitNodeRef((root@.len() as usize).wrapping_add(next@[i].id.0)),
                    truthy: raised(next@[i].truthy, root@.len() as usize),
                    falsy: raised(next@[i].falsy, root@.len() as usize),
                    ..next@[i]
                },
        ),
{
    let n = root.len();
    let m = next.len();
    let ghost first = Seq::new(
        root@.len(),
        |i: int|
            ShortCircuitNode {
                truthy: led_on(root@[i].truthy, on, entry, off, last),
                falsy: led_on(root@[i].falsy, on, entry, off, last),
                ..root@[i]
            },
    );
    let ghost second = Seq::new(
        next@.len(),
        |i: int|
            ShortCircuitNode {
                id: ShortCircuitNodeRef((root@.len() as usize).wrapping_add(next@[i].id.0)),
                truthy: raised(next@[i].truthy, root@.len() as usize),
                falsy: raised(next@[i].falsy, root@.len() as usize),
                ..next@[i]
            },
    );
    let mut r: Vec<ShortCircuitNode> = Vec::new();
    let mut i: usize = 0;
    while i < n
        invariant
            n == root@.len(),
            i <= n,
            first.len() == n,
            forall|k: int|
                0 <= k < n ==> #[trigger] first[k] == (ShortCircuitNode {
                    truthy: led_on(root@[k].truthy, on, entry, off, last),
                    falsy: led_on(root@[k].falsy, on, entry, off, last),
                    ..root@[k]
                }),
            r@ =~= first.subrange(0, i as int),
        decreases n - i,
    {
        let node = root[i];
        r.push(
            ShortCircuitNode {
                id: node.id,
                header: node.header,
                truthy: lead_on(node.truthy, on, entry, off, last),
                falsy: lead_on(node.falsy, on, entry, off, last),
            },
        );
        assert(r@[i as int] == first[i as int]);
        i = i + 1;
    }
    assert(r@ =~= first);
    let mut j: usize = 0;
    while j < m
        invariant
            n == root@.len(),
            m == next@.len(),
            j <= m,
            second.len() == m,
            forall|k: int|
                0 <= k < m ==> #[trigger] second[k] == (ShortCircuitNode {
                    id: ShortCircuitNodeRef((root@.len() as usize).wrapping_add(next@[k].id.0)),
                    truthy: raised(next@[k].truthy, root@.len() as usize),
                    falsy: raised(next@[k].falsy, root@.len() as usize),
                    ..next@[k]
                }),
            r@ =~= first + second.subrange(0, j as int),
        decreases m - j,
    {
        let node = next[j];
        let ghost before = r@;
        r.push(
            ShortCircuitNode {
                id: ShortCircuitNodeRef(n.wrapping_add(node.id.0)),
                header: node.header,
                truthy: offset_condition_target(node.truthy, n),
                falsy: offset_condition_target(node.falsy, n),
            },
        );
        proof {
            assert(r@[before.len() as int] == second[j as int]);
            assert(second.subrange(0, j as int + 1) =~= second.subrange(0, j as int).push(second[j as int]));
        }
        j = j + 1;
    }
    assert(second.subrange(0, m as int) =~= second);
    r
}

proof fn same_way_known(cfg: &Cfg, a: ArcModel, b: ArcModel)
    requires
        arc_known(cfg, a),
        a.edges == b.edges,
        is_exit_side(b.target) ==> is_exit_side(a.target),
    ensures
        arc_known(cfg, b),
{
}

/// Makes one condition of two; where they do not fit, nothing changes.
pub fn compose_condition_guard(cfg: &Cfg, root: &mut ConditionPlanInput, downstream: &ConditionPlanInput) -> (r: bool)
    requires
        input_known(cfg, old(root)),
        input_known(cfg, downstream),
    ensures
        match joined(old(root)@, downstream@) {
            Some(m) => r && final(root)@ == m,
            None => !r && final(root)@ == old(root)@,
        },
        input_known(cfg, final(root)),
{
    let on = match find_side_to(root.candidate.exit, downstream.candidate.header) {
        Some(on) => on,
        None => {
            return false;
        },
    };
    let other_block = match root.candidate.exit {
        ShortCircuitExit::BranchExit { truthy, falsy } => if on == ShortCircuitTarget::TruthyExit {
            falsy
        } else {
            truthy
        },
        ShortCircuitExit::ValueMerge(b) => b,
    };
    let off = if on == ShortCircuitTarget::TruthyExit {
        ShortCircuitTarget::FalsyExit
    } else {
        ShortCircuitTarget::TruthyExit
    };
    let last = match find_side_to(downstream.candidate.exit, other_block) {
        Some(last) => last,
        None => {
            return false;
        },
    };
    let offset = root.candidate.nodes.len();
    let entry = ShortCircuitTarget::Node(ShortCircuitNodeRef(offset.wrapping_add(downstream.candidate.entry.0)));
    let ghost was = root@;
    let ghost model = joined(was, downstream@)->0;
    let nodes = join_nodes(&root.candidate.nodes, &downstream.candidate.nodes, on, entry, off, last);
    let n = root.arcs.len();
    let m = downstream.arcs.len();
    let mut arcs: Vec<ConditionArcEvidence> = Vec::new();
    let mut i: usize = 0;
    while i < n
        invariant
            n == root.arcs@.len(),
            input_known(cfg, root),
            root@ == was,
            is_exit_side(off),
            entry is Node,
            i <= n,
            arcs@.len() == i,
            forall|k: int|
                0 <= k < i ==> (#[trigger] arcs@[k])@ == (ArcModel {
                    target: led_on(was.arcs[k].target, on, entry, off, last),
                    ..was.arcs[k]
                }),
            arcs_known(cfg, arcs@),
        decreases n - i,
    {
        assert(was.arcs[i as int] == root.arcs@[i as int]@);
        assert(arc_known(cfg, root.arcs@[i as int]@));
        let mut arc = copy_arc(&root.arcs[i]);
        arc.target = lead_on(arc.target, on, entry, off, last);
        proof {
            same_way_known(cfg, root.arcs@[i as int]@, arc@);
        }
        arcs.push(arc);
        i = i + 1;
    }
    let mut j: usize = 0;
    while j < m
        invariant
            m == downstream.arcs@.len(),
            input_known(cfg, downstream),
            n == was.arcs.len(),
            offset == was.s.nodes.len(),
            j <= m,
            arcs@.len() == n + j,
            forall|k: int|
                0 <= k < n ==> (#[trigger] arcs@[k])@ == (ArcModel {
                    target: led_on(was.arcs[k].target, on, entry, off, last),
                    ..was.arcs[k]
                }),
            forall|k: int|
                n <= k < n + j ==> (#[trigger] arcs@[k])@ == (ArcModel {
                    source: ShortCircuitNodeRef(offset.wrapping_add(downstream@.arcs[k - n].source.0)),
                    target: raised(downstream@.arcs[k - n].target, offset),
                    ..downstream@.arcs[k - n]
                }),
            arcs_known(cfg, arcs@),
        decreases m - j,
    {
        assert(downstream@.arcs[j as int] == downstream.arcs@[j as int]@);
        assert(arc_known(cfg, downstream.arcs@[j as int]@));
        let mut arc = copy_arc(&downstream.arcs[j]);
        arc.source = ShortCircuitNodeRef(offset.wrapping_add(arc.source.0));
        arc.target = offset_condition_target(arc.target, offset);
        proof {
            same_way_known(cfg, downstream.arcs@[j as int]@, arc@);
        }
        arcs.push(arc);
        j = j + 1;
    }
    let ghost known_nodes = root.candidate.nodes@;
    root.candidate.nodes = nodes;
    root.candidate.blocks.extend(&downstream.candidate.blocks);
    root.candidate.exit = downstream.candidate.exit;
    root.arcs = arcs;
    proof {
        assert(arc_models(root.arcs@) =~= model.arcs);
        assert(root.candidate@.nodes =~= model.s.nodes);
        assert(root@ == model);
        assert forall|k: int| 0 <= k < root.candidate.nodes@.len() implies cfg.has_block((#[trigger] root.candidate.nodes@[k]).header) by {
            if k < known_nodes.len() {
                assert(cfg.has_block(known_nodes[k].header));
            } else {
                assert(cfg.has_block(downstream.candidate.nodes@[k - known_nodes.len()].header));
            }
        }
    }
    true
}

/// What the branch at the end of a block reads.
pub open spec fn condition_reads(cfg: &Cfg, dataflow: &DataflowFacts, b: BlockRef) -> Option<Seq<(Reg, SsaValue)>> {
    if cfg.branch_edges_of(b) is Some && cfg.range(b).len > 0 && cfg.range(b).end_at() <= dataflow.use_values@.len() {
        Some(dataflow.use_values@[cfg.range(b).end_at() - 1].fixed@)
    } else {
        None
    }
}

/// Way `k` out of block `b` leaves the loop, at once or one block later.
pub open spec fn way_leaves(cfg: &Cfg, c: LoopModel, b: BlockRef, k: int) -> bool {
    let to = cfg.edge(cfg.out_edges(b)[k]).to;
    c.exits.contains(to) || match cfg.unique_successor(to) {
        Some(t) => c.exits.contains(t),
        None => false,
    }
}

/// Both blocks lie in the loop's body, and the second can leave the loop.
pub open spec fn may_break(cfg: &Cfg, c: LoopModel, condition: BlockRef, repeated: BlockRef) -> bool {
    c.scope.contains(condition) && c.scope.contains(repeated) && exists|k: int|
        0 <= k < cfg.out_edges(repeated).len() && #[trigger] way_leaves(cfg, c, repeated, k)
}

/// The second block asks the same again, and leaves a loop around both on the answer.
pub open spec fn asks_again(
    cfg: &Cfg,
    dataflow: &DataflowFacts,
    loops: Seq<LoopModel>,
    condition: BlockRef,
    repeated: BlockRef,
) -> bool {
    condition_reads(cfg, dataflow, condition) is Some && condition_reads(cfg, dataflow, condition) == condition_reads(
        cfg,
        dataflow,
        repeated,
    ) && exists|i: int| 0 <= i < loops.len() && may_break(cfg, #[trigger] loops[i], condition, repeated)
}

/// What the first arc to one side does at its end.
pub open spec fn exit_action(c: ConditionModel, actions: Seq<ActionModel>, side: ShortCircuitTarget) -> Option<ActionModel> {
    match first_where(c.arcs.len(), to_side(c.arcs, side)) {
        Some(i) => Some(last_action(actions, c.arcs[i])),
        None => None,
    }
}

pub open spec fn actions_agree(a: Option<ActionModel>, b: Option<ActionModel>) -> bool {
    match (a, b) {
        (Some(x), Some(y)) => x.continues == y.continues && x.iteration == y.iteration && x.phi_inputs == y.phi_inputs,
        _ => false,
    }
}

pub open spec fn has_header(entries: Seq<ConditionModel>, h: BlockRef) -> spec_fn(int) -> bool {
    |i: int| entries[i].s.header == h
}

/// What the joining of conditions reads.
pub struct GuardContext<'a> {
    pub cfg: &'a Cfg,
    pub dataflow: &'a DataflowFacts,
    pub loops: &'a Vec<LoopCandidate>,
}

impl<'a> GuardContext<'a> {
    pub open spec fn wf(&self) -> bool {
        &&& analysable(self.cfg)
        &&& loops_wf(self.cfg, self.loops@)
    }

    /// The condition that follows on the exit at `on`, when it can be joined: a single test
    /// whose one exit is also the other exit here, and which that exit repeats.
    pub open spec fn follower(
        &self,
        actions: Seq<ActionModel>,
        entries: Seq<ConditionModel>,
        root: ConditionModel,
        on: ShortCircuitTarget,
    ) -> Option<int> {
        let to = exit_block(root.s.exit, on);
        let other = exit_block(root.s.exit, opposite(on));
        match first_where(entries.len(), has_header(entries, to)) {
            Some(i) => {
                let next = entries[i];
                match side_to(next.s.exit, other) {
                    Some(side) => if next.s.nodes.len() == 1 && next.s.blocks.disjoint(root.s.blocks) && asks_again(
                        self.cfg,
                        self.dataflow,
                        loop_models(self.loops@),
                        next.s.header,
                        other,
                    ) && actions_agree(
                        exit_action(root, actions, opposite(on)),
                        exit_action(next, actions, side),
                    ) {
                        Some(i)
                    } else {
                        None
                    },
                    None => None,
                }
            },
            None => None,
        }
    }

    /// The only condition that follows on one of the exits.
    pub open spec fn adjacent(
        &self,
        actions: Seq<ActionModel>,
        entries: Seq<ConditionModel>,
        root: ConditionModel,
    ) -> Option<int> {
        if root.s.exit is BranchExit {
            match (
                self.follower(actions, entries, root, ShortCircuitTarget::TruthyExit),
                self.follower(actions, entries, root, ShortCircuitTarget::FalsyExit),
            ) {
                (Some(i), None) => Some(i),
                (None, Some(i)) => Some(i),
                _ => None,
            }
        } else {
            None
        }
    }

    /// Another condition takes in the block.
    pub open spec fn taken_in(entries: Seq<ConditionModel>, h: BlockRef) -> bool {
        exists|i: int| 0 <= i < entries.len() && (#[trigger] entries[i]).s.header != h && entries[i].s.blocks.contains(h)
    }

    /// The condition that entry `i` is joined with.
    pub open spec fn partner(&self, actions: Seq<ActionModel>, entries: Seq<ConditionModel>, i: int) -> Option<int> {
        if Self::taken_in(entries, entries[i].s.header) {
            None
        } else {
            self.adjacent(actions, entries, entries[i])
        }
    }

    /// The conditions after the first `n` have been joined with their partners, in order.
    pub open spec fn joined_upto(
        &self,
        actions: Seq<ActionModel>,
        entries: Seq<ConditionModel>,
        n: nat,
    ) -> Seq<ConditionModel>
        decreases n,
    {
        if n == 0 {
            entries
        } else {
            let now = self.joined_upto(actions, entries, (n - 1) as nat);
            match self.partner(actions, entries, n - 1) {
                Some(c) => match joined(now[n - 1], now[c]) {
                    Some(m) => now.update(n - 1, m),
                    None => now,
                },
                None => now,
            }
        }
    }

    /// A condition that is joined with another still starts where it did.
    pub proof fn joining_keeps_headers(&self, actions: Seq<ActionModel>, entries: Seq<ConditionModel>, n: nat)
        requires
            n <= entries.len(),
        ensures
            self.joined_upto(actions, entries, n).len() == entries.len(),
            forall|i: int|
                0 <= i < entries.len() ==> (#[trigger] self.joined_upto(actions, entries, n)[i]).s.header == entries[i].s.header,
        decreases n,
    {
        if n > 0 {
            self.joining_keeps_headers(actions, entries, (n - 1) as nat);
        }
    }

    pub fn block_condition_uses(&self, block: BlockRef) -> (r: Option<&'a SsaRegMap>)
        requires
            self.wf(),
            self.cfg.has_block(block),
        ensures
            match condition_reads(self.cfg, self.dataflow, block) {
                Some(s) => r is Some && (r->0)@ == s,
                None => r is None,
            },
    {
        proof {
            range_fits(self.cfg, block);
        }
        if self.cfg.branch_edges(block).is_none() {
            return None;
        }
        let range = self.cfg.blocks[block.0].instrs;
        if range.len == 0 || range.end() > self.dataflow.use_values.len() {
            return None;
        }
        Some(&self.dataflow.use_values[range.end() - 1].fixed)
    }

    fn check_may_break(&self, c: &LoopCandidate, condition: BlockRef, repeated: BlockRef) -> (r: bool)
        requires
            self.wf(),
            self.cfg.has_block(repeated),
        ensures
            r == may_break(self.cfg, c@, condition, repeated),
    {
        if !c.body_scope_blocks.contains(condition) || !c.body_scope_blocks.contains(repeated) {
            return false;
        }
        let n = self.cfg.succs[repeated.0].len();
        let mut k: usize = 0;
        while k < n
            invariant
                self.wf(),
                self.cfg.has_block(repeated),
                c@.scope.contains(condition),
                c@.scope.contains(repeated),
                n == self.cfg.out_edges(repeated).len(),
                k <= n,
                forall|q: int| 0 <= q < k ==> !#[trigger] way_leaves(self.cfg, c@, repeated, q),
            decreases n - k,
        {
            let e = self.cfg.succs[repeated.0][k];
            assert(e == self.cfg.out_edges(repeated)[k as int]);
            let to = self.cfg.edges[e.0].to;
            let out = c.exits.contains(to) || match self.cfg.unique_reachable_successor(to) {
                Some(t) => c.exits.contains(t),
                None => false,
            };
            if out {
                assert(way_leaves(self.cfg, c@, repeated, k as int));
                return true;
            }
            k = k + 1;
        }
        false
    }

    pub fn repeated_loop_break_guard(&self, condition: BlockRef, repeated: BlockRef) -> (r: bool)
        requires
            self.wf(),
            self.cfg.has_block(condition),
            self.cfg.has_block(repeated),
        ensures
            r == asks_again(self.cfg, self.dataflow, loop_models(self.loops@), condition, repeated),
    {
        match (self.block_condition_uses(condition), self.block_condition_uses(repeated)) {
            (Some(a), Some(b)) => {
                if !same_map(a, b) {
                    return false;
                }
            },
            _ => {
                return false;
            },
        }
        let n = self.loops.len();
        let ghost models = loop_models(self.loops@);
        let mut i: usize = 0;
        while i < n
            invariant
                self.wf(),
                self.cfg.has_block(repeated),
                condition_reads(self.cfg, self.dataflow, condition) is Some,
                condition_reads(self.cfg, self.dataflow, condition) == condition_reads(self.cfg, self.dataflow, repeated),
                n == self.loops@.len(),
                models == loop_models(self.loops@),
                i <= n,
                forall|k: int| 0 <= k < i ==> !may_break(self.cfg, #[trigger] models[k], condition, repeated),
            decreases n - i,
        {
            assert(models[i as int] == self.loops@[i as int]@);
            if self.check_may_break(&self.loops[i], condition, repeated) {
                return true;
            }
            i = i + 1;
        }
        false
    }

    /// What the first arc to one side does at its end, by edge.
    fn find_exit_edge(
        &self,
        actions: &Vec<PreliminaryEdgeAction>,
        c: &ConditionPlanInput,
        side: ShortCircuitTarget,
    ) -> (r: Option<EdgeRef>)
        requires
            self.wf(),
            actions@.len() == self.cfg.edges@.len(),
            arcs_known(self.cfg, c.arcs@),
            is_exit_side(side),
        ensures
            match exit_action(c@, action_models(actions@), side) {
                Some(a) => r is Some && self.cfg.has_edge(r->0) && actions@[(r->0).0 as int]@ == a,
                None => r is None,
            },
    {
        let n = c.arcs.len();
        let ghost p = to_side(c@.arcs, side);
        let mut i: usize = 0;
        while i < n
            invariant
                self.wf(),
                actions@.len() == self.cfg.edges@.len(),
                arcs_known(self.cfg, c.arcs@),
                is_exit_side(side),
                n == c.arcs@.len(),
                p == to_side(c@.arcs, side),
                i <= n,
                first_where(i as nat, p) is None,
            decreases n - i,
        {
            assert(c@.arcs[i as int] == c.arcs@[i as int]@);
            assert(p(i as int) == (c.arcs@[i as int].target == side));
            if c.arcs[i].target == side {
                assert(arc_known(self.cfg, c.arcs@[i as int]@));
                let m = c.arcs[i].edges.len();
                let e = c.arcs[i].edges[m - 1];
                proof {
                    first_where_stable((i + 1) as nat, n as nat, p);
                }
                return Some(e);
            }
            i = i + 1;
        }
        None
    }

    fn check_actions_agree(&self, actions: &Vec<PreliminaryEdgeAction>, a: Option<EdgeRef>, b: Option<EdgeRef>) -> (r: bool)
        requires
            self.wf(),
            actions@.len() == self.cfg.edges@.len(),
            a is Some ==> self.cfg.has_edge(a->0),
            b is Some ==> self.cfg.has_edge(b->0),
        ensures
            r == (a is Some && b is Some && actions_agree(
                Some(actions@[(a->0).0 as int]@),
                Some(actions@[(b->0).0 as int]@),
            )),
    {
        match (a, b) {
            (Some(x), Some(y)) => {
                let x = &actions[x.0];
                let y = &actions[y.0];
                let roles = match (x.iteration, y.iteration) {
                    (Some(p), Some(q)) => p == q,
                    (None, None) => true,
                    _ => false,
                };
                x.has_continue_evidence == y.has_continue_evidence && roles && same_inputs(&x.phi_inputs, &y.phi_inputs)
            },
            _ => false,
        }
    }

    fn find_follower(
        &self,
        actions: &Vec<PreliminaryEdgeAction>,
        entries: &Vec<ConditionPlanInput>,
        root: usize,
        on: ShortCircuitTarget,
    ) -> (r: Option<usize>)
        requires
            self.wf(),
            actions@.len() == self.cfg.edges@.len(),
            root < entries@.len(),
            entries@[root as int].candidate.exit is BranchExit,
            forall|i: int| 0 <= i < entries@.len() ==> input_known(self.cfg, #[trigger] &entries@[i]),
            on == ShortCircuitTarget::TruthyExit || on == ShortCircuitTarget::FalsyExit,
        ensures
            match self.follower(action_models(actions@), condition_models(entries@), entries@[root as int]@, on) {
                Some(i) => r is Some && (r->0) as int == i && r->0 < entries@.len(),
                None => r is None,
            },
    {
        let ghost models = condition_models(entries@);
        let ghost root_model = entries@[root as int]@;
        assert(input_known(self.cfg, &entries@[root as int]));
        let exit = entries[root].candidate.exit;
        let (to, other) = match exit {
            ShortCircuitExit::BranchExit { truthy, falsy } => if on == ShortCircuitTarget::TruthyExit {
                (truthy, falsy)
            } else {
                (falsy, truthy)
            },
            ShortCircuitExit::ValueMerge(b) => (b, b),
        };
        let off = if on == ShortCircuitTarget::TruthyExit {
            ShortCircuitTarget::FalsyExit
        } else {
            ShortCircuitTarget::TruthyExit
        };
        assert(to == exit_block(root_model.s.exit, on));
        assert(other == exit_block(root_model.s.exit, opposite(on)));
        assert(off == opposite(on));
        let at = match find_entry(entries, to) {
            Some(i) => i,
            None => {
                return None;
            },
        };
        assert(input_known(self.cfg, &entries@[at as int]));
        let next = &entries[at];
        assert(models[at as int] == next@);
        let side = match find_side_to(next.candidate.exit, other) {
            Some(side) => side,
            None => {
                return None;
            },
        };
        if next.candidate.nodes.len() != 1 || !next.candidate.blocks.is_disjoint(&entries[root].candidate.blocks) {
            return None;
        }
        let mine = self.find_exit_edge(actions, &entries[root], off);
        let theirs = self.find_exit_edge(actions, next, side);
        if self.repeated_loop_break_guard(next.candidate.header, other) && self.check_actions_agree(actions, mine, theirs) {
            Some(at)
        } else {
            None
        }
    }

    pub fn adjacent_condition_guard(
        &self,
        actions: &Vec<PreliminaryEdgeAction>,
        entries: &Vec<ConditionPlanInput>,
        root: usize,
    ) -> (r: Option<usize>)
        requires
            self.wf(),
            actions@.len() == self.cfg.edges@.len(),
            root < entries@.len(),
            forall|i: int| 0 <= i < entries@.len() ==> input_known(self.cfg, #[trigger] &entries@[i]),
        ensures
            match self.adjacent(action_models(actions@), condition_models(entries@), entries@[root as int]@) {
                Some(i) => r is Some && (r->0) as int == i && r->0 < entries@.len(),
                None => r is None,
            },
    {
        match entries[root].candidate.exit {
            ShortCircuitExit::ValueMerge(_) => {
                return None;
            },
            ShortCircuitExit::BranchExit { .. } => {},
        }
        let a = self.find_follower(actions, entries, root, ShortCircuitTarget::TruthyExit);
        let b = self.find_follower(actions, entries, root, ShortCircuitTarget::FalsyExit);
        match (a, b) {
            (Some(i), None) => Some(i),
            (None, Some(i)) => Some(i),
            _ => None,
        }
    }

    /// Joins every condition with the one that follows it.
    pub fn compose_adjacent_condition_guards(
        &self,
        actions: &Vec<PreliminaryEdgeAction>,
        entries: Vec<ConditionPlanInput>,
    ) -> (r: Vec<ConditionPlanInput>)
        requires
            self.wf(),
            actions@.len() == self.cfg.edges@.len(),
            forall|i: int| 0 <= i < entries@.len() ==> input_known(self.cfg, #[trigger] &entries@[i]),
        ensures
            condition_models(r@) == self.joined_upto(action_models(actions@), condition_models(entries@), entries@.len()),
            r@.len() == entries@.len(),
            forall|i: int| 0 <= i < r@.len() ==> input_known(self.cfg, #[trigger] &r@[i]),
    {
        let n = entries.len();
        let ghost models = condition_models(entries@);
        let mut partners: Vec<Option<usize>> = Vec::new();
        let mut i: usize = 0;
        while i < n
            invariant
                self.wf(),
                actions@.len() == self.cfg.edges@.len(),
                forall|k: int| 0 <= k < entries@.len() ==> input_known(self.cfg, #[trigger] &entries@[k]),
                n == entries@.len(),
                models == condition_models(entries@),
                i <= n,
                partners@.len() == i,
                forall|k: int| 0 <= k < i ==> same_index(#[trigger] partners@[k], self.partner(action_models(actions@), models, k), n as int),
            decreases n - i,
        {
            assert(models[i as int] == entries@[i as int]@);
            let p = if check_taken_in(&entries, entries[i].candidate.header) {
                None
            } else {
                self.adjacent_condition_guard(actions, &entries, i)
            };
            partners.push(p);
            i = i + 1;
        }
        let mut r = entries;
        let mut k: usize = 0;
        while k < n
            invariant
                self.wf(),
                actions@.len() == self.cfg.edges@.len(),
                n == r@.len(),
                n == models.len(),
                k <= n,
                partners@.len() == n,
                forall|q: int| 0 <= q < n ==> same_index(#[trigger] partners@[q], self.partner(action_models(actions@), models, q), n as int),
                forall|q: int| 0 <= q < r@.len() ==> input_known(self.cfg, #[trigger] &r@[q]),
                condition_models(r@) == self.joined_upto(action_models(actions@), models, k as nat),
            decreases n - k,
        {
            assert(same_index(partners@[k as int], self.partner(action_models(actions@), models, k as int), n as int));
            if let Some(c) = partners[k] {
                let ghost before = r@;
                let next = copy_condition(&r[c]);
                proof {
                    assert(input_known(self.cfg, &r@[c as int]));
                    assert(input_known(self.cfg, &r@[k as int]));
                    known_by_model(self.cfg, &next, &r@[c as int]);
                    assert(condition_models(r@)[c as int] == r@[c as int]@);
                    assert(condition_models(r@)[k as int] == r@[k as int]@);
                }
                let _ = compose_condition_guard(self.cfg, &mut r[k], &next);
                proof {
                    let now = self.joined_upto(action_models(actions@), models, k as nat);
                    match joined(now[k as int], now[c as int]) {
                        Some(m) => {
                            assert(condition_models(r@) =~= now.update(k as int, m));
                        },
                        None => {
                            assert(condition_models(r@) =~= now);
                        },
                    }
                    assert forall|q: int| 0 <= q < r@.len() implies input_known(self.cfg, #[trigger] &r@[q]) by {
                        if q != k {
                            assert(r@[q] == before[q]);
                            assert(input_known(self.cfg, &before[q]));
                        }
                    }
                }
            }
            k = k + 1;
        }
        r
    }
}

spec fn same_index(a: Option<usize>, b: Option<int>, n: int) -> bool {
    match (a, b) {
        (Some(x), Some(y)) => x as int == y && 0 <= y < n,
        (None, None) => true,
        _ => false,
    }
}

fn same_map(a: &SsaRegMap, b: &SsaRegMap) -> (r: bool)
    ensures
        r == (a@ == b@),
{
    let n = a.len();
    if b.len() != n {
        return false;
    }
    let mut i: usize = 0;
    while i < n
        invariant
            n == a@.len(),
            n == b@.len(),
            i <= n,
            forall|k: int| 0 <= k < i ==> a@[k] == b@[k],
        decreases n - i,
    {
        let (r, v) = a.entry(i);
        let (q, w) = b.entry(i);
        if r != q || v != w {
            assert(a@[i as int] != b@[i as int]);
            return false;
        }
        assert(a@[i as int] == b@[i as int]);
        i = i + 1;
    }
    assert(a@ =~= b@);
    true
}

fn find_entry(entries: &Vec<ConditionPlanInput>, h: BlockRef) -> (r: Option<usize>)
    ensures
        match first_where(entries@.len(), has_header(condition_models(entries@), h)) {
            Some(i) => r is Some && (r->0) as int == i && r->0 < entries@.len(),
            None => r is None,
        },
{
    let n = entries.len();
    let ghost models = condition_models(entries@);
    let ghost p = has_header(models, h);
    let mut i: usize = 0;
    while i < n
        invariant
            n == entries@.len(),
            models == condition_models(entries@),
            p == has_header(models, h),
            i <= n,
            first_where(i as nat, p) is None,
        decreases n - i,
    {
        assert(models[i as int] == entries@[i as int]@);
        assert(p(i as int) == (entries@[i as int].candidate.header == h));
        if entries[i].candidate.header == h {
            proof {
                first_where_stable((i + 1) as nat, n as nat, p);
            }
            return Some(i);
        }
        i = i + 1;
    }
    None
}

fn check_taken_in(entries: &Vec<ConditionPlanInput>, h: BlockRef) -> (r: bool)
    ensures
        r == GuardContext::taken_in(condition_models(entries@), h),
{
    let n = entries.len();
    let ghost models = condition_models(entries@);
    let mut i: usize = 0;
    while i < n
        invariant
            n == entries@.len(),
            models == condition_models(entries@),
            i <= n,
            forall|k: int| 0 <= k < i ==> (#[trigger] models[k]).s.header == h || !models[k].s.blocks.contains(h),
        decreases n - i,
    {
        assert(models[i as int] == entries@[i as int]@);
        if entries[i].candidate.header != h && entries[i].candidate.blocks.contains(h) {
            assert(models[i as int].s.blocks.contains(h));
            return true;
        }
        i = i + 1;
    }
    false
}

} // verus!
