//! The choice among the conditions that a block can start.

use vstd::prelude::*;

use crate::branches::loops_wf;
use crate::cfg::Cfg;
use crate::condition_arcs::{
    arc_models, arcs_upto, synthesize_direct_condition_arcs, ArcModel, ConditionArcEvidence, ShortModel,
};
use crate::condition_safety::{cut_nodes, cuts, safe_part, values_known, ConditionSafetyWorkspace};
use crate::conditions::{
    action_models, condition_crosses_foreign_loop_header, condition_models,
    condition_terminal_actions_are_uniform, crosses_some_loop, exits_exist, input_known, is_uniform, normalized,
    normalized_condition_input, required_header, required_loop_condition_header, simple_condition_input,
    single_condition, ClosedControlDagEvidence, ConditionModel, ConditionPlanInput,
};
use crate::dataflow::DataflowFacts;
use crate::edge_actions::{action_of, preliminary_edge_actions, ActionModel, PreliminaryEdgeAction};
use crate::evidence::{
    BranchCandidate, GotoRequirement, LoopCandidate, ShortCircuitCandidate, ShortCircuitExit, ShortCircuitNode,
};
use crate::guards::{copy_arcs, GuardContext};
use crate::helpers::fits;
use crate::ids::{BlockRef, EdgeRef};
use crate::lir::LoweredProto;
use crate::loop_values::loop_models;
use crate::plan::ConditionPlanId;
use crate::refine::branches_wf;
use crate::repeats::short_known;
use crate::search::{first_where, first_where_least};

verus! {

/// What the choice of conditions reads.
pub struct ConditionSelectionInput<'a> {
    pub proto: &'a LoweredProto,
    pub cfg: &'a Cfg,
    pub dataflow: &'a DataflowFacts,
    pub loops: &'a Vec<LoopCandidate>,
    /// The language can continue loops.
    pub can_continue: bool,
    pub branches: &'a Vec<BranchCandidate>,
    pub candidates: &'a Vec<ShortCircuitCandidate>,
    pub closed_control_dags: &'a Vec<ClosedControlDagEvidence>,
    pub residual_transfers: &'a Vec<GotoRequirement>,
}

/// `a` has more nodes than `b`, or as many and more blocks.
pub open spec fn is_larger(a: ConditionModel, b: ConditionModel) -> bool {
    a.s.nodes.len() > b.s.nodes.len() || (a.s.nodes.len() == b.s.nodes.len() && a.s.blocks.len() > b.s.blocks.len())
}

impl<'a> ConditionSelectionInput<'a> {
    pub open spec fn wf(&self) -> bool {
        &&& fits(self.proto, self.cfg)
        &&& values_known(self.cfg, self.dataflow)
        &&& self.dataflow.defs@.len() + self.dataflow.phi_candidates@.len() <= usize::MAX
        &&& loops_wf(self.cfg, self.loops@)
        &&& branches_wf(self.cfg, self.branches@)
        &&& forall|i: int| 0 <= i < self.candidates@.len() ==> short_known(self.cfg, &(#[trigger] self.candidates@[i]))
        &&& forall|i: int|
            0 <= i < self.closed_control_dags@.len() ==> short_known(
                self.cfg,
                &(#[trigger] self.closed_control_dags@[i]).candidate,
            )
        &&& self.candidates@.len() + self.closed_control_dags@.len() <= usize::MAX
    }

    /// What the edges do.
    pub open spec fn actions(&self) -> Seq<ActionModel> {
        Seq::new(
            self.cfg.edges@.len(),
            |e: int|
                action_of(
                    self.cfg,
                    self.dataflow.phi_candidates@,
                    loop_models(self.loops@),
                    self.residual_transfers@,
                    self.can_continue,
                    EdgeRef(e as usize),
                ),
        )
    }

    /// The condition with these arcs, when it has some and ends on either side in one way.
    pub open spec fn accepted(&self, s: ShortModel, arcs: Seq<ArcModel>) -> Option<ConditionModel> {
        let c = normalized(s, arcs);
        if arcs.len() > 0 && is_uniform(c, self.actions()) {
            Some(c)
        } else {
            None
        }
    }

    /// What becomes of an expression; `given` are its arcs, as far as they are known.
    pub open spec fn prepared(&self, s: ShortModel, given: Option<Seq<ArcModel>>) -> Option<ConditionModel> {
        if s.reducible && s.exit is BranchExit && !crosses_some_loop(self.cfg, loop_models(self.loops@), s) {
            match safe_part(self.cfg, self.dataflow, s) {
                Some(t) => {
                    let arcs = if t == s && given is Some {
                        given->0
                    } else {
                        match arcs_upto(self.proto, self.cfg, t, t.nodes.len()) {
                            Some(a) => a,
                            None => Seq::empty(),
                        }
                    };
                    self.accepted(t, arcs)
                },
                None => None,
            }
        } else {
            None
        }
    }

    /// The conditions in question: the expressions, then the closed graphs.
    pub open spec fn offer(&self, i: int) -> Option<ConditionModel> {
        if i < self.candidates@.len() {
            self.prepared(self.candidates@[i]@, None)
        } else {
            let d = &self.closed_control_dags@[i - self.candidates@.len()];
            self.prepared(d.candidate@, Some(arc_models(d.arcs@)))
        }
    }

    /// The largest of the first `n` with header `h`; the first of equals.
    pub open spec fn best(&self, h: BlockRef, n: nat) -> Option<ConditionModel>
        decreases n,
    {
        if n == 0 {
            None
        } else {
            let rest = self.best(h, (n - 1) as nat);
            match self.offer(n - 1) {
                Some(c) => if c.s.header == h && (rest is None || is_larger(c, rest->0)) {
                    Some(c)
                } else {
                    rest
                },
                None => rest,
            }
        }
    }

    pub open spec fn offers(&self) -> nat {
        self.candidates@.len() + self.closed_control_dags@.len()
    }

    /// A branch or a loop is decided at `h`.
    pub open spec fn is_wanted(&self, h: BlockRef) -> bool {
        (exists|i: int| 0 <= i < self.branches@.len() && (#[trigger] self.branches@[i]).header == h) || exists|i: int|
            0 <= i < self.loops@.len() && required_header(self.cfg, #[trigger] loop_models(self.loops@)[i]) == Some(h)
    }

    /// The condition that starts at `h`: the largest, or where there is none the branch itself.
    pub open spec fn chosen(&self, h: BlockRef) -> Option<ConditionModel> {
        match self.best(h, self.offers()) {
            Some(c) => Some(c),
            None => if self.is_wanted(h) {
                single_condition(self.proto, self.cfg, h)
            } else {
                None
            },
        }
    }

    /// The conditions of the first `n` blocks.
    pub open spec fn chosen_upto(&self, n: nat) -> Seq<ConditionModel>
        decreases n,
    {
        if n == 0 {
            Seq::empty()
        } else {
            let rest = self.chosen_upto((n - 1) as nat);
            match self.chosen(BlockRef((n - 1) as usize)) {
                Some(c) => rest.push(c),
                None => rest,
            }
        }
    }

    pub open spec fn guards(&self) -> GuardContext<'a> {
        GuardContext { cfg: self.cfg, dataflow: self.dataflow, loops: self.loops }
    }

    /// The conditions by header, joined with those that follow them.
    pub open spec fn all_conditions(&self) -> Seq<ConditionModel> {
        let list = self.chosen_upto(self.cfg.blocks@.len());
        self.guards().joined_upto(self.actions(), list, list.len())
    }

    fn prepare(
        &self,
        workspace: &ConditionSafetyWorkspace,
        actions: &Vec<PreliminaryEdgeAction>,
        candidate: &ShortCircuitCandidate,
        given: Option<&Vec<ConditionArcEvidence>>,
    ) -> (r: Option<ConditionPlanInput>)
        requires
            self.wf(),
            workspace.describes(self.dataflow),
            action_models(actions@) == self.actions(),
            actions@.len() == self.cfg.edges@.len(),
            short_known(self.cfg, candidate),
        ensures
            match self.prepared(
                candidate@,
                match given {
                    Some(g) => Some(arc_models(g@)),
                    None => None,
                },
            ) {
                Some(m) => r is Some && (r->0)@ == m,
                None => r is None,
            },
            r is Some ==> input_known(self.cfg, &(r->0)) && (r->0).candidate.header == candidate.header,
    {
        if !candidate.reducible {
            return None;
        }
        match candidate.exit {
            ShortCircuitExit::ValueMerge(_) => {
                return None;
            },
            ShortCircuitExit::BranchExit { .. } => {},
        }
        if condition_crosses_foreign_loop_header(self.cfg, candidate, self.loops) {
            return None;
        }
        let safe = match workspace.safe_condition_candidate(self.cfg, self.dataflow, candidate) {
            Some(s) => s,
            None => {
                return None;
            },
        };
        let size = candidate.nodes.len();
        proof {
            self.safe_part_facts(candidate@);
            assert(safe@.header == safe.header && safe@.exit == safe.exit && safe@.nodes == safe.nodes@);
            assert(candidate@.header == candidate.header && candidate@.exit == candidate.exit && candidate@.nodes == candidate.nodes@);
            assert(short_known(self.cfg, candidate));
        }
        let whole = safe.nodes.len() == size;
        assert(whole == (safe@ == candidate@));
        let arcs = match (whole, given) {
            (true, Some(g)) => {
                copy_arcs(g)
            },
            _ => match synthesize_direct_condition_arcs(self.proto, self.cfg, &safe) {
                Some(a) => a,
                None => {
                    let none: Vec<ConditionArcEvidence> = Vec::new();
                    assert(arc_models(none@) =~= Seq::<ArcModel>::empty());
                    none
                },
            },
        };
        if arcs.len() == 0 {
            return None;
        }
        assert(arc_models(arcs@).len() > 0);
        let input = normalized_condition_input(safe, arcs);
        if condition_terminal_actions_are_uniform(self.cfg, &input, actions) {
            Some(input)
        } else {
            None
        }
    }

    /// The safe part starts at the same block; it is shorter where it is another, and its
    /// exits exist.
    proof fn safe_part_facts(&self, s: ShortModel)
        requires
            forall|i: int| 0 <= i < s.nodes.len() ==> self.cfg.has_block((#[trigger] s.nodes[i]).header),
            exits_exist(self.cfg, s.exit),
            s.nodes.len() <= usize::MAX,
        ensures
            match safe_part(self.cfg, self.dataflow, s) {
                Some(t) => t.header == s.header && (t != s ==> t.nodes.len() < s.nodes.len()) && exits_exist(self.cfg, t.exit),
                None => true,
            },
    {
        if s.nodes.len() > 0 {
            let n = (s.nodes.len() - 1) as nat;
            first_where_least(n, cuts(self.cfg, self.dataflow, s));
            if let Some(k) = first_where(n, cuts(self.cfg, self.dataflow, s)) {
                let cut = (k + 1) as usize;
                cut_length(s.nodes, cut, cut as nat);
                assert(self.cfg.has_block(s.nodes[cut as int].header));
            }
        }
    }

    /// Chooses the conditions: by header the largest that can be written as an expression,
    /// and a plain branch where there is none. Says which condition starts at each block.
    pub fn selected_conditions(&self) -> (r: (Vec<ConditionPlanInput>, Vec<Option<ConditionPlanId>>))
        requires
            self.wf(),
        ensures
            condition_models((r.0)@) == self.all_conditions(),
            forall|i: int| 0 <= i < (r.0)@.len() ==> input_known(self.cfg, #[trigger] &(r.0)@[i]),
            (r.1)@.len() == self.cfg.blocks@.len(),
            forall|h: int|
                0 <= h < self.cfg.blocks@.len() ==> #[trigger] (r.1)@[h] == (if self.chosen(BlockRef(h as usize)) is Some {
                    Some(ConditionPlanId(self.chosen_upto(h as nat).len() as usize))
                } else {
                    None
                }),
    {
        let actions = preliminary_edge_actions(
            self.cfg,
            &self.dataflow.phi_candidates,
            self.loops,
            self.residual_transfers,
            self.can_continue,
        );
        assert(action_models(actions@) =~= self.actions());
        let workspace = ConditionSafetyWorkspace::new(self.cfg, self.dataflow);
        let n = self.cfg.blocks.len();
        let mut best = self.no_conditions();
        self.choose_best(&workspace, &actions, &mut best);
        self.add_plain(&mut best);
        let mut entries: Vec<ConditionPlanInput> = Vec::new();
        let mut ids: Vec<Option<ConditionPlanId>> = Vec::new();
        let mut rest = best;
        // Taken from the back, the conditions come in descending order.
        let mut reversed: Vec<Option<ConditionPlanInput>> = Vec::new();
        while rest.len() > 0
            invariant
                n == self.cfg.blocks@.len(),
                rest@.len() + reversed@.len() == n,
                forall|h: int| 0 <= h < rest@.len() ==> self.holds_chosen(h, #[trigger] rest@[h]),
                forall|k: int| 0 <= k < reversed@.len() ==> self.holds_chosen(n - 1 - k, #[trigger] reversed@[k]),
            decreases rest@.len(),
        {
            let ghost h = rest@.len() - 1;
            assert(self.holds_chosen(h, rest@[h]));
            let c = rest.pop().unwrap();
            reversed.push(c);
        }
        assert(condition_models(entries@) =~= self.chosen_upto(0));
        while reversed.len() > 0
            invariant
                n == self.cfg.blocks@.len(),
                reversed@.len() <= n,
                forall|k: int| 0 <= k < reversed@.len() ==> self.holds_chosen(n - 1 - k, #[trigger] reversed@[k]),
                condition_models(entries@) == self.chosen_upto((n - reversed@.len()) as nat),
                forall|i: int| 0 <= i < entries@.len() ==> input_known(self.cfg, #[trigger] &entries@[i]),
                ids@.len() == n - reversed@.len(),
                forall|h: int|
                    0 <= h < ids@.len() ==> #[trigger] ids@[h] == (if self.chosen(BlockRef(h as usize)) is Some {
                        Some(ConditionPlanId(self.chosen_upto(h as nat).len() as usize))
                    } else {
                        None
                    }),
            decreases reversed@.len(),
        {
            let ghost h = n - reversed@.len();
            let ghost before = entries@;
            assert(self.holds_chosen(h, reversed@[reversed@.len() - 1]));
            let c = reversed.pop().unwrap();
            assert(condition_models(before).len() == before.len());
            match c {
                Some(c) => {
                    ids.push(Some(ConditionPlanId(entries.len())));
                    entries.push(c);
                    assert(condition_models(entries@) =~= condition_models(before).push(c@));
                },
                None => {
                    ids.push(None);
                },
            }
        }
        let guards = GuardContext { cfg: self.cfg, dataflow: self.dataflow, loops: self.loops };
        let ghost list = condition_models(entries@);
        assert(list.len() == entries@.len());
        let conditions = guards.compose_adjacent_condition_guards(&actions, entries);
        (conditions, ids)
    }

    /// The slot of block `h` holds the condition chosen there.
    spec fn holds_chosen(&self, h: int, slot: Option<ConditionPlanInput>) -> bool {
        match self.chosen(BlockRef(h as usize)) {
            Some(m) => slot is Some && (slot->0)@ == m && input_known(self.cfg, &(slot->0)),
            None => slot is None,
        }
    }

    spec fn holds_best(&self, h: int, n: nat, slot: Option<ConditionPlanInput>) -> bool {
        match self.best(BlockRef(h as usize), n) {
            Some(m) => slot is Some && (slot->0)@ == m && input_known(self.cfg, &(slot->0)),
            None => slot is None,
        }
    }

    fn no_conditions(&self) -> (r: Vec<Option<ConditionPlanInput>>)
        ensures
            r@.len() == self.cfg.blocks@.len(),
            forall|h: int| 0 <= h < r@.len() ==> self.holds_best(h, 0, #[trigger] r@[h]),
    {
        let n = self.cfg.blocks.len();
        let mut r: Vec<Option<ConditionPlanInput>> = Vec::new();
        let mut h: usize = 0;
        while h < n
            invariant
                n == self.cfg.blocks@.len(),
                h <= n,
                r@.len() == h,
                forall|k: int| 0 <= k < h ==> self.holds_best(k, 0, #[trigger] r@[k]),
            decreases n - h,
        {
            r.push(None);
            h = h + 1;
        }
        r
    }

    fn choose_best(
        &self,
        workspace: &ConditionSafetyWorkspace,
        actions: &Vec<PreliminaryEdgeAction>,
        best: &mut Vec<Option<ConditionPlanInput>>,
    )
        requires
            self.wf(),
            workspace.describes(self.dataflow),
            action_models(actions@) == self.actions(),
            actions@.len() == self.cfg.edges@.len(),
            old(best)@.len() == self.cfg.blocks@.len(),
            forall|h: int| 0 <= h < old(best)@.len() ==> self.holds_best(h, 0, #[trigger] old(best)@[h]),
        ensures
            final(best)@.len() == self.cfg.blocks@.len(),
            forall|h: int| 0 <= h < final(best)@.len() ==> self.holds_best(h, self.offers(), #[trigger] final(best)@[h]),
    {
        let blocks = self.cfg.blocks.len();
        let a = self.candidates.len();
        let total = a + self.closed_control_dags.len();
        let mut i: usize = 0;
        while i < total
            invariant
                self.wf(),
                workspace.describes(self.dataflow),
                action_models(actions@) == self.actions(),
                actions@.len() == self.cfg.edges@.len(),
                a == self.candidates@.len(),
                total == self.offers(),
                i <= total,
                blocks == self.cfg.blocks@.len(),
                best@.len() == blocks,
                forall|h: int| 0 <= h < best@.len() ==> self.holds_best(h, i as nat, #[trigger] best@[h]),
            decreases total - i,
        {
            let ghost before = best@;
            let offer = if i < a {
                assert(short_known(self.cfg, &self.candidates@[i as int]));
                self.prepare(workspace, actions, &self.candidates[i], None)
            } else {
                let d = &self.closed_control_dags[i - a];
                assert(short_known(self.cfg, &self.closed_control_dags@[i - a].candidate));
                self.prepare(workspace, actions, &d.candidate, Some(&d.arcs))
            };
            assert(match self.offer(i as int) {
                Some(m) => offer is Some && (offer->0)@ == m && input_known(self.cfg, &(offer->0)),
                None => offer is None,
            });
            if let Some(c) = offer {
                let h = c.candidate.header;
                assert(self.cfg.has_block(h));
                assert(self.holds_best(h.0 as int, i as nat, before[h.0 as int]));
                let better = match &best[h.0] {
                    None => true,
                    Some(old) => c.candidate.nodes.len() > old.candidate.nodes.len() || (c.candidate.nodes.len()
                        == old.candidate.nodes.len() && c.candidate.blocks.len() > old.candidate.blocks.len()),
                };
                if better {
                    best[h.0] = Some(c);
                }
                proof {
                    assert forall|k: int| 0 <= k < best@.len() implies self.holds_best(k, (i + 1) as nat, #[trigger] best@[k]) by {
                        assert(self.holds_best(k, i as nat, before[k]));
                        if k == h.0 {
                            assert(BlockRef(k as usize) == h);
                        } else {
                            assert(BlockRef(k as usize) != h);
                        }
                    }
                }
            } else {
                proof {
                    assert forall|k: int| 0 <= k < best@.len() implies self.holds_best(k, (i + 1) as nat, #[trigger] best@[k]) by {
                        assert(self.holds_best(k, i as nat, before[k]));
                    }
                }
            }
            i = i + 1;
        }
    }

    fn check_wanted(&self, h: BlockRef) -> (r: bool)
        requires
            self.wf(),
        ensures
            r == self.is_wanted(h),
    {
        let n = self.branches.len();
        let mut i: usize = 0;
        while i < n
            invariant
                n == self.branches@.len(),
                i <= n,
                forall|k: int| 0 <= k < i ==> (#[trigger] self.branches@[k]).header != h,
            decreases n - i,
        {
            if self.branches[i].header == h {
                assert(self.branches@[i as int].header == h);
                return true;
            }
            i = i + 1;
        }
        let m = self.loops.len();
        let ghost models = loop_models(self.loops@);
        let mut j: usize = 0;
        while j < m
            invariant
                self.wf(),
                m == self.loops@.len(),
                models == loop_models(self.loops@),
                j <= m,
                forall|k: int| 0 <= k < j ==> required_header(self.cfg, #[trigger] models[k]) != Some(h),
            decreases m - j,
        {
            assert(models[j as int] == self.loops@[j as int]@);
            assert(self.loops@[j as int].wf(self.cfg));
            if let Some(b) = required_loop_condition_header(self.cfg, &self.loops[j]) {
                if b == h {
                    return true;
                }
            }
            j = j + 1;
        }
        false
    }

    fn add_plain(&self, best: &mut Vec<Option<ConditionPlanInput>>)
        requires
            self.wf(),
            old(best)@.len() == self.cfg.blocks@.len(),
            forall|h: int| 0 <= h < old(best)@.len() ==> self.holds_best(h, self.offers(), #[trigger] old(best)@[h]),
        ensures
            final(best)@.len() == self.cfg.blocks@.len(),
            forall|h: int| 0 <= h < final(best)@.len() ==> self.holds_chosen(h, #[trigger] final(best)@[h]),
    {
        let n = self.cfg.blocks.len();
        let mut h: usize = 0;
        while h < n
            invariant
                self.wf(),
                n == self.cfg.blocks@.len(),
                best@.len() == n,
                h <= n,
                forall|k: int| 0 <= k < h ==> self.holds_chosen(k, #[trigger] best@[k]),
                forall|k: int| h <= k < n ==> self.holds_best(k, self.offers(), #[trigger] best@[k]),
            decreases n - h,
        {
            assert(self.holds_best(h as int, self.offers(), best@[h as int]));
            if best[h].is_none() && self.check_wanted(BlockRef(h)) {
                best[h] = simple_condition_input(self.proto, self.cfg, BlockRef(h));
            }
            h = h + 1;
        }
    }
}

proof fn cut_length(nodes: Seq<ShortCircuitNode>, cut: usize, n: nat)
    ensures
        match cut_nodes(nodes, cut, n) {
            Some(list) => list.len() == n,
            None => true,
        },
    decreases n,
{
    if n > 0 {
        cut_length(nodes, cut, (n - 1) as nat);
    }
}

impl<'a> ConditionSelectionInput<'a> {
    /// The condition that is chosen for a block starts there.
    proof fn best_starts(&self, h: BlockRef, n: nat)
        ensures
            self.best(h, n) is Some ==> (self.best(h, n)->0).s.header == h,
        decreases n,
    {
        if n > 0 {
            self.best_starts(h, (n - 1) as nat);
        }
    }

    proof fn chosen_stands(&self, h: BlockRef, n: nat)
        requires
            h.0 < n,
            n <= usize::MAX,
            self.chosen(h) is Some,
        ensures
            self.chosen_upto(h.0 as nat).len() < self.chosen_upto(n).len(),
            self.chosen_upto(n)[self.chosen_upto(h.0 as nat).len() as int] == self.chosen(h)->0,
        decreases n,
    {
        if h.0 == n - 1 {
            assert(BlockRef((n - 1) as usize) == h);
        } else {
            self.chosen_stands(h, (n - 1) as nat);
        }
    }

    /// The number under which a block's condition goes is its place in the list: what stands
    /// there starts at the block, also after it has been joined with what follows it.
    pub proof fn conditions_stand_at_their_numbers(&self, h: BlockRef)
        requires
            self.cfg.has_block(h),
            self.chosen(h) is Some,
        ensures
            self.chosen_upto(h.0 as nat).len() < self.all_conditions().len(),
            self.all_conditions()[self.chosen_upto(h.0 as nat).len() as int].s.header == h,
    {
        let n = self.cfg.blocks@.len();
        assert(self.cfg.blocks.len() <= usize::MAX);
        self.best_starts(h, self.offers());
        self.chosen_stands(h, n);
        let list = self.chosen_upto(n);
        self.guards().joining_keeps_headers(self.actions(), list, list.len());
    }
}

} // verus!
