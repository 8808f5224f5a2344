//! The analysis of one prototype, step by step.

use vstd::prelude::*;

use crate::branch_regions::{analyze_branch_regions, merging_upto, spans_branch};
use crate::branch_values::{analyze_branch_value_merges, best_candidates, short_wf, ValueMergeInput};
use crate::branches::loops_wf;
use crate::cfg::Cfg;
use crate::classify::BranchIndex;
use crate::condition_arcs::ShortModel;
use crate::condition_safety::{safe_part, values_known, ConditionSafetyWorkspace};
use crate::conditions::ClosedControlDagEvidence;
use crate::continues::{assign_continue_edge_ownership, gains_edges, ContinueInput};
use crate::dataflow::{DataflowFacts, SsaValue};
use crate::debug_bindings::{analyze_debug_bindings, bindings_input, bindings_of, DebugInfo};
use crate::edge_copies::forward_sized;
use crate::error::{Fault, LocatedError, StructureError};
use crate::error_text::{child_text, text_from_outside};
use crate::evidence::{
    BranchCandidate, BranchRegionFact, GotoRequirement, IrreducibleRegion, LoopCandidate, RegionFact, ScopePlan,
    ShortCircuitCandidate, ShortCircuitExit, SinglePassFenceFact,
};
use crate::fences::{analyze_branches, by_header, fences_listed, irreducible_blocks};
use crate::final_input::{final_plan_input, FinalPlanInput, PlanContext, PlanEvidence};
use crate::finalize::{finalization, finalize_phi_ownership, finalized};
use crate::flood::{flood_stays, reachable_in_range, step_in};
use crate::gotos::GotoInput;
use crate::graph::{facts_are_sized, is_backedge, is_natural_loop, loop_body, sources, DominatorTree, GraphFacts};
use crate::helpers::{comes_from, compute_irreducible_regions, fits, irreducible_regions};
use crate::ids::{BlockRef, EdgeRef};
use crate::idset::ascending;
use crate::lir::LoweredProto;
use crate::loop_partition::natural_wf;
use crate::loop_shape::LoopContext;
use crate::loop_values::loop_models;
use crate::loopforest::NaturalLoop;
use crate::ownership::{ownership_fault, tells_copies};
use crate::phi_arms::defs_known;
use crate::refine::branches_wf;
use crate::repeats::{short_known, shorts_known, RepeatRefinementInput};
use crate::search::{first_where, first_where_least, first_where_stable};
use crate::short_order::{has_code, short_code, shorts_ordered};
use crate::structure_plan::{StructureFacts, StructurePlan};
use crate::value_selection::short_models;
use crate::walk::reaches;

verus! {

/// The facts of a prototype that its analysis starts from.
#[derive(Clone, Copy)]
pub struct AnalysisContext<'a> {
    pub proto: &'a LoweredProto,
    pub cfg: &'a Cfg,
    pub graph: &'a GraphFacts,
    pub dataflow: &'a DataflowFacts,
    /// The language can continue loops.
    pub can_continue: bool,
}

/// Loops and branches, as far as the graph shows them.
pub struct StructureSkeleton {
    pub loops: Vec<LoopCandidate>,
    pub irreducible: Vec<IrreducibleRegion>,
    pub branches: Vec<BranchCandidate>,
    pub branch_regions: Vec<BranchRegionFact>,
}

/// Expressions, regions and scopes.
pub struct ControlEvidence {
    pub short_circuits: Vec<ShortCircuitCandidate>,
    pub closed_control_dags: Vec<ClosedControlDagEvidence>,
    /// Conditions that run on in a line, for loops that need more of them.
    pub linear_exits: Vec<ShortCircuitCandidate>,
    pub regions: Vec<RegionFact>,
    pub scopes: Vec<ScopePlan>,
}

pub open spec fn dag_models(list: Seq<ClosedControlDagEvidence>) -> Seq<ShortModel> {
    Seq::new(list.len(), |i: int| list[i].candidate@)
}

/// `acc`, then the safe parts of the first `n` expressions, of all or of those that branch.
pub open spec fn safe_onto(
    cfg: &Cfg,
    dataflow: &DataflowFacts,
    list: Seq<ShortModel>,
    exits_only: bool,
    n: nat,
    acc: Seq<ShortModel>,
) -> Seq<
    ShortModel,
>
    decreases n,
{
    if n == 0 {
        acc
    } else {
        let rest = safe_onto(cfg, dataflow, list, exits_only, (n - 1) as nat, acc);
        if exits_only && !(list[n - 1].exit is BranchExit) {
            rest
        } else {
            match safe_part(cfg, dataflow, list[n - 1]) {
                Some(s) => rest.push(s),
                None => rest,
            }
        }
    }
}

/// The expressions on which the refinement of loops builds.
pub open spec fn loop_conditions(cfg: &Cfg, dataflow: &DataflowFacts, e: &ControlEvidence) -> Seq<ShortModel> {
    let shorts = short_models(e.short_circuits@);
    let dags = dag_models(e.closed_control_dags@);
    safe_onto(cfg, dataflow, dags, false, dags.len(), safe_onto(cfg, dataflow, shorts, true, shorts.len(), Seq::empty()))
}

pub open spec fn loop_supplements(cfg: &Cfg, dataflow: &DataflowFacts, e: &ControlEvidence) -> Seq<ShortModel> {
    let lines = short_models(e.linear_exits@);
    safe_onto(cfg, dataflow, lines, false, lines.len(), Seq::empty())
}

proof fn safe_onto_len(
    cfg: &Cfg,
    dataflow: &DataflowFacts,
    list: Seq<ShortModel>,
    exits_only: bool,
    n: nat,
    acc: Seq<ShortModel>,
)
    ensures
        safe_onto(cfg, dataflow, list, exits_only, n, acc).len() <= acc.len() + n,
    decreases n,
{
    if n > 0 {
        safe_onto_len(cfg, dataflow, list, exits_only, (n - 1) as nat, acc);
    }
}

proof fn pushed_model(list: Seq<ShortCircuitCandidate>, c: ShortCircuitCandidate)
    ensures
        short_models(list.push(c)) == short_models(list).push(c@),
{
    assert(short_models(list.push(c)) =~= short_models(list).push(c@));
}

/// Adds the safe part of an expression, if there is one.
fn add_safe(
    cfg: &Cfg,
    dataflow: &DataflowFacts,
    workspace: &ConditionSafetyWorkspace,
    c: &ShortCircuitCandidate,
    out: &mut Vec<ShortCircuitCandidate>,
)
    requires
        values_known(cfg, dataflow),
        workspace.describes(dataflow),
        short_known(cfg, c),
        shorts_known(cfg, old(out)@),
    ensures
        short_models(final(out)@) == (match safe_part(cfg, dataflow, c@) {
            Some(s) => short_models(old(out)@).push(s),
            None => short_models(old(out)@),
        }),
        shorts_known(cfg, final(out)@),
{
    if let Some(s) = workspace.safe_condition_candidate(cfg, dataflow, c) {
        proof {
            pushed_model(out@, s);
        }
        out.push(s);
    }
}

fn add_safe_shorts(
    cfg: &Cfg,
    dataflow: &DataflowFacts,
    workspace: &ConditionSafetyWorkspace,
    list: &Vec<ShortCircuitCandidate>,
    exits_only: bool,
    out: &mut Vec<ShortCircuitCandidate>,
)
    requires
        values_known(cfg, dataflow),
        workspace.describes(dataflow),
        forall|i: int|
            0 <= i < list@.len() && (!exits_only || (#[trigger] list@[i]).exit is BranchExit) ==> short_known(cfg, &list@[i]),
        shorts_known(cfg, old(out)@),
    ensures
        short_models(final(out)@) == safe_onto(
            cfg,
            dataflow,
            short_models(list@),
            exits_only,
            list@.len(),
            short_models(old(out)@),
        ),
        shorts_known(cfg, final(out)@),
{
    let n = list.len();
    let ghost acc = short_models(out@);
    let mut i: usize = 0;
    while i < n
        invariant
            values_known(cfg, dataflow),
            workspace.describes(dataflow),
            forall|i: int|
                0 <= i < list@.len() && (!exits_only || (#[trigger] list@[i]).exit is BranchExit) ==> short_known(cfg, &list@[i]),
            shorts_known(cfg, out@),
            n == list@.len(),
            i <= n,
            short_models(out@) == safe_onto(cfg, dataflow, short_models(list@), exits_only, i as nat, acc),
        decreases n - i,
    {
        assert(short_models(list@)[i as int] == list@[i as int]@);
        let branches = match list[i].exit {
            ShortCircuitExit::BranchExit { .. } => true,
            ShortCircuitExit::ValueMerge(_) => false,
        };
        if !exits_only || branches {
            add_safe(cfg, dataflow, workspace, &list[i], out);
        }
        i = i + 1;
    }
}

fn add_safe_dags(
    cfg: &Cfg,
    dataflow: &DataflowFacts,
    workspace: &ConditionSafetyWorkspace,
    list: &Vec<ClosedControlDagEvidence>,
    out: &mut Vec<ShortCircuitCandidate>,
)
    requires
        values_known(cfg, dataflow),
        workspace.describes(dataflow),
        forall|i: int| 0 <= i < list@.len() ==> short_known(cfg, &(#[trigger] list@[i]).candidate),
        shorts_known(cfg, old(out)@),
    ensures
        short_models(final(out)@) == safe_onto(cfg, dataflow, dag_models(list@), false, list@.len(), short_models(old(out)@)),
        shorts_known(cfg, final(out)@),
{
    let n = list.len();
    let ghost acc = short_models(out@);
    let mut i: usize = 0;
    while i < n
        invariant
            values_known(cfg, dataflow),
            workspace.describes(dataflow),
            forall|i: int| 0 <= i < list@.len() ==> short_known(cfg, &(#[trigger] list@[i]).candidate),
            shorts_known(cfg, out@),
            n == list@.len(),
            i <= n,
            short_models(out@) == safe_onto(cfg, dataflow, dag_models(list@), false, i as nat, acc),
        decreases n - i,
    {
        assert(dag_models(list@)[i as int] == list@[i as int].candidate@);
        add_safe(cfg, dataflow, workspace, &list[i].candidate, out);
        i = i + 1;
    }
}

/// The body of a loop lies in the graph.
proof fn loop_body_exists(cfg: &Cfg, header: BlockRef, backedges: Seq<EdgeRef>, b: BlockRef)
    requires
        cfg.adjacency_wf(),
        cfg.reachability_wf(),
        cfg.has_block(cfg.entry_block),
        cfg.has_block(header),
        loop_body(cfg, header, backedges).contains(b),
    ensures
        cfg.has_block(b),
{
    reachable_in_range(cfg);
    let region = cfg.reachable_blocks@.remove(header);
    let starts = sources(cfg, backedges);
    if b != header {
        let k = choose|k: int|
            0 <= k < starts.len() && region.contains(#[trigger] starts[k]) && reaches(step_in(cfg, region, true), starts[k], b);
        flood_stays(cfg, region, true, starts[k], b);
        assert(cfg.is_reachable(b));
    }
}

/// The blocks and edges of a natural loop exist.
proof fn natural_loop_exists(cfg: &Cfg, dom: &DominatorTree, l: &NaturalLoop)
    requires
        cfg.adjacency_wf(),
        cfg.reachability_wf(),
        cfg.has_block(cfg.entry_block),
        is_natural_loop(cfg, dom, l),
    ensures
        natural_wf(cfg, l),
{
    let edges = l.backedges@;
    assert forall|k: int| 0 <= k < edges.len() implies is_backedge(cfg, dom, #[trigger] edges[k]) && cfg.edge(edges[k]).to == l.header by {
        assert(edges.contains(edges[k]));
    }
    let e = edges[0];
    assert(cfg.has_edge(e));
    assert(cfg.has_block(l.header));
    assert forall|b: BlockRef| #[trigger] l.blocks@.contains(b) implies cfg.has_block(b) by {
        loop_body_exists(cfg, l.header, edges, b);
    }
}

proof fn natural_loops_exist(g: &GraphFacts, cfg: &Cfg)
    requires
        cfg.wf(),
        forall|i: int| 0 <= i < g.natural_loops@.len() ==> is_natural_loop(cfg, &g.dominator_tree, #[trigger] &g.natural_loops@[i]),
    ensures
        forall|i: int| 0 <= i < g.natural_loops@.len() ==> natural_wf(cfg, &(#[trigger] g.natural_loops@[i])),
{
    assert forall|i: int| 0 <= i < g.natural_loops@.len() implies natural_wf(cfg, &(#[trigger] g.natural_loops@[i])) by {
        natural_loop_exists(cfg, &g.dominator_tree, &g.natural_loops@[i]);
    }
}

/// The edges into irreducible parts exist.
proof fn entry_edges_exist(g: &GraphFacts, cfg: &Cfg, regions: Seq<IrreducibleRegion>)
    requires
        irreducible_regions(cfg, g, regions),
    ensures
        forall|i: int, k: int|
            0 <= i < regions.len() && 0 <= k < regions[i].entry_edges@.len() ==> cfg.has_edge(#[trigger] regions[i].entry_edges@[k]),
{
    assert forall|i: int, k: int| 0 <= i < regions.len() && 0 <= k < regions[i].entry_edges@.len() implies cfg.has_edge(
        #[trigger] regions[i].entry_edges@[k],
    ) by {
        let list = g.strongly_connected_components@;
        assert(comes_from(cfg, g, list, &regions[i]));
        assert(regions[i].entry_edges@.contains(regions[i].entry_edges@[k]));
    }
}

impl<'a> AnalysisContext<'a> {
    /// The graph facts are those of the graph.
    #[verifier::opaque]
    pub open spec fn graph_described(&self) -> bool {
        self.graph.describes(self.cfg)
    }

    pub open spec fn wf(&self) -> bool {
        &&& fits(self.proto, self.cfg)
        &&& self.graph_described()
        &&& values_known(self.cfg, self.dataflow)
        &&& defs_known(self.dataflow)
        &&& self.dataflow.defs@.len() + self.dataflow.phi_candidates@.len() <= usize::MAX
        &&& self.dataflow.phi_uses@.len() == self.dataflow.phi_candidates@.len()
        &&& self.dataflow.phis_closed()
        &&& forall|p: int| 0 <= p < self.dataflow.phi_candidates@.len() ==> (#[trigger] self.dataflow.phi_candidates@[p]).id.0 == p
        &&& forall|i: int, k: int|
            0 <= i < self.dataflow.instr_defs@.len() && 0 <= k < self.dataflow.instr_defs@[i]@.len() ==> (
            #[trigger] self.dataflow.instr_defs@[i]@[k]).0 < self.dataflow.defs@.len()
    }

    proof fn graph_sized(&self)
        requires
            self.wf(),
        ensures
            self.graph.sized(self.cfg),
    {
        reveal(AnalysisContext::graph_described);
        facts_are_sized(self.graph, self.cfg);
    }

    pub open spec fn loop_context(&self) -> LoopContext<'a> {
        LoopContext { proto: self.proto, cfg: self.cfg, graph: self.graph, dataflow: self.dataflow }
    }

    /// The branches are those that the graph and the loops show, with their single passes.
    pub open spec fn branches_found(
        &self,
        index: BranchIndex<'_>,
        fences: Seq<Option<SinglePassFenceFact>>,
        s: &StructureSkeleton,
    ) -> bool {
        let list = index.before_fences(irreducible_blocks(s.irreducible@));
        let merging = merging_upto(s.branches@, self.cfg.blocks@.len());
        &&& index.wf()
        &&& index.proto == self.proto
        &&& index.cfg == self.cfg
        &&& index.graph == self.graph
        &&& *index.loops == s.loops
        &&& by_header(index.all_fence_refined(self.dataflow, list), s.branches@)
        &&& fences_listed(&index, self.dataflow, list, fences)
        &&& s.branch_regions@.len() == merging.len()
        &&& forall|i: int|
            0 <= i < merging.len() ==> spans_branch(
                self.graph,
                merging[i],
                fences[merging[i].header.0 as int],
                #[trigger] &s.branch_regions@[i],
            )
    }

    #[verifier::opaque]
    pub open spec fn branches_settled(&self, s: &StructureSkeleton) -> bool {
        exists|index: BranchIndex<'_>, fences: Seq<Option<SinglePassFenceFact>>| #[trigger] self.branches_found(index, fences, s)
    }

    pub open spec fn is_skeleton(&self, s: &StructureSkeleton) -> bool {
        &&& loop_models(s.loops@) == self.loop_context().all_loops(self.graph.natural_loops@)
        &&& loops_wf(self.cfg, s.loops@)
        &&& irreducible_regions(self.cfg, self.graph, s.irreducible@)
        &&& branches_wf(self.cfg, s.branches@)
        &&& self.branches_settled(s)
    }

    /// Finds loops, irreducible parts and branches.
    pub fn analyze_skeleton(&self) -> (r: StructureSkeleton)
        requires
            self.wf(),
        ensures
            self.is_skeleton(&r),
    {
        proof {
            self.graph_sized();
            reveal(AnalysisContext::graph_described);
            natural_loops_exist(self.graph, self.cfg);
        }
        let context = LoopContext { proto: self.proto, cfg: self.cfg, graph: self.graph, dataflow: self.dataflow };
        let loops = context.analyze_loops();
        let irreducible = compute_irreducible_regions(self.cfg, self.graph);
        let index = BranchIndex::new(self.proto, self.cfg, self.graph, &loops);
        let (branches, fences) = analyze_branches(&index, self.dataflow, &irreducible);
        let ghost listed = fences@;
        let ghost found = index;
        let branch_regions = analyze_branch_regions(self.cfg, self.graph, &branches, fences);
        let r = StructureSkeleton { loops, irreducible, branches, branch_regions };
        proof {
            assert(self.branches_found(found, listed, &r));
            reveal(AnalysisContext::branches_settled);
        }
        r
    }

    /// The expressions and what they name exist.
    pub open spec fn evidence_known(&self, e: &ControlEvidence) -> bool {
        &&& forall|i: int|
            0 <= i < e.short_circuits@.len() ==> short_wf(self.cfg, &(#[trigger] e.short_circuits@[i])) && (
            e.short_circuits@[i].exit is BranchExit ==> short_known(self.cfg, &e.short_circuits@[i]))
        &&& shorts_known(self.cfg, e.linear_exits@)
        &&& forall|i: int|
            0 <= i < e.closed_control_dags@.len() ==> short_known(self.cfg, &(#[trigger] e.closed_control_dags@[i]).candidate)
    }

    /// The loops after the refinement by expressions, and the expressions that remain.
    pub open spec fn loops_refined(
        &self,
        s: &StructureSkeleton,
        e: &ControlEvidence,
        shorts: Vec<ShortCircuitCandidate>,
        supplements: Vec<ShortCircuitCandidate>,
        loops: Seq<LoopCandidate>,
        conditions: Seq<ShortCircuitCandidate>,
    ) -> bool {
        let input = RepeatRefinementInput { branches: &s.branches, shorts: &shorts, supplements: &supplements };
        &&& short_models(shorts@) == loop_conditions(self.cfg, self.dataflow, e)
        &&& short_models(supplements@) == loop_supplements(self.cfg, self.dataflow, e)
        &&& loop_models(loops) == self.loop_context().all_repeat_refined(&input, loop_models(s.loops@))
        &&& shorts_ordered(conditions)
        &&& forall|code: Seq<usize>| #[trigger] has_code(conditions, code) <==> has_code(shorts@, code) || exists|k: int|
            0 <= k < supplements@.len() && #[trigger] self.loop_context().takes_supplement(&input, loop_models(s.loops@), k)
                && short_code(&supplements@[k]) == code
    }

    /// The loops own the edges by which branches end their iterations; what is left over
    /// jumps; and the values that branches merge are collected.
    pub open spec fn edges_assigned(
        &self,
        s: &StructureSkeleton,
        e: &ControlEvidence,
        loops: Seq<LoopCandidate>,
        from: Seq<int>,
        r: &PlanEvidence,
    ) -> bool {
        let continues = ContinueInput { proto: self.proto, cfg: self.cfg, graph: self.graph, branches: &s.branches };
        let gotos = GotoInput {
            proto: self.proto,
            cfg: self.cfg,
            loops: &r.loops,
            branches: &s.branches,
            irreducible: &s.irreducible,
        };
        let merges = ValueMergeInput {
            cfg: self.cfg,
            graph: self.graph,
            dataflow: self.dataflow,
            branches: &s.branches,
            shorts: &e.short_circuits,
            loops: &r.loops,
        };
        &&& r.loops@.len() == loops.len()
        &&& forall|i: int|
            0 <= i < loops.len() ==> gains_edges(
                &loops[i],
                &(#[trigger] r.loops@[i]),
                Set::new(|x: EdgeRef| continues.ends_iteration(loops, i, x)),
            )
        &&& ascending(r.residual_transfers@)
        &&& forall|q: GotoRequirement| #[trigger] r.residual_transfers@.contains(q) <==> gotos.needs_goto(q)
        &&& best_candidates(&merges, (s.branches@.len() + e.short_circuits@.len()) as int, r.branch_value_merges@, from)
    }

    /// The rest is handed on as it is.
    pub open spec fn handed_on(s: &StructureSkeleton, e: &ControlEvidence, r: &PlanEvidence) -> bool {
        &&& r.branches == s.branches
        &&& r.branch_regions == s.branch_regions
        &&& r.value_candidates == e.short_circuits
        &&& r.closed_control_dags == e.closed_control_dags
        &&& r.regions == e.regions
        &&& r.scopes == e.scopes
    }

    /// Refined loops have been found, and the edges assigned to them.
    #[verifier::opaque]
    pub open spec fn control_settled(&self, s: &StructureSkeleton, e: &ControlEvidence, r: &PlanEvidence) -> bool {
        exists|
            shorts: Vec<ShortCircuitCandidate>,
            supplements: Vec<ShortCircuitCandidate>,
            loops: Seq<LoopCandidate>,
            from: Seq<int>,
        | #![auto]
            self.loops_refined(s, e, shorts, supplements, loops, r.condition_candidates@) && self.edges_assigned(s, e, loops, from, r)
    }

    pub open spec fn is_gathered(&self, s: &StructureSkeleton, e: &ControlEvidence, r: &PlanEvidence) -> bool {
        self.control_settled(s, e, r) && Self::handed_on(s, e, r)
    }

    pub open spec fn plan_context(&self) -> PlanContext<'a> {
        PlanContext {
            proto: self.proto,
            cfg: self.cfg,
            dataflow: self.dataflow,
            graph: self.graph,
            can_continue: self.can_continue,
        }
    }

    /// Refines the loops by the expressions, hands out the remaining edges, and collects
    /// everything that the plan is made from.
    pub fn gather_evidence(&self, skeleton: StructureSkeleton, evidence: ControlEvidence) -> (r: PlanEvidence)
        requires
            self.wf(),
            self.is_skeleton(&skeleton),
            self.evidence_known(&evidence),
            skeleton.branches@.len() + evidence.short_circuits@.len() <= usize::MAX,
        ensures
            self.is_gathered(&skeleton, &evidence, &r),
            loops_wf(self.cfg, r.loops@),
            shorts_known(self.cfg, r.condition_candidates@),
            r.condition_candidates@.len() <= evidence.short_circuits@.len() + evidence.closed_control_dags@.len() + skeleton.loops@.len(),
    {
        proof {
            self.graph_sized();
            entry_edges_exist(self.graph, self.cfg, skeleton.irreducible@);
        }
        let ghost s = skeleton;
        let ghost e = evidence;
        let workspace = ConditionSafetyWorkspace::new(self.cfg, self.dataflow);
        let mut shorts: Vec<ShortCircuitCandidate> = Vec::new();
        let mut supplements: Vec<ShortCircuitCandidate> = Vec::new();
        assert(short_models(shorts@) =~= Seq::empty());
        assert(short_models(supplements@) =~= Seq::empty());
        add_safe_shorts(self.cfg, self.dataflow, &workspace, &evidence.short_circuits, true, &mut shorts);
        add_safe_dags(self.cfg, self.dataflow, &workspace, &evidence.closed_control_dags, &mut shorts);
        add_safe_shorts(self.cfg, self.dataflow, &workspace, &evidence.linear_exits, false, &mut supplements);
        let context = LoopContext { proto: self.proto, cfg: self.cfg, graph: self.graph, dataflow: self.dataflow };
        let StructureSkeleton { loops, irreducible, branches, branch_regions } = skeleton;
        let (condition_candidates, refined) = context.refine_short_circuit_repeat_candidates(
            &RepeatRefinementInput { branches: &branches, shorts: &shorts, supplements: &supplements },
            loops,
        );
        let ghost between = refined@;
        proof {
            let first = short_models(evidence.short_circuits@);
            let dags = dag_models(evidence.closed_control_dags@);
            safe_onto_len(self.cfg, self.dataflow, first, true, first.len(), Seq::empty());
            safe_onto_len(
                self.cfg,
                self.dataflow,
                dags,
                false,
                dags.len(),
                safe_onto(self.cfg, self.dataflow, first, true, first.len(), Seq::empty()),
            );
            assert(short_models(shorts@).len() == shorts@.len());
        }
        let loops = assign_continue_edge_ownership(
            &ContinueInput { proto: self.proto, cfg: self.cfg, graph: self.graph, branches: &branches },
            refined,
        );
        let residual_transfers = (GotoInput {
            proto: self.proto,
            cfg: self.cfg,
            loops: &loops,
            branches: &branches,
            irreducible: &irreducible,
        }).analyze_goto_requirements();
        let merges = ValueMergeInput {
            cfg: self.cfg,
            graph: self.graph,
            dataflow: self.dataflow,
            branches: &branches,
            shorts: &evidence.short_circuits,
            loops: &loops,
        };
        let branch_value_merges = analyze_branch_value_merges(&merges);
        let ghost from = choose|from: Seq<int>| #[trigger]
            best_candidates(&merges, (branches@.len() + evidence.short_circuits@.len()) as int, branch_value_merges@, from);
        let r = PlanEvidence {
            branches,
            branch_regions,
            branch_value_merges,
            loops,
            condition_candidates,
            value_candidates: evidence.short_circuits,
            closed_control_dags: evidence.closed_control_dags,
            residual_transfers,
            regions: evidence.regions,
            scopes: evidence.scopes,
        };
        proof {
            assert(self.loops_refined(&s, &e, shorts, supplements, between, r.condition_candidates@));
            assert(self.edges_assigned(&s, &e, between, from, &r));
            reveal(AnalysisContext::control_settled);
            assert(self.control_settled(&s, &e, &r));
        }
        r
    }

    /// The gathered evidence is fit for the plan.
    proof fn evidence_fits(&self, e: &ControlEvidence, x: &PlanEvidence)
        requires
            self.wf(),
            self.evidence_known(e),
            branches_wf(self.cfg, x.branches@),
            loops_wf(self.cfg, x.loops@),
            shorts_known(self.cfg, x.condition_candidates@),
            x.condition_candidates@.len() + x.closed_control_dags@.len() <= usize::MAX,
            x.value_candidates == e.short_circuits,
            x.closed_control_dags == e.closed_control_dags,
        ensures
            self.plan_context().wf(x),
    {
        self.graph_sized();
    }

    /// Works out everything that the plan is made from.
    pub fn plan_input(
        &self,
        skeleton: StructureSkeleton,
        evidence: ControlEvidence,
    ) -> (r: Result<FinalPlanInput, StructureError>)
        requires
            self.wf(),
            self.is_skeleton(&skeleton),
            self.evidence_known(&evidence),
            skeleton.branches@.len() + evidence.short_circuits@.len() <= usize::MAX,
            skeleton.loops@.len() + evidence.short_circuits@.len() + 2 * evidence.closed_control_dags@.len() <= usize::MAX,
        ensures
            exists|x: PlanEvidence| #[trigger]
                self.is_gathered(&skeleton, &evidence, &x) && match r {
                    Ok(f) => PlanContext::fault(&x) is None && self.plan_context().result_ok(&x, &f),
                    Err(err) => PlanContext::fault(&x) == Some(err.fault),
                },
    {
        let ghost s = skeleton;
        let ghost e = evidence;
        let x = self.gather_evidence(skeleton, evidence);
        let context = PlanContext {
            proto: self.proto,
            cfg: self.cfg,
            dataflow: self.dataflow,
            graph: self.graph,
            can_continue: self.can_continue,
        };
        let ghost gathered = x;
        proof {
            self.evidence_fits(&e, &x);
        }
        let r = final_plan_input(&context, x);
        assert(self.is_gathered(&s, &e, &gathered));
        r
    }

    /// The first nested prototype that failed.
    pub open spec fn failed(children: Seq<Result<StructureFacts, LocatedError>>) -> spec_fn(int) -> bool {
        |i: int| children[i] is Err
    }

    /// The facts hold the completed plan, the variables and the nested facts.
    pub open spec fn is_completed(
        &self,
        plan: StructurePlan,
        info: &DebugInfo,
        children: Seq<Result<StructureFacts, LocatedError>>,
        values: Seq<SsaValue>,
        facts: &StructureFacts,
    ) -> bool {
        &&& facts.plan == plan
        &&& bindings_of(self.cfg, self.dataflow, info, values, &facts.debug_bindings)
        &&& facts.children@.len() == children.len()
        &&& forall|i: int| 0 <= i < children.len() ==> children[i] == Ok::<StructureFacts, LocatedError>(#[trigger] facts.children@[i])
    }

    /// How the analysis of a prototype ends once its plan is complete.
    pub open spec fn is_outcome(
        &self,
        plan: StructurePlan,
        info: &DebugInfo,
        children: Seq<Result<StructureFacts, LocatedError>>,
        r: Result<StructureFacts, LocatedError>,
    ) -> bool {
        match ownership_fault(self.cfg, &plan, self.dataflow) {
            Some(f) => is_fault_here(r, f) && tells_copies(&plan, self.dataflow, &r->Err_0.error),
            None => match first_where(children.len(), Self::failed(children)) {
                Some(i) => match r {
                    Err(e) => e.error == children[i]->Err_0.error && e.path@ == seq![i as usize] + children[i]->Err_0.path@,
                    Ok(_) => false,
                },
                None => match r {
                    Ok(facts) => exists|values: Seq<SsaValue>| #[trigger] self.is_completed(plan, info, children, values, &facts),
                    Err(_) => false,
                },
            },
        }
    }

    /// Completes a plan: gives every value its owner, takes in the facts of the nested
    /// prototypes, and names the variables.
    pub fn complete_structure(
        &self,
        plan: StructurePlan,
        info: &DebugInfo,
        children: Vec<Result<StructureFacts, LocatedError>>,
    ) -> (r: Result<
        StructureFacts,
        LocatedError,
    >)
        requires
            self.wf(),
            forward_sized(&plan),
            bindings_input(self.cfg, self.dataflow, info),
        ensures
            match finalization(self.cfg, self.graph, self.dataflow, &plan) {
                Err(f) => is_fault_here(r, f),
                Ok(m) => exists|done: StructurePlan| #[trigger]
                    finalized(self.cfg, self.dataflow.phi_candidates@, &plan, &done, m) && self.is_outcome(done, info, children@, r),
            },
    {
        let ghost all = children@;
        proof {
            self.dataflow.closed_needs_exist();
        }
        let mut completed = plan;
        let outcome = finalize_phi_ownership(self.cfg, self.graph, self.dataflow, &mut completed);
        let ghost done = completed;
        if let Err(e) = outcome {
            let r = Err(LocatedError::here(e));
            assert(finalization(self.cfg, self.graph, self.dataflow, &plan) is Ok ==> self.is_outcome(done, info, all, r));
            return r;
        }
        let mut waiting = reversed(children);
        let mut nested: Vec<StructureFacts> = Vec::new();
        let n = waiting.len();
        let ghost p = Self::failed(all);
        let mut i: usize = 0;
        while i < n
            invariant
                all == children@,
                done == completed,
                bindings_input(self.cfg, self.dataflow, info),
                n == all.len(),
                i <= n,
                waiting@.len() == n - i,
                forall|k: int| 0 <= k < waiting@.len() ==> #[trigger] waiting@[k] == all[n - 1 - k],
                nested@.len() == i,
                forall|k: int| 0 <= k < i ==> all[k] == Ok::<StructureFacts, LocatedError>(#[trigger] nested@[k]),
                p == Self::failed(all),
                first_where(i as nat, p) is None,
                ownership_fault(self.cfg, &done, self.dataflow) is None,
                finalization(self.cfg, self.graph, self.dataflow, &plan) is Ok,
                finalized(
                    self.cfg,
                    self.dataflow.phi_candidates@,
                    &plan,
                    &done,
                    finalization(self.cfg, self.graph, self.dataflow, &plan)->Ok_0,
                ),
            decreases n - i,
        {
            let child = waiting.pop().unwrap();
            assert(child == all[i as int]);
            assert(p(i as int) == (child is Err));
            match child {
                Ok(facts) => {
                    nested.push(facts);
                },
                Err(e) => {
                    proof {
                        first_where_stable((i + 1) as nat, n as nat, p);
                    }
                    let r = Err(e.context(i));
                    assert(self.is_outcome(done, info, all, r));
                    return r;
                },
            }
            i = i + 1;
        }
        let debug_bindings = analyze_debug_bindings(self.cfg, self.dataflow, info);
        let facts = StructureFacts { plan: completed, debug_bindings, children: nested };
        let ghost values = choose|values: Seq<SsaValue>| #[trigger]
            bindings_of(self.cfg, self.dataflow, info, values, &facts.debug_bindings);
        let r = Ok(facts);
        assert(self.is_completed(done, info, all, values, &r->Ok_0));
        assert(self.is_outcome(done, info, all, r));
        r
    }
}

/// The list from its end to its start.
fn reversed<T>(list: Vec<T>) -> (r: Vec<T>)
    ensures
        r@.len() == list@.len(),
        forall|k: int| 0 <= k < r@.len() ==> #[trigger] r@[k] == list@[list@.len() - 1 - k],
{
    let ghost all = list@;
    let mut rest = list;
    let mut r: Vec<T> = Vec::new();
    while rest.len() > 0
        invariant
            rest@.len() + r@.len() == all.len(),
            forall|k: int| 0 <= k < rest@.len() ==> #[trigger] rest@[k] == all[k],
            forall|k: int| 0 <= k < r@.len() ==> #[trigger] r@[k] == all[all.len() - 1 - k],
        decreases rest@.len(),
    {
        if let Some(x) = rest.pop() {
            r.push(x);
        }
    }
    r
}

/// The fault came up in the prototype itself.
pub open spec fn is_fault_here(r: Result<StructureFacts, LocatedError>, f: Fault) -> bool {
    r is Err && r->Err_0.error.fault == f && r->Err_0.path@.len() == 0
}

/// Once the prototype itself is complete, the first nested prototype that fails decides: the
/// outcome is its error, whose text stands behind the number of the prototype. Where none
/// fails, the outcome holds the facts of all of them, in order.
pub proof fn first_failing_child_decides(
    ctx: &AnalysisContext,
    plan: StructurePlan,
    info: &DebugInfo,
    children: Seq<Result<StructureFacts, LocatedError>>,
    r: Result<StructureFacts, LocatedError>,
)
    requires
        ctx.is_outcome(plan, info, children, r),
        ownership_fault(ctx.cfg, &plan, ctx.dataflow) is None,
    ensures
        forall|i: int|
            0 <= i < children.len() && (#[trigger] children[i]) is Err && (forall|j: int| 0 <= j < i ==> (#[trigger] children[j]) is Ok)
                ==> r is Err && r->Err_0.error == children[i]->Err_0.error && r->Err_0.text() == child_text(i as usize)
                + children[i]->Err_0.text(),
        (forall|j: int| 0 <= j < children.len() ==> (#[trigger] children[j]) is Ok) ==> r is Ok
            && r->Ok_0.children@.len() == children.len() && forall|k: int|
            0 <= k < children.len() ==> (#[trigger] children[k]) == Ok::<StructureFacts, LocatedError>(r->Ok_0.children@[k]),
{
    let p = AnalysisContext::failed(children);
    first_where_least(children.len(), p);
    assert forall|i: int|
        0 <= i < children.len() && (#[trigger] children[i]) is Err && (forall|j: int| 0 <= j < i ==> (#[trigger] children[j]) is Ok)
        implies r is Err && r->Err_0.error == children[i]->Err_0.error && r->Err_0.text() == child_text(i as usize)
        + children[i]->Err_0.text() by {
        assert(p(i));
        let k = first_where(children.len(), p)->0;
        assert(p(k));
        if k < i {
            assert(children[k] is Ok);
        }
        let e = children[i]->Err_0;
        text_from_outside(e.path@, e.error, i as usize);
    }
    if forall|j: int| 0 <= j < children.len() ==> (#[trigger] children[j]) is Ok {
        if let Some(k) = first_where(children.len(), p) {
            assert(p(k));
            assert(children[k] is Ok);
        }
        let facts = r->Ok_0;
        let values = choose|values: Seq<SsaValue>| #[trigger] ctx.is_completed(plan, info, children, values, &facts);
        assert forall|k: int| 0 <= k < children.len() implies (#[trigger] children[k]) == Ok::<StructureFacts, LocatedError>(
            facts.children@[k],
        ) by {
            assert(children[k] == Ok::<StructureFacts, LocatedError>(facts.children@[k]));
        }
    }
}

} // verus!
