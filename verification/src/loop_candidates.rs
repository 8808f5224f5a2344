//! Loop candidates: natural loops, their partitions, and loops that never come back.

use vstd::prelude::*;

use crate::cfg::Cfg;
use crate::evidence::{LoopCandidate, LoopExitValueMergeCandidate, LoopKindHint, LoopSourceBindings};
use crate::helpers::{
    block_of, collect_forward_region_blocks, collect_region_exits, fits, forward_region, is_reducible_region,
    known_blocks, leaves_region, lists_hold_boundary, reducible_at, region_exits, targets_exist,
};
use crate::ids::{BlockRef, EdgeRef};
use crate::idset::{ascending, ascending_unique, IdSet};
use crate::lir::{GenericForLoopInstr, LoweredProto, LowInstr, NumericForInstr};
use crate::loop_exits::{
    analyze_loop_exit_value_merges, body_scope, exit_values, loop_body_scope, sealed_exit, shared_exit,
    shared_exit_continuation, ScopeInput,
};
use crate::loop_shape::{
    breaks_at_once, find_generic, find_init, generic_at, generic_for_has_loop_body_and_exit,
    generic_for_immediate_break, infer_loop_shape, init_at, is_generic_header, numeric_for_state_matches,
    numeric_targets_exist, same_exit, same_or_equivalent_exit_target, same_state, shape_of, LoopContext, ShapeInput,
};
use crate::loop_values::{analyze_loop_header_value_merges, exit_models, merges_at, ExitModel, LoopModel};
use crate::search::{first_where, first_where_stable};

verus! {

impl<'a> LoopContext<'a> {
    pub open spec fn wf(&self) -> bool {
        fits(self.proto, self.cfg) && self.dataflow.ranges_wf()
    }
}

/// `s` lists the edges in ascending order, each once.
pub open spec fn sorts(edges: Seq<EdgeRef>, s: Seq<EdgeRef>) -> bool {
    ascending(s) && forall|e: EdgeRef| #[trigger] s.contains(e) <==> edges.contains(e)
}

pub open spec fn sorted_edges(edges: Seq<EdgeRef>) -> Seq<EdgeRef> {
    choose|s: Seq<EdgeRef>| #[trigger] sorts(edges, s)
}

fn sort_edges(edges: &Vec<EdgeRef>) -> (r: Vec<EdgeRef>)
    ensures
        r@ == sorted_edges(edges@),
        ascending(r@),
        forall|e: EdgeRef| #[trigger] r@.contains(e) <==> edges@.contains(e),
{
    let n = edges.len();
    let mut set: IdSet<EdgeRef> = IdSet::new();
    let mut i: usize = 0;
    while i < n
        invariant
            n == edges@.len(),
            i <= n,
            forall|e: EdgeRef| #[trigger] set@.contains(e) <==> edges@.subrange(0, i as int).contains(e),
        decreases n - i,
    {
        let e = edges[i];
        proof {
            let pre = edges@.subrange(0, i as int);
            let post = edges@.subrange(0, i as int + 1);
            assert(post =~= pre.push(e));
            assert forall|x: EdgeRef| #[trigger] post.contains(x) <==> pre.contains(x) || x == e by {
                if pre.contains(x) {
                    let j = choose|j: int| 0 <= j < pre.len() && pre[j] == x;
                    assert(post[j] == x);
                }
                if x == e {
                    assert(post[i as int] == x);
                }
            }
        }
        set.insert(e);
        i = i + 1;
    }
    let r = set.to_vec();
    proof {
        assert(edges@.subrange(0, n as int) =~= edges@);
        assert forall|e: EdgeRef| #[trigger] r@.contains(e) <==> edges@.contains(e) by {
            assert(r@.to_set().contains(e) <==> set@.contains(e));
        }
        assert(sorts(edges@, r@));
        let s = sorted_edges(edges@);
        assert(sorts(edges@, s));
        assert forall|e: EdgeRef| r@.contains(e) <==> s.contains(e) by {}
        ascending_unique(r@, s);
    }
    r
}

pub open spec fn outside(blocks: Set<BlockRef>) -> Set<BlockRef> {
    Set::new(|b: BlockRef| !blocks.contains(b))
}

impl<'a> LoopContext<'a> {
    /// The scope of a body, where the exits' shared continuation is taken into account.
    pub open spec fn scope_of(
        &self,
        kind: LoopKindHint,
        continue_target: Option<BlockRef>,
        blocks: Set<BlockRef>,
        exits: Set<BlockRef>,
        header: BlockRef,
    ) -> Set<BlockRef> {
        body_scope(
            self.cfg,
            self.graph,
            ScopeInput { kind, continue_target, blocks, exits, shared: shared_exit(self.proto, self.cfg, exits), header },
        )
    }

    /// The values handed on at the exits.
    pub open spec fn values_at_exits(
        &self,
        exits: Set<BlockRef>,
        inside: Set<BlockRef>,
        owners: Set<BlockRef>,
    ) -> Seq<ExitModel> {
        exit_values(
            self.dataflow,
            exits,
            sealed_exit(self.cfg, shared_exit(self.proto, self.cfg, exits), owners),
            inside,
            self.cfg.blocks@.len(),
        )
    }

    pub open spec fn preheader_of(&self, header: BlockRef, blocks: Set<BlockRef>) -> Option<BlockRef> {
        self.cfg.unique_predecessor(header, outside(blocks))
    }

    /// The loop with this header, these blocks and these back edges.
    pub open spec fn built(&self, header: BlockRef, blocks: Set<BlockRef>, backedges: Seq<EdgeRef>) -> LoopModel {
        let edges = sorted_edges(backedges);
        let exits = region_exits(self.cfg, blocks);
        let values = merges_at(self.dataflow, header, blocks, true);
        let shape = shape_of(
            self.proto,
            self.cfg,
            self.dataflow,
            ShapeInput { header, blocks, backedges: edges, exits, preheader: self.preheader_of(header, blocks), values },
        );
        LoopModel {
            header,
            preheader: self.preheader_of(header, blocks),
            blocks,
            scope: self.scope_of(shape.kind, shape.continue_target, blocks, exits, header),
            control: Set::empty(),
            aliases: Seq::empty(),
            backedges: edges,
            exits,
            continue_target: shape.continue_target,
            continue_edges: Set::empty(),
            condition_header: None,
            kind: shape.kind,
            bindings: shape.bindings,
            header_values: values,
            exit_values: self.values_at_exits(exits, blocks, blocks),
        }
    }

    pub fn collect_exit_values(
        &self,
        exits: &IdSet<BlockRef>,
        inside: &IdSet<BlockRef>,
        owners: &IdSet<BlockRef>,
    ) -> (r: Vec<LoopExitValueMergeCandidate>)
        requires
            self.wf(),
            known_blocks(self.cfg, exits@),
        ensures
            exit_models(r@) == self.values_at_exits(exits@, inside@, owners@),
    {
        let shared = shared_exit_continuation(self.proto, self.cfg, exits);
        analyze_loop_exit_value_merges(self.cfg, self.dataflow, exits, shared.as_ref(), inside, owners)
    }

    pub fn collect_scope(
        &self,
        kind: LoopKindHint,
        continue_target: Option<BlockRef>,
        blocks: &IdSet<BlockRef>,
        exits: &IdSet<BlockRef>,
        header: BlockRef,
    ) -> (r: IdSet<BlockRef>)
        requires
            self.wf(),
            known_blocks(self.cfg, blocks@),
            known_blocks(self.cfg, exits@),
            continue_target is Some ==> self.cfg.has_block(continue_target->0),
        ensures
            r@ == self.scope_of(kind, continue_target, blocks@, exits@, header),
            known_blocks(self.cfg, r@),
    {
        let shared = shared_exit_continuation(self.proto, self.cfg, exits);
        loop_body_scope(self.cfg, self.graph, kind, continue_target, blocks, exits, shared.as_ref(), header)
    }

    pub fn build_loop_candidate(
        &self,
        header: BlockRef,
        blocks: IdSet<BlockRef>,
        backedges: Vec<EdgeRef>,
    ) -> (r: LoopCandidate)
        requires
            self.wf(),
            self.cfg.has_block(header),
            known_blocks(self.cfg, blocks@),
            forall|i: int| 0 <= i < backedges@.len() ==> self.cfg.has_edge(#[trigger] backedges@[i]),
        ensures
            r@ == self.built(header, blocks@, backedges@),
            r.wf(self.cfg),
    {
        let edges = sort_edges(&backedges);
        proof {
            assert forall|i: int| 0 <= i < edges@.len() implies self.cfg.has_edge(#[trigger] edges@[i]) by {
                assert(edges@.contains(edges@[i]));
                let k = choose|k: int| 0 <= k < backedges@.len() && backedges@[k] == edges@[i];
                assert(self.cfg.has_edge(backedges@[k]));
            }
        }
        let preheader = self.cfg.unique_reachable_predecessor(header, &blocks, true);
        proof {
            lists_hold_boundary(self.cfg, blocks@);
        }
        let exits = collect_region_exits(self.cfg, &blocks);
        proof {
            exits_known(self.cfg, blocks@);
            assert(outside(blocks@) =~= Set::new(|b: BlockRef| !blocks@.contains(b)));
        }
        let values = analyze_loop_header_value_merges(self.dataflow, header, &blocks);
        let (kind, continue_target, bindings) = infer_loop_shape(self, header, &blocks, &edges, &exits, preheader, &values);
        let scope = self.collect_scope(kind, continue_target, &blocks, &exits, header);
        let exit_values = self.collect_exit_values(&exits, &blocks, &blocks);
        LoopCandidate {
            header,
            preheader,
            blocks,
            body_scope_blocks: scope,
            control_blocks: IdSet::new(),
            normalized_exit_aliases: Vec::new(),
            backedges: edges,
            exits,
            continue_target,
            continue_edges: IdSet::new(),
            condition_header: None,
            kind_hint: kind,
            source_bindings: bindings,
            header_value_merges: values,
            exit_value_merges: exit_values,
        }
    }
}

/// The exits of a region are blocks of the graph.
proof fn exits_known(cfg: &Cfg, blocks: Set<BlockRef>)
    requires
        cfg.wf(),
    ensures
        known_blocks(cfg, region_exits(cfg, blocks)),
{
    assert forall|b: BlockRef| #[trigger] region_exits(cfg, blocks).contains(b) implies cfg.has_block(b) by {
        let e = choose|e: EdgeRef| #[trigger] leaves_region(cfg, blocks, e) && cfg.edge(e).to == b;
        assert(cfg.has_edge(e));
    }
}

/// Instruction `i` closes the loop that `init` opens, though its body edge may already point
/// to the exit.
pub open spec fn dead_latch(proto: &LoweredProto, cfg: &Cfg, init: NumericForInstr) -> spec_fn(int) -> bool {
    |i: int|
        match proto.instrs@[i] {
            LowInstr::NumericForLoop(l) => same_state(init, l) && (l.body_target == init.body_target || l.body_target
                == init.exit_target) && same_exit(proto, cfg, l.exit_target, init.exit_target),
            _ => false,
        }
}

impl<'a> LoopContext<'a> {
    /// A numeric `for` whose latch is never reached: everything from the body to the exit.
    pub open spec fn degenerate_numeric(&self, numeric_headers: Set<BlockRef>, preheader: BlockRef) -> Option<LoopModel> {
        match init_at(self.proto, self.cfg, preheader) {
            Some(init) => {
                let header = block_of(self.cfg, init.body_target);
                let exit = block_of(self.cfg, init.exit_target);
                match first_where(self.proto.instrs@.len(), dead_latch(self.proto, self.cfg, init)) {
                    Some(i) => {
                        let latch = self.cfg.instr_to_block@[i];
                        let blocks = forward_region(
                            self.cfg,
                            seq![header],
                            Some(exit),
                            Some((header, &self.graph.dominator_tree)),
                        ).insert(latch);
                        let exits = region_exits(self.cfg, blocks).insert(exit);
                        if numeric_headers.contains(header) || header == exit || self.cfg.is_reachable(latch) || latch == preheader
                            || latch == header || latch == exit || !reducible_at(self.cfg, header, blocks) {
                            None
                        } else {
                            Some(
                                LoopModel {
                                    header,
                                    preheader: Some(preheader),
                                    blocks,
                                    scope: self.scope_of(LoopKindHint::NumericForLike, Some(latch), blocks, exits, header),
                                    control: Set::empty(),
                                    aliases: Seq::empty(),
                                    backedges: Seq::empty(),
                                    exits,
                                    continue_target: Some(latch),
                                    continue_edges: Set::empty(),
                                    condition_header: None,
                                    kind: LoopKindHint::NumericForLike,
                                    bindings: Some(LoopSourceBindings::Numeric(init.binding)),
                                    header_values: merges_at(self.dataflow, header, blocks, true),
                                    exit_values: self.values_at_exits(exits, blocks, blocks),
                                },
                            )
                        }
                    },
                    None => None,
                }
            },
            None => None,
        }
    }

    fn find_dead_latch(&self, init: &NumericForInstr) -> (r: Option<BlockRef>)
        requires
            self.wf(),
            numeric_targets_exist(*init, self.proto.instrs@.len()),
        ensures
            match first_where(self.proto.instrs@.len(), dead_latch(self.proto, self.cfg, *init)) {
                Some(i) => r == Some(self.cfg.instr_to_block@[i]) && self.cfg.has_block(r->0),
                None => r is None,
            },
    {
        let n = self.proto.instrs.len();
        let ghost p = dead_latch(self.proto, self.cfg, *init);
        let mut i: usize = 0;
        while i < n
            invariant
                self.wf(),
                numeric_targets_exist(*init, self.proto.instrs@.len()),
                n == self.proto.instrs@.len(),
                p == dead_latch(self.proto, self.cfg, *init),
                i <= n,
                first_where(i as nat, p) is None,
            decreases n - i,
        {
            let hit = match &self.proto.instrs[i] {
                LowInstr::NumericForLoop(l) => {
                    assert(targets_exist(self.proto.instrs@[i as int], self.proto.instrs@.len()));
                    numeric_for_state_matches(init, l) && (l.body_target == init.body_target || l.body_target == init.exit_target)
                        && same_or_equivalent_exit_target(self.proto, self.cfg, l.exit_target, init.exit_target)
                },
                _ => false,
            };
            assert(p(i as int) == hit);
            if hit {
                proof {
                    assert(first_where((i + 1) as nat, p) == Some(i as int));
                    first_where_stable((i + 1) as nat, n as nat, p);
                }
                return Some(self.cfg.instr_to_block[i]);
            }
            i = i + 1;
        }
        None
    }

    pub fn degenerate_numeric_for_loop(
        &self,
        numeric_headers: &IdSet<BlockRef>,
        preheader: BlockRef,
    ) -> (r: Option<LoopCandidate>)
        requires
            self.wf(),
            self.cfg.has_block(preheader),
        ensures
            match r {
                Some(c) => self.degenerate_numeric(numeric_headers@, preheader) == Some(c@) && c.wf(self.cfg),
                None => self.degenerate_numeric(numeric_headers@, preheader) is None,
            },
    {
        let init = match find_init(self.proto, self.cfg, preheader) {
            None => {
                return None;
            },
            Some(i) => i,
        };
        let header = self.cfg.instr_to_block[init.body_target.0];
        let exit = self.cfg.instr_to_block[init.exit_target.0];
        let latch = match self.find_dead_latch(&init) {
            None => {
                return None;
            },
            Some(l) => l,
        };
        if numeric_headers.contains(header) || header == exit || self.cfg.reachable_blocks.contains(latch) || latch == preheader
            || latch == header || latch == exit {
            return None;
        }
        let mut entries: Vec<BlockRef> = Vec::new();
        entries.push(header);
        assert(entries@ =~= seq![header]);
        let mut blocks = collect_forward_region_blocks(
            self.cfg,
            &entries,
            Some(exit),
            Some((header, &self.graph.dominator_tree)),
        );
        blocks.insert(latch);
        proof {
            lists_hold_boundary(self.cfg, blocks@);
        }
        let mut exits = collect_region_exits(self.cfg, &blocks);
        proof {
            exits_known(self.cfg, blocks@);
        }
        exits.insert(exit);
        if !is_reducible_region(self.cfg, header, &blocks) {
            return None;
        }
        let scope = self.collect_scope(LoopKindHint::NumericForLike, Some(latch), &blocks, &exits, header);
        let values = analyze_loop_header_value_merges(self.dataflow, header, &blocks);
        let exit_values = self.collect_exit_values(&exits, &blocks, &blocks);
        let r = LoopCandidate {
            header,
            preheader: Some(preheader),
            blocks,
            body_scope_blocks: scope,
            control_blocks: IdSet::new(),
            normalized_exit_aliases: Vec::new(),
            backedges: Vec::new(),
            exits,
            continue_target: Some(latch),
            continue_edges: IdSet::new(),
            condition_header: None,
            kind_hint: LoopKindHint::NumericForLike,
            source_bindings: Some(LoopSourceBindings::Numeric(init.binding)),
            header_value_merges: values,
            exit_value_merges: exit_values,
        };
        Some(r)
    }

    /// The blocks of a generic `for` that never comes back: the header, and what lies between
    /// the body and the exit.
    pub open spec fn one_pass_blocks(&self, header: BlockRef, i: GenericForLoopInstr) -> Set<BlockRef> {
        let body = block_of(self.cfg, i.body_target);
        let exit = block_of(self.cfg, i.exit_target);
        if breaks_at_once(self.proto, self.cfg, i) {
            Set::empty().insert(header)
        } else {
            Set::empty().insert(header).union(
                forward_region(self.cfg, seq![body], Some(exit), Some((body, &self.graph.dominator_tree))),
            )
        }
    }

    /// A generic `for` whose body never comes back to the header.
    pub open spec fn degenerate_generic(&self, header: BlockRef) -> Option<LoopModel> {
        match generic_at(self.proto, self.cfg, header) {
            Some(i) => {
                let body = block_of(self.cfg, i.body_target);
                let exit = block_of(self.cfg, i.exit_target);
                let blocks = self.one_pass_blocks(header, i);
                let exits = region_exits(self.cfg, blocks);
                if body == header || exit == header || (!breaks_at_once(self.proto, self.cfg, i) && blocks.contains(exit))
                    || !is_generic_header(self.proto, self.cfg, header, i, blocks) || !exits.contains(exit) || !reducible_at(
                    self.cfg,
                    header,
                    blocks,
                ) {
                    None
                } else {
                    Some(
                        LoopModel {
                            header,
                            preheader: self.preheader_of(header, blocks),
                            blocks,
                            scope: self.scope_of(LoopKindHint::GenericForLike, Some(header), blocks, exits, header),
                            control: Set::empty(),
                            aliases: Seq::empty(),
                            backedges: Seq::empty(),
                            exits,
                            continue_target: Some(header),
                            continue_edges: Set::empty(),
                            condition_header: None,
                            kind: LoopKindHint::GenericForLike,
                            bindings: Some(LoopSourceBindings::Generic(i.bindings)),
                            header_values: merges_at(self.dataflow, header, blocks, true),
                            exit_values: self.values_at_exits(exits, blocks.remove(header), blocks),
                        },
                    )
                }
            },
            None => None,
        }
    }

    pub fn degenerate_generic_for_loop(&self, header: BlockRef) -> (r: Option<LoopCandidate>)
        requires
            self.wf(),
            self.cfg.has_block(header),
        ensures
            match r {
                Some(c) => self.degenerate_generic(header) == Some(c@) && c.wf(self.cfg),
                None => self.degenerate_generic(header) is None,
            },
    {
        let i = match find_generic(self.proto, self.cfg, header) {
            None => {
                return None;
            },
            Some(i) => i,
        };
        let body = self.cfg.instr_to_block[i.body_target.0];
        let exit = self.cfg.instr_to_block[i.exit_target.0];
        let at_once = generic_for_immediate_break(self.proto, self.cfg, &i);
        let mut blocks: IdSet<BlockRef> = IdSet::singleton(header);
        if !at_once {
            let mut entries: Vec<BlockRef> = Vec::new();
            entries.push(body);
            assert(entries@ =~= seq![body]);
            let region = collect_forward_region_blocks(
                self.cfg,
                &entries,
                Some(exit),
                Some((body, &self.graph.dominator_tree)),
            );
            blocks.extend(&region);
        }
        if body == header || exit == header || (!at_once && blocks.contains(exit)) || !generic_for_has_loop_body_and_exit(
            self.proto,
            self.cfg,
            header,
            &i,
            &blocks,
        ) {
            return None;
        }
        proof {
            lists_hold_boundary(self.cfg, blocks@);
        }
        let exits = collect_region_exits(self.cfg, &blocks);
        if !exits.contains(exit) || !is_reducible_region(self.cfg, header, &blocks) {
            return None;
        }
        proof {
            exits_known(self.cfg, blocks@);
            assert(outside(blocks@) =~= Set::new(|b: BlockRef| !blocks@.contains(b)));
        }
        let scope = self.collect_scope(LoopKindHint::GenericForLike, Some(header), &blocks, &exits, header);
        let preheader = self.cfg.unique_reachable_predecessor(header, &blocks, true);
        let values = analyze_loop_header_value_merges(self.dataflow, header, &blocks);
        let mut inside = blocks.clone();
        inside.remove(header);
        let exit_values = self.collect_exit_values(&exits, &inside, &blocks);
        Some(
            LoopCandidate {
                header,
                preheader,
                blocks,
                body_scope_blocks: scope,
                control_blocks: IdSet::new(),
                normalized_exit_aliases: Vec::new(),
                backedges: Vec::new(),
                exits,
                continue_target: Some(header),
                continue_edges: IdSet::new(),
                condition_header: None,
                kind_hint: LoopKindHint::GenericForLike,
                source_bindings: Some(LoopSourceBindings::Generic(i.bindings)),
                header_value_merges: values,
                exit_value_merges: exit_values,
            },
        )
    }
}

} // verus!
