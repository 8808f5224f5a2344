//! `repeat` loops whose condition is a short-circuit expression, or a branch behind a guard.

use vstd::prelude::*;

use crate::branch_values::branch_wf;
use crate::branches::loops_wf;
use crate::cfg::Cfg;
use crate::conditions::exits_exist;
use crate::evidence::{
    BranchCandidate, LoopCandidate, LoopExitValueMergeCandidate, LoopKindHint, ShortCircuitCandidate,
    ShortCircuitExit, ShortCircuitNode, ShortCircuitTarget,
};
use crate::helpers::{block_jumps_to, fits, jumps_to, ranges_fit};
use crate::ids::BlockRef;
use crate::idset::IdSet;
use crate::lir::{LowInstr, LoweredProto};
use crate::loop_exits::{check_only_closes, exit_target, only_closes, transparent_loop_exit_target};
use crate::loop_shape::{
    repeat_condition, repeat_continue_target_via_backedge_pad, LoopContext,
};
use crate::loop_values::{
    exit_merge, exit_models, loop_exit_value_merge_in_block, loop_models, ExitModel, LoopModel,
};
use crate::refine::{branch_at, branches_wf, find_branch, find_fork, fork_of};
use crate::search::{count_where, count_where_monotone, first_where, first_where_least, only_where};
use crate::short_order::{copy_short, has_code, insert_short, short_code, shorts_ordered};

verus! {

/// Something but closing scopes happens before the block's last instruction.
pub open spec fn works_before_end(proto: &LoweredProto, cfg: &Cfg, b: BlockRef) -> bool {
    cfg.range(b).len > 0 && !only_closes(proto, cfg.range(b).start.0 as int, cfg.range(b).end_at() - 1)
}

pub fn backedge_has_non_cleanup_prefix(proto: &LoweredProto, cfg: &Cfg, block: BlockRef) -> (r: bool)
    requires
        fits(proto, cfg),
        cfg.has_block(block),
    ensures
        r == works_before_end(proto, cfg, block),
{
    proof {
        ranges_fit(proto, cfg, block);
    }
    let range = cfg.blocks[block.0].instrs;
    if range.len == 0 {
        return false;
    }
    !check_only_closes(proto, range.start.0, range.end() - 1)
}

/// The one of the header's two ways that leads out of the loop.
pub open spec fn way_out(cfg: &Cfg, header: BlockRef, blocks: Set<BlockRef>) -> Option<BlockRef> {
    match fork_of(cfg, header) {
        Some(f) => if !blocks.contains(f.then_entry) && blocks.contains(f.else_entry) {
            Some(f.then_entry)
        } else if blocks.contains(f.then_entry) && !blocks.contains(f.else_entry) {
            Some(f.else_entry)
        } else {
            None
        },
        None => None,
    }
}

fn find_way_out(cfg: &Cfg, header: BlockRef, blocks: &IdSet<BlockRef>) -> (r: Option<BlockRef>)
    requires
        cfg.adjacency_wf(),
        cfg.has_block(header),
    ensures
        r == way_out(cfg, header, blocks@),
        r is Some ==> cfg.has_block(r->0),
{
    match find_fork(cfg, header) {
        Some(f) => {
            let a = blocks.contains(f.then_entry);
            let b = blocks.contains(f.else_entry);
            if !a && b {
                Some(f.then_entry)
            } else if a && !b {
                Some(f.else_entry)
            } else {
                None
            }
        },
        None => None,
    }
}

pub open spec fn ends_function(proto: &LoweredProto, cfg: &Cfg, b: BlockRef) -> bool {
    match cfg.terminator_of(proto.instrs@, b) {
        Some(i) => i is Return || i is TailCall,
        None => false,
    }
}

/// A node whose both ways leave the expression.
pub open spec fn leaves_both(n: ShortCircuitNode) -> bool {
    (n.truthy == ShortCircuitTarget::TruthyExit || n.truthy == ShortCircuitTarget::FalsyExit) && (n.falsy
        == ShortCircuitTarget::TruthyExit || n.falsy == ShortCircuitTarget::FalsyExit)
}

pub open spec fn last_node(s: &ShortCircuitCandidate) -> spec_fn(int) -> bool {
    |i: int| leaves_both(s.nodes@[i])
}

/// The header of the expression's only last node.
pub open spec fn final_header(s: &ShortCircuitCandidate) -> Option<BlockRef> {
    match only_where(s.nodes@.len(), last_node(s)) {
        Some(i) => Some(s.nodes@[i].header),
        None => None,
    }
}

fn find_final_header(s: &ShortCircuitCandidate) -> (r: Option<BlockRef>)
    ensures
        r == final_header(s),
{
    let n = s.nodes.len();
    let ghost p = last_node(s);
    let mut found: Option<usize> = None;
    let mut i: usize = 0;
    while i < n
        invariant
            n == s.nodes@.len(),
            p == last_node(s),
            i <= n,
            match found {
                None => count_where(i as nat, p) == 0 && first_where(i as nat, p) is None,
                Some(k) => count_where(i as nat, p) == 1 && first_where(i as nat, p) == Some(k as int) && k < i,
            },
        decreases n - i,
    {
        let node = s.nodes[i];
        let a = node.truthy == ShortCircuitTarget::TruthyExit || node.truthy == ShortCircuitTarget::FalsyExit;
        let b = node.falsy == ShortCircuitTarget::TruthyExit || node.falsy == ShortCircuitTarget::FalsyExit;
        assert(p(i as int) == (a && b));
        if a && b {
            if found.is_some() {
                proof {
                    count_where_monotone((i + 1) as nat, n as nat, p);
                }
                return None;
            }
            found = Some(i);
        }
        i = i + 1;
    }
    match found {
        Some(k) => Some(s.nodes[k].header),
        None => None,
    }
}

/// Where the expression goes when it does not go to `target`.
pub open spec fn other_exit(s: &ShortCircuitCandidate, target: BlockRef) -> Option<BlockRef> {
    match s.exit {
        ShortCircuitExit::BranchExit { truthy, falsy } => if truthy == target {
            Some(falsy)
        } else if falsy == target {
            Some(truthy)
        } else {
            None
        },
        ShortCircuitExit::ValueMerge(_) => None,
    }
}

/// How a loop becomes a `repeat`.
pub struct RepeatChange {
    pub target: BlockRef,
    pub condition_header: Option<BlockRef>,
    pub exit_merge: Option<BlockRef>,
    /// The additional expression that the loop makes use of.
    pub supplement: Option<int>,
}

impl<'a> LoopContext<'a> {
    /// The `while` header leaves to where the `repeat` would: at once by returning or by the
    /// same exit, or later because the other exit post-dominates it.
    pub open spec fn exit_rejoins(&self, c: LoopModel, repeat_exit: BlockRef) -> bool {
        c.kind == LoopKindHint::WhileLike && match way_out(self.cfg, c.header, c.blocks) {
            Some(x) => c.exits.contains(x) && ((c.backedges.len() > 1 && (x == repeat_exit || ends_function(self.proto, self.cfg, x)))
                || (x != repeat_exit && self.graph.postdom(repeat_exit, x))),
            None => false,
        }
    }

    /// Every source satisfies `p`.
    pub open spec fn all_sources(sources: Seq<BlockRef>, p: spec_fn(BlockRef) -> bool) -> bool {
        forall|k: int| 0 <= k < sources.len() ==> p(#[trigger] sources[k])
    }

    pub open spec fn quiet_source(&self, c: LoopModel, s: &ShortCircuitCandidate) -> spec_fn(BlockRef) -> bool {
        |b: BlockRef| !((s.header == c.header || !s.blocks@.contains(b)) && works_before_end(self.proto, self.cfg, b))
    }

    pub open spec fn below_header(&self, s: &ShortCircuitCandidate) -> spec_fn(BlockRef) -> bool {
        |b: BlockRef| self.graph.dom(s.header, b)
    }

    pub open spec fn in_short(s: &ShortCircuitCandidate) -> spec_fn(BlockRef) -> bool {
        |b: BlockRef| s.blocks@.contains(b)
    }

    /// The last condition of the expression, when the expression is the loop's tail condition:
    /// it goes to `back` or out of the loop.
    pub open spec fn short_target(
        &self,
        c: LoopModel,
        s: &ShortCircuitCandidate,
        back: BlockRef,
        sources: Seq<BlockRef>,
        owned: bool,
    ) -> Option<BlockRef> {
        match other_exit(s, back) {
            Some(out) => {
                let rejoins = self.exit_rejoins(c, out);
                if (owned ==> Self::all_sources(sources, Self::in_short(s))) && Self::all_sources(sources, self.below_header(s))
                    && s.reducible && c.blocks.contains(s.header) && Self::all_sources(sources, self.quiet_source(c, s)) && (c.kind
                    == LoopKindHint::WhileLike ==> rejoins) && (s.nodes@.len() == 1 && c.exits.len() != 1 ==> rejoins)
                    && s.blocks@.subset_of(c.blocks) && c.exits.contains(out) {
                    final_header(s)
                } else {
                    None
                }
            },
            None => None,
        }
    }

    /// Expression `a` is not larger than expression `b`.
    pub open spec fn not_larger(a: &ShortCircuitCandidate, b: &ShortCircuitCandidate) -> bool {
        a.nodes@.len() < b.nodes@.len() || (a.nodes@.len() == b.nodes@.len() && a.blocks@.len() <= b.blocks@.len())
    }

    /// The last of the largest expressions, among the first `n`, that are the tail condition.
    pub open spec fn best_short(
        &self,
        c: LoopModel,
        shorts: Seq<ShortCircuitCandidate>,
        back: BlockRef,
        sources: Seq<BlockRef>,
        owned: bool,
        n: nat,
    ) -> Option<int>
        decreases n,
    {
        if n == 0 {
            None
        } else {
            let best = self.best_short(c, shorts, back, sources, owned, (n - 1) as nat);
            if self.short_target(c, &shorts[n - 1], back, sources, owned) is Some && (best is None || Self::not_larger(
                &shorts[best->0],
                &shorts[n - 1],
            )) {
                Some(n - 1)
            } else {
                best
            }
        }
    }

    /// The change by an expression, the known ones first.
    pub open spec fn short_change(
        &self,
        c: LoopModel,
        shorts: Seq<ShortCircuitCandidate>,
        extra: Seq<ShortCircuitCandidate>,
        back: BlockRef,
        sources: Seq<BlockRef>,
        owned: bool,
    ) -> Option<RepeatChange> {
        match self.best_short(c, shorts, back, sources, owned, shorts.len()) {
            Some(i) => Some(
                RepeatChange {
                    target: self.short_target(c, &shorts[i], back, sources, owned)->0,
                    condition_header: Some(shorts[i].header),
                    exit_merge: None,
                    supplement: None,
                },
            ),
            None => match self.best_short(c, extra, back, sources, owned, extra.len()) {
                Some(i) => Some(
                    RepeatChange {
                        target: self.short_target(c, &extra[i], back, sources, owned)->0,
                        condition_header: Some(extra[i].header),
                        exit_merge: None,
                        supplement: Some(i),
                    },
                ),
                None => None,
            },
        }
    }

    /// Where the paths behind the two exits of a `repeat` meet.
    pub open spec fn meets_after(&self, repeat_exit: BlockRef, early: BlockRef) -> Option<BlockRef> {
        if repeat_exit == early {
            Some(early)
        } else {
            let on = match exit_target(self.proto, self.cfg, repeat_exit) {
                Some(x) => Some(x),
                None => self.cfg.unique_successor(repeat_exit),
            };
            match on {
                Some(x) => if x == early || self.graph.postdom(x, early) {
                    Some(x)
                } else {
                    None
                },
                None => None,
            }
        }
    }

    /// The block that ends in the tail condition, and where it goes when it goes on.
    pub open spec fn direct_condition(&self, c: LoopModel, source: BlockRef) -> Option<(BlockRef, BlockRef)> {
        if self.cfg.branch_edges_of(source) is Some {
            Some((source, c.header))
        } else {
            match repeat_condition(self.proto, self.cfg, source, c.blocks) {
                Some(t) => Some((t, if t == source { c.header } else { source })),
                None => None,
            }
        }
    }

    /// A plain branch as the tail condition, of a loop whose header looks like a `while` but
    /// is an early way out that joins again behind the loop.
    pub open spec fn direct_change(
        &self,
        branches: Seq<BranchCandidate>,
        c: LoopModel,
        source: BlockRef,
    ) -> Option<RepeatChange> {
        if c.kind != LoopKindHint::WhileLike {
            None
        } else {
            match self.direct_condition(c, source) {
                Some((condition, back)) => match (fork_of(self.cfg, condition), way_out(self.cfg, c.header, c.blocks)) {
                    (Some(f), Some(early)) => {
                        let out = if f.then_entry == back {
                            f.else_entry
                        } else {
                            f.then_entry
                        };
                        let merge = match branch_at(branches, early) {
                            Some(b) => match b.merge {
                                Some(m) => self.meets_after(out, m),
                                None => None,
                            },
                            None => None,
                        };
                        if (f.then_entry == back) != (f.else_entry == back) && c.exits.contains(out) && early != out && c.exits.contains(
                            early,
                        ) && merge is Some && merge != Some(self.cfg.exit_block) && !c.blocks.contains(merge->0) {
                            Some(
                                RepeatChange { target: condition, condition_header: None, exit_merge: merge, supplement: None },
                            )
                        } else {
                            None
                        }
                    },
                    _ => None,
                },
                None => None,
            }
        }
    }
}

/// The change, as it is carried out.
struct Change {
    target: BlockRef,
    condition_header: Option<BlockRef>,
    exit_merge: Option<BlockRef>,
    supplement: Option<usize>,
}

impl Change {
    spec fn describes(&self, c: RepeatChange) -> bool {
        &&& self.target == c.target
        &&& self.condition_header == c.condition_header
        &&& self.exit_merge == c.exit_merge
        &&& match self.supplement {
            Some(i) => c.supplement == Some(i as int),
            None => c.supplement is None,
        }
    }

    spec fn wf(&self, cfg: &Cfg, extra: nat) -> bool {
        &&& cfg.has_block(self.target)
        &&& self.condition_header is Some ==> cfg.has_block(self.condition_header->0)
        &&& self.exit_merge is Some ==> cfg.has_block(self.exit_merge->0)
        &&& self.supplement is Some ==> self.supplement->0 < extra
    }
}

/// The blocks of the expression and its exits exist.
pub open spec fn short_known(cfg: &Cfg, s: &ShortCircuitCandidate) -> bool {
    &&& cfg.has_block(s.header)
    &&& forall|i: int| 0 <= i < s.nodes@.len() ==> cfg.has_block((#[trigger] s.nodes@[i]).header)
    &&& exits_exist(cfg, s.exit)
}

pub open spec fn shorts_known(cfg: &Cfg, list: Seq<ShortCircuitCandidate>) -> bool {
    forall|i: int| 0 <= i < list.len() ==> short_known(cfg, &(#[trigger] list[i]))
}

impl<'a> LoopContext<'a> {
    fn check_rejoins(&self, c: &LoopCandidate, repeat_exit: BlockRef) -> (r: bool)
        requires
            self.wf(),
            c.wf(self.cfg),
        ensures
            r == self.exit_rejoins(c@, repeat_exit),
    {
        let is_while = match c.kind_hint {
            LoopKindHint::WhileLike => true,
            _ => false,
        };
        if !is_while {
            return false;
        }
        match find_way_out(self.cfg, c.header, &c.blocks) {
            None => false,
            Some(x) => {
                proof {
                    ranges_fit(self.proto, self.cfg, x);
                }
                let ends = match self.cfg.terminator(self.proto.instrs.as_slice(), x) {
                    Some(LowInstr::Return(_)) | Some(LowInstr::TailCall(_)) => true,
                    _ => false,
                };
                c.exits.contains(x) && ((c.backedges.len() > 1 && (x == repeat_exit || ends)) || (x != repeat_exit
                    && self.graph.post_dominates(repeat_exit, x)))
            },
        }
    }

    fn check_sources(&self, c: &LoopCandidate, s: &ShortCircuitCandidate, sources: &Vec<BlockRef>, owned: bool) -> (r: bool)
        requires
            self.wf(),
            forall|k: int| 0 <= k < sources@.len() ==> self.cfg.has_block(#[trigger] sources@[k]),
        ensures
            r == ((owned ==> Self::all_sources(sources@, Self::in_short(s))) && Self::all_sources(sources@, self.below_header(s))
                && Self::all_sources(sources@, self.quiet_source(c@, s))),
    {
        let n = sources.len();
        let ghost inside = Self::in_short(s);
        let ghost below = self.below_header(s);
        let ghost quiet = self.quiet_source(c@, s);
        let mut i: usize = 0;
        while i < n
            invariant
                self.wf(),
                n == sources@.len(),
                i <= n,
                inside == Self::in_short(s),
                below == self.below_header(s),
                quiet == self.quiet_source(c@, s),
                forall|k: int| 0 <= k < sources@.len() ==> self.cfg.has_block(#[trigger] sources@[k]),
                forall|k: int| 0 <= k < i ==> (owned ==> inside(#[trigger] sources@[k])) && below(sources@[k]) && quiet(sources@[k]),
            decreases n - i,
        {
            let b = sources[i];
            assert(self.cfg.has_block(sources@[i as int]));
            let within = s.blocks.contains(b);
            if owned && !within {
                assert(!inside(sources@[i as int]));
                return false;
            }
            if !self.graph.dominates(s.header, b) {
                assert(!below(sources@[i as int]));
                return false;
            }
            if (s.header == c.header || !within) && backedge_has_non_cleanup_prefix(self.proto, self.cfg, b) {
                assert(!quiet(sources@[i as int]));
                return false;
            }
            i = i + 1;
        }
        true
    }

    pub fn repeat_short_circuit_continue_target(
        &self,
        c: &LoopCandidate,
        s: &ShortCircuitCandidate,
        back: BlockRef,
        sources: &Vec<BlockRef>,
        owned: bool,
    ) -> (r: Option<BlockRef>)
        requires
            self.wf(),
            c.wf(self.cfg),
            forall|k: int| 0 <= k < sources@.len() ==> self.cfg.has_block(#[trigger] sources@[k]),
        ensures
            r == self.short_target(c@, s, back, sources@, owned),
    {
        let (truthy, falsy) = match s.exit {
            ShortCircuitExit::BranchExit { truthy, falsy } => (truthy, falsy),
            ShortCircuitExit::ValueMerge(_) => {
                return None;
            },
        };
        let out = if truthy == back {
            falsy
        } else if falsy == back {
            truthy
        } else {
            return None;
        };
        let rejoins = self.check_rejoins(c, out);
        let is_while = match c.kind_hint {
            LoopKindHint::WhileLike => true,
            _ => false,
        };
        if !s.reducible || !c.blocks.contains(s.header) || !self.check_sources(c, s, sources, owned) || (is_while && !rejoins) || (
        s.nodes.len() == 1 && c.exits.len() != 1 && !rejoins) || !s.blocks.is_subset(&c.blocks) || !c.exits.contains(out) {
            return None;
        }
        find_final_header(s)
    }

    pub fn repeat_short_circuit_match(
        &self,
        c: &LoopCandidate,
        shorts: &Vec<ShortCircuitCandidate>,
        back: BlockRef,
        sources: &Vec<BlockRef>,
        owned: bool,
    ) -> (r: Option<(BlockRef, usize)>)
        requires
            self.wf(),
            c.wf(self.cfg),
            shorts_known(self.cfg, shorts@),
            forall|k: int| 0 <= k < sources@.len() ==> self.cfg.has_block(#[trigger] sources@[k]),
        ensures
            match self.best_short(c@, shorts@, back, sources@, owned, shorts@.len()) {
                Some(i) => 0 <= i < shorts@.len() && r is Some && (r->0).1 as int == i && Some((r->0).0) == self.short_target(
                    c@,
                    &shorts@[i],
                    back,
                    sources@,
                    owned,
                ) && self.cfg.has_block((r->0).0),
                None => r is None,
            },
    {
        let n = shorts.len();
        let mut best: Option<(BlockRef, usize)> = None;
        let mut i: usize = 0;
        while i < n
            invariant
                self.wf(),
                c.wf(self.cfg),
                shorts_known(self.cfg, shorts@),
                forall|k: int| 0 <= k < sources@.len() ==> self.cfg.has_block(#[trigger] sources@[k]),
                n == shorts@.len(),
                i <= n,
                match self.best_short(c@, shorts@, back, sources@, owned, i as nat) {
                    Some(k) => 0 <= k < i && best is Some && (best->0).1 as int == k && Some((best->0).0) == self.short_target(
                        c@,
                        &shorts@[k],
                        back,
                        sources@,
                        owned,
                    ) && self.cfg.has_block((best->0).0),
                    None => best is None,
                },
            decreases n - i,
        {
            assert(short_known(self.cfg, &shorts@[i as int]));
            if let Some(target) = self.repeat_short_circuit_continue_target(c, &shorts[i], back, sources, owned) {
                proof {
                    let s = &shorts@[i as int];
                    first_where_least(s.nodes@.len(), last_node(s));
                }
                let better = match best {
                    None => true,
                    Some((_, b)) => {
                        let old = &shorts[b];
                        let new = &shorts[i];
                        old.nodes.len() < new.nodes.len() || (old.nodes.len() == new.nodes.len() && old.blocks.len()
                            <= new.blocks.len())
                    },
                };
                if better {
                    best = Some((target, i));
                }
            }
            i = i + 1;
        }
        best
    }

    fn find_short_change(
        &self,
        c: &LoopCandidate,
        shorts: &Vec<ShortCircuitCandidate>,
        extra: &Vec<ShortCircuitCandidate>,
        back: BlockRef,
        sources: &Vec<BlockRef>,
        owned: bool,
    ) -> (r: Option<Change>)
        requires
            self.wf(),
            c.wf(self.cfg),
            shorts_known(self.cfg, shorts@),
            shorts_known(self.cfg, extra@),
            forall|k: int| 0 <= k < sources@.len() ==> self.cfg.has_block(#[trigger] sources@[k]),
        ensures
            match self.short_change(c@, shorts@, extra@, back, sources@, owned) {
                Some(d) => r is Some && (r->0).describes(d) && (r->0).wf(self.cfg, extra@.len()),
                None => r is None,
            },
    {
        if let Some((target, i)) = self.repeat_short_circuit_match(c, shorts, back, sources, owned) {
            assert(short_known(self.cfg, &shorts@[i as int]));
            return Some(
                Change { target, condition_header: Some(shorts[i].header), exit_merge: None, supplement: None },
            );
        }
        match self.repeat_short_circuit_match(c, extra, back, sources, owned) {
            Some((target, i)) => {
                assert(short_known(self.cfg, &extra@[i as int]));
                Some(
                    Change { target, condition_header: Some(extra[i].header), exit_merge: None, supplement: Some(i) },
                )
            },
            None => None,
        }
    }

    pub fn repeat_exit_merge_after_guard(&self, repeat_exit: BlockRef, early: BlockRef) -> (r: Option<BlockRef>)
        requires
            self.wf(),
            self.cfg.has_block(repeat_exit),
            self.cfg.has_block(early),
        ensures
            r == self.meets_after(repeat_exit, early),
            r is Some ==> self.cfg.has_block(r->0),
    {
        if repeat_exit == early {
            return Some(early);
        }
        let on = match transparent_loop_exit_target(self.proto, self.cfg, repeat_exit) {
            Some(x) => Some(x),
            None => self.cfg.unique_reachable_successor(repeat_exit),
        };
        match on {
            Some(x) => if x == early || self.graph.post_dominates(x, early) {
                Some(x)
            } else {
                None
            },
            None => None,
        }
    }

    fn find_direct_condition(&self, c: &LoopCandidate, source: BlockRef) -> (r: Option<(BlockRef, BlockRef)>)
        requires
            self.wf(),
            c.wf(self.cfg),
            self.cfg.has_block(source),
        ensures
            r == self.direct_condition(c@, source),
            r is Some ==> self.cfg.has_block((r->0).0),
    {
        if self.cfg.branch_edges(source).is_some() {
            return Some((source, c.header));
        }
        match repeat_continue_target_via_backedge_pad(self.proto, self.cfg, source, &c.blocks) {
            Some(t) => {
                let back = if t == source {
                    c.header
                } else {
                    source
                };
                Some((t, back))
            },
            None => None,
        }
    }

    fn direct_branch_repeat_continue_target(
        &self,
        branches: &Vec<BranchCandidate>,
        c: &LoopCandidate,
        source: BlockRef,
    ) -> (r: Option<Change>)
        requires
            self.wf(),
            c.wf(self.cfg),
            branches_wf(self.cfg, branches@),
            self.cfg.has_block(source),
        ensures
            match self.direct_change(branches@, c@, source) {
                Some(d) => r is Some && (r->0).describes(d) && (r->0).wf(self.cfg, 0),
                None => r is None,
            },
    {
        let is_while = match c.kind_hint {
            LoopKindHint::WhileLike => true,
            _ => false,
        };
        if !is_while {
            return None;
        }
        let (condition, back) = match self.find_direct_condition(c, source) {
            None => {
                return None;
            },
            Some(pair) => pair,
        };
        let f = match find_fork(self.cfg, condition) {
            None => {
                return None;
            },
            Some(f) => f,
        };
        let early = match find_way_out(self.cfg, c.header, &c.blocks) {
            None => {
                return None;
            },
            Some(x) => x,
        };
        if (f.then_entry == back) == (f.else_entry == back) {
            return None;
        }
        let out = if f.then_entry == back {
            f.else_entry
        } else {
            f.then_entry
        };
        let branch = match find_branch(branches, early) {
            None => {
                return None;
            },
            Some(b) => b,
        };
        proof {
            let i = choose|i: int| 0 <= i < branches@.len() && branches@[i] == branch;
            assert(branch_wf(self.cfg, &branches@[i]));
        }
        let m = match branch.merge {
            None => {
                return None;
            },
            Some(m) => m,
        };
        let merge = match self.repeat_exit_merge_after_guard(out, m) {
            None => {
                return None;
            },
            Some(x) => x,
        };
        if !c.exits.contains(out) || early == out || !c.exits.contains(early) || merge == self.cfg.exit_block || c.blocks.contains(
            merge,
        ) {
            return None;
        }
        Some(Change { target: condition, condition_header: None, exit_merge: Some(merge), supplement: None })
    }
}

/// The largest `repeat` with header `h` among the first `n` loops; the first of equals.
pub open spec fn largest_repeat(list: Seq<LoopModel>, h: BlockRef, n: nat) -> Option<int>
    decreases n,
{
    if n == 0 {
        None
    } else {
        let best = largest_repeat(list, h, (n - 1) as nat);
        let c = list[n - 1];
        if c.kind == LoopKindHint::RepeatLike && c.header == h && (best is None || list[best->0].blocks.len() < c.blocks.len()) {
            Some(n - 1)
        } else {
            best
        }
    }
}

/// Loop `i` lies in a larger `repeat` with the same header and is left to its condition.
pub open spec fn under_repeat(list: Seq<LoopModel>, i: int) -> bool {
    match largest_repeat(list, list[i].header, list.len()) {
        Some(w) => w != i && list[i].blocks.len() < list[w].blocks.len() && list[w].continue_target is Some && list[i].exits.contains(
            list[w].continue_target->0,
        ),
        None => false,
    }
}

/// What the refinement of `repeat` loops reads beside the loops.
pub struct RepeatRefinementInput<'a> {
    pub branches: &'a Vec<BranchCandidate>,
    pub shorts: &'a Vec<ShortCircuitCandidate>,
    pub supplements: &'a Vec<ShortCircuitCandidate>,
}

pub open spec fn edge_sources(cfg: &Cfg, c: LoopModel) -> Seq<BlockRef> {
    Seq::new(c.backedges.len(), |i: int| cfg.edge(c.backedges[i]).from)
}

impl<'a> LoopContext<'a> {
    /// The change by the loop's only back edge.
    pub open spec fn single_change(
        &self,
        input: &RepeatRefinementInput,
        list: Seq<LoopModel>,
        i: int,
    ) -> Option<RepeatChange> {
        let c = list[i];
        if c.backedges.len() != 1 {
            None
        } else {
            let source = self.cfg.edge(c.backedges[0]).from;
            let by_jump = if jumps_to(self.proto, self.cfg, source, c.header) {
                self.short_change(c, input.shorts@, input.supplements@, source, seq![source], false)
            } else {
                None
            };
            if by_jump is Some {
                by_jump
            } else if under_repeat(list, i) {
                None
            } else {
                self.direct_change(input.branches@, c, source)
            }
        }
    }

    /// Every back edge starts below `b`.
    pub open spec fn sources_below(&self, c: LoopModel, b: BlockRef) -> bool {
        forall|k: int| 0 <= k < c.backedges.len() ==> self.graph.dom(b, self.cfg.edge(#[trigger] c.backedges[k]).from)
    }

    /// How loop `i` becomes a `repeat`, if it does: the condition must come before every way
    /// back.
    pub open spec fn repeat_change(
        &self,
        input: &RepeatRefinementInput,
        list: Seq<LoopModel>,
        i: int,
    ) -> Option<RepeatChange> {
        let c = list[i];
        if c.kind != LoopKindHint::Unknown && c.kind != LoopKindHint::WhileLike && c.kind != LoopKindHint::WhileTrueLike {
            None
        } else {
            let grouped = self.short_change(
                c,
                input.shorts@,
                input.supplements@,
                c.header,
                edge_sources(self.cfg, c),
                true,
            );
            let chosen = if grouped is Some {
                grouped
            } else {
                self.single_change(input, list, i)
            };
            match chosen {
                Some(d) => {
                    let entry = match d.condition_header {
                        Some(h) => h,
                        None => d.target,
                    };
                    if self.sources_below(c, entry) {
                        Some(d)
                    } else {
                        None
                    }
                },
                None => None,
            }
        }
    }
}

/// The number of leading exits that are not larger than `x`.
pub open spec fn exit_place(list: Seq<ExitModel>, x: BlockRef, n: nat) -> nat
    decreases list.len() - n,
{
    if n < list.len() && list[n as int].exit.0 <= x.0 {
        exit_place(list, x, n + 1)
    } else {
        n
    }
}

/// The first `n` entries by exit, equals in their order; entries for `without` are left out.
pub open spec fn ordered_exits(list: Seq<ExitModel>, without: BlockRef, n: nat) -> Seq<ExitModel>
    decreases n,
{
    if n == 0 {
        Seq::empty()
    } else {
        let rest = ordered_exits(list, without, (n - 1) as nat);
        if list[n - 1].exit == without {
            rest
        } else {
            rest.insert(exit_place(rest, list[n - 1].exit, 0) as int, list[n - 1])
        }
    }
}

impl<'a> LoopContext<'a> {
    /// The values at the exits once the exits meet at `at`: what comes from the scope or the
    /// exits counts as inside there.
    pub open spec fn exits_with(
        &self,
        values: Seq<ExitModel>,
        scope: Set<BlockRef>,
        exits: Set<BlockRef>,
        at: BlockRef,
    ) -> Seq<ExitModel> {
        match exit_merge(self.dataflow, at, scope.union(exits).remove(at)) {
            Some(m) => {
                let rest = ordered_exits(values, at, values.len());
                rest.insert(exit_place(rest, at, 0) as int, m)
            },
            None => values,
        }
    }

    /// The loop after the change.
    pub open spec fn changed(&self, c: LoopModel, d: RepeatChange) -> LoopModel {
        let scope = self.scope_of(LoopKindHint::RepeatLike, Some(d.target), c.blocks, c.exits, c.header);
        LoopModel {
            kind: LoopKindHint::RepeatLike,
            continue_target: Some(d.target),
            condition_header: d.condition_header,
            scope,
            exit_values: match d.exit_merge {
                Some(m) => self.exits_with(c.exit_values, scope, c.exits, m),
                None => c.exit_values,
            },
            ..c
        }
    }

    pub open spec fn repeat_refined(&self, input: &RepeatRefinementInput, list: Seq<LoopModel>, i: int) -> LoopModel {
        match self.repeat_change(input, list, i) {
            Some(d) => self.changed(list[i], d),
            None => list[i],
        }
    }

    pub open spec fn all_repeat_refined(&self, input: &RepeatRefinementInput, list: Seq<LoopModel>) -> Seq<LoopModel> {
        Seq::new(list.len(), |i: int| self.repeat_refined(input, list, i))
    }

    /// Some loop makes use of additional expression `k`.
    pub open spec fn takes_supplement(&self, input: &RepeatRefinementInput, list: Seq<LoopModel>, k: int) -> bool {
        exists|i: int| 0 <= i < list.len() && uses_supplement(#[trigger] self.repeat_change(input, list, i), k)
    }

    fn find_under_repeat(&self, list: &Vec<LoopCandidate>, i: usize) -> (r: bool)
        requires
            i < list@.len(),
        ensures
            r == under_repeat(loop_models(list@), i as int),
    {
        let n = list.len();
        let ghost models = loop_models(list@);
        let h = list[i].header;
        let mut best: Option<usize> = None;
        let mut k: usize = 0;
        while k < n
            invariant
                models == loop_models(list@),
                n == list@.len(),
                i < n,
                k <= n,
                match largest_repeat(models, h, k as nat) {
                    Some(w) => 0 <= w < k && best is Some && (best->0) as int == w,
                    None => best is None,
                },
            decreases n - k,
        {
            let c = &list[k];
            assert(models[k as int] == c@);
            let is_repeat = match c.kind_hint {
                LoopKindHint::RepeatLike => true,
                _ => false,
            };
            if is_repeat && c.header == h {
                let better = match best {
                    None => true,
                    Some(b) => {
                        assert(models[b as int] == list@[b as int]@);
                        list[b].blocks.len() < c.blocks.len()
                    },
                };
                if better {
                    best = Some(k);
                }
            }
            k = k + 1;
        }
        assert(models[i as int] == list@[i as int]@);
        match best {
            None => false,
            Some(w) => {
                assert(models[w as int] == list@[w as int]@);
                w != i && list[i].blocks.len() < list[w].blocks.len() && match list[w].continue_target {
                    Some(t) => list[i].exits.contains(t),
                    None => false,
                }
            },
        }
    }

    fn find_single_change(&self, input: &RepeatRefinementInput, list: &Vec<LoopCandidate>, i: usize) -> (r: Option<Change>)
        requires
            self.wf(),
            loops_wf(self.cfg, list@),
            i < list@.len(),
            branches_wf(self.cfg, input.branches@),
            shorts_known(self.cfg, input.shorts@),
            shorts_known(self.cfg, input.supplements@),
        ensures
            match self.single_change(input, loop_models(list@), i as int) {
                Some(d) => r is Some && (r->0).describes(d) && (r->0).wf(self.cfg, input.supplements@.len()),
                None => r is None,
            },
    {
        let c = &list[i];
        assert(list@[i as int].wf(self.cfg));
        assert(loop_models(list@)[i as int] == c@);
        if c.backedges.len() != 1 {
            return None;
        }
        let e = c.backedges[0];
        assert(self.cfg.has_edge(c.backedges@[0]));
        let source = self.cfg.edges[e.0].from;
        if block_jumps_to(self.proto, self.cfg, source, c.header) {
            let mut sources: Vec<BlockRef> = Vec::new();
            sources.push(source);
            assert(sources@ =~= seq![source]);
            let by_jump = self.find_short_change(c, input.shorts, input.supplements, source, &sources, false);
            if by_jump.is_some() {
                return by_jump;
            }
        }
        if self.find_under_repeat(list, i) {
            return None;
        }
        self.direct_branch_repeat_continue_target(input.branches, c, source)
    }

    fn check_sources_below(&self, c: &LoopCandidate, b: BlockRef) -> (r: bool)
        requires
            c.wf(self.cfg),
        ensures
            r == self.sources_below(c@, b),
    {
        let n = c.backedges.len();
        let mut k: usize = 0;
        while k < n
            invariant
                c.wf(self.cfg),
                n == c.backedges@.len(),
                k <= n,
                forall|q: int| 0 <= q < k ==> self.graph.dom(b, self.cfg.edge(#[trigger] c.backedges@[q]).from),
            decreases n - k,
        {
            let e = c.backedges[k];
            assert(self.cfg.has_edge(c.backedges@[k as int]));
            if !self.graph.dominates(b, self.cfg.edges[e.0].from) {
                assert(!self.graph.dom(b, self.cfg.edge(c.backedges@[k as int]).from));
                return false;
            }
            k = k + 1;
        }
        true
    }

    fn find_repeat_change(&self, input: &RepeatRefinementInput, list: &Vec<LoopCandidate>, i: usize) -> (r: Option<Change>)
        requires
            self.wf(),
            loops_wf(self.cfg, list@),
            i < list@.len(),
            branches_wf(self.cfg, input.branches@),
            shorts_known(self.cfg, input.shorts@),
            shorts_known(self.cfg, input.supplements@),
        ensures
            match self.repeat_change(input, loop_models(list@), i as int) {
                Some(d) => r is Some && (r->0).describes(d) && (r->0).wf(self.cfg, input.supplements@.len()),
                None => r is None,
            },
    {
        let c = &list[i];
        assert(list@[i as int].wf(self.cfg));
        assert(loop_models(list@)[i as int] == c@);
        let open = match c.kind_hint {
            LoopKindHint::Unknown | LoopKindHint::WhileLike | LoopKindHint::WhileTrueLike => true,
            _ => false,
        };
        if !open {
            return None;
        }
        let n = c.backedges.len();
        let mut sources: Vec<BlockRef> = Vec::new();
        let mut k: usize = 0;
        while k < n
            invariant
                fits(self.proto, self.cfg),
                c.wf(self.cfg),
                n == c.backedges@.len(),
                k <= n,
                sources@ =~= edge_sources(self.cfg, c@).subrange(0, k as int),
                forall|q: int| 0 <= q < sources@.len() ==> self.cfg.has_block(#[trigger] sources@[q]),
            decreases n - k,
        {
            let e = c.backedges[k];
            assert(self.cfg.has_edge(c.backedges@[k as int]));
            sources.push(self.cfg.edges[e.0].from);
            k = k + 1;
        }
        assert(sources@ =~= edge_sources(self.cfg, c@));
        let grouped = self.find_short_change(c, input.shorts, input.supplements, c.header, &sources, true);
        let chosen = match grouped {
            Some(g) => Some(g),
            None => self.find_single_change(input, list, i),
        };
        match chosen {
            None => None,
            Some(d) => {
                let entry = match d.condition_header {
                    Some(h) => h,
                    None => d.target,
                };
                if self.check_sources_below(c, entry) {
                    Some(d)
                } else {
                    None
                }
            },
        }
    }
}

pub open spec fn uses_supplement(d: Option<RepeatChange>, k: int) -> bool {
    d is Some && (d->0).supplement == Some(k)
}

fn insert_exit(list: &mut Vec<LoopExitValueMergeCandidate>, e: LoopExitValueMergeCandidate)
    ensures
        exit_models(final(list)@) == exit_models(old(list)@).insert(exit_place(exit_models(old(list)@), e.exit, 0) as int, e@),
        exit_place(exit_models(old(list)@), e.exit, 0) <= old(list)@.len(),
{
    let n = list.len();
    let ghost models = exit_models(list@);
    let mut at: usize = 0;
    while at < n && list[at].exit.0 <= e.exit.0
        invariant
            list@ == old(list)@,
            n == list@.len(),
            models == exit_models(list@),
            at <= n,
            exit_place(models, e.exit, 0) == exit_place(models, e.exit, at as nat),
        decreases n - at,
    {
        assert(models[at as int] == list@[at as int]@);
        at = at + 1;
    }
    proof {
        if at < n {
            assert(models[at as int] == list@[at as int]@);
        }
        assert(exit_place(models, e.exit, at as nat) == at);
    }
    list.insert(at, e);
    assert(exit_models(list@) =~= models.insert(at as int, e@));
}

/// Sorts by exit and leaves the entries for one exit out.
fn order_exits(list: Vec<LoopExitValueMergeCandidate>, without: BlockRef) -> (r: Vec<LoopExitValueMergeCandidate>)
    ensures
        exit_models(r@) == ordered_exits(exit_models(list@), without, list@.len()),
{
    let ghost models = exit_models(list@);
    let total = list.len();
    let mut rest = list;
    let mut reversed: Vec<LoopExitValueMergeCandidate> = Vec::new();
    while rest.len() > 0
        invariant
            total == list@.len(),
            rest@.len() + reversed@.len() == total,
            rest@ == list@.subrange(0, rest@.len() as int),
            forall|k: int| 0 <= k < reversed@.len() ==> #[trigger] reversed@[k] == list@[total - 1 - k],
        decreases rest@.len(),
    {
        let c = rest.pop().unwrap();
        reversed.push(c);
        assert(rest@ =~= list@.subrange(0, rest@.len() as int));
    }
    let mut r: Vec<LoopExitValueMergeCandidate> = Vec::new();
    assert(exit_models(r@) =~= ordered_exits(models, without, 0));
    while reversed.len() > 0
        invariant
            models == exit_models(list@),
            total == list@.len(),
            reversed@.len() <= total,
            forall|k: int| 0 <= k < reversed@.len() ==> #[trigger] reversed@[k] == list@[total - 1 - k],
            exit_models(r@) == ordered_exits(models, without, (total - reversed@.len()) as nat),
        decreases reversed@.len(),
    {
        let ghost k = total - reversed@.len();
        assert(reversed@[reversed@.len() - 1] == list@[k]);
        let c = reversed.pop().unwrap();
        assert(c@ == models[k]);
        if c.exit != without {
            insert_exit(&mut r, c);
        }
    }
    r
}

impl<'a> LoopContext<'a> {
    /// Notes the values that meet behind the loop.
    pub fn install_refined_repeat_exit_merge(&self, c: &mut LoopCandidate, at: BlockRef)
        requires
            self.wf(),
        ensures
            final(c)@ == (LoopModel {
                exit_values: self.exits_with(old(c)@.exit_values, old(c)@.scope, old(c)@.exits, at),
                ..old(c)@
            }),
    {
        let mut owned = c.body_scope_blocks.clone();
        owned.extend(&c.exits);
        owned.remove(at);
        if let Some(merge) = loop_exit_value_merge_in_block(self.dataflow, at, &owned) {
            let mut values: Vec<LoopExitValueMergeCandidate> = Vec::new();
            std::mem::swap(&mut values, &mut c.exit_value_merges);
            assert(exit_models(values@).len() == values@.len());
            let mut sorted = order_exits(values, at);
            insert_exit(&mut sorted, merge);
            c.exit_value_merges = sorted;
        }
    }

    fn apply_change(
        &self,
        c: &mut LoopCandidate,
        target: BlockRef,
        condition_header: Option<BlockRef>,
        exit_merge: Option<BlockRef>,
    )
        requires
            self.wf(),
            old(c).wf(self.cfg),
            self.cfg.has_block(target),
            condition_header is Some ==> self.cfg.has_block(condition_header->0),
        ensures
            final(c)@ == self.changed(old(c)@, (RepeatChange { target, condition_header, exit_merge, supplement: None })),
            final(c).wf(self.cfg),
    {
        let scope = self.collect_scope(LoopKindHint::RepeatLike, Some(target), &c.blocks, &c.exits, c.header);
        c.kind_hint = LoopKindHint::RepeatLike;
        c.continue_target = Some(target);
        c.condition_header = condition_header;
        c.body_scope_blocks = scope;
        if let Some(m) = exit_merge {
            let ghost before = *c;
            self.install_refined_repeat_exit_merge(c, m);
            assert(c.wf(self.cfg)) by {
                assert(c@ == (LoopModel { exit_values: c@.exit_values, ..before@ }));
                assert(c.header == c@.header && c.blocks@ == c@.blocks && c.body_scope_blocks@ == c@.scope && c.control_blocks@
                    == c@.control && c.exits@ == c@.exits && c.backedges@ == c@.backedges);
                assert(c.continue_target == c@.continue_target && c.preheader == c@.preheader && c.condition_header
                    == c@.condition_header);
            }
        }
    }

    /// Turns loops into `repeat` loops, and adds the expressions that this makes use of; the
    /// expressions come out in order and without repetition.
    pub fn refine_short_circuit_repeat_candidates(
        &self,
        input: &RepeatRefinementInput,
        list: Vec<LoopCandidate>,
    ) -> (r: (Vec<ShortCircuitCandidate>, Vec<LoopCandidate>))
        requires
            self.wf(),
            loops_wf(self.cfg, list@),
            branches_wf(self.cfg, input.branches@),
            shorts_known(self.cfg, input.shorts@),
            shorts_known(self.cfg, input.supplements@),
        ensures
            loop_models(r.1@) == self.all_repeat_refined(input, loop_models(list@)),
            loops_wf(self.cfg, r.1@),
            shorts_ordered((r.0)@),
            shorts_known(self.cfg, (r.0)@),
            forall|code: Seq<usize>| #[trigger] has_code((r.0)@, code) <==> has_code(input.shorts@, code) || exists|k: int|
                0 <= k < input.supplements@.len() && #[trigger] self.takes_supplement(input, loop_models(list@), k)
                    && short_code(&input.supplements@[k]) == code,
            (r.0)@.len() <= input.shorts@.len() + list@.len(),
    {
        let n = list.len();
        let ghost models = loop_models(list@);
        let mut changes: Vec<Option<Change>> = Vec::new();
        let mut shorts = self.sorted_shorts(input.shorts);
        let mut i: usize = 0;
        while i < n
            invariant
                self.wf(),
                loops_wf(self.cfg, list@),
                branches_wf(self.cfg, input.branches@),
                shorts_known(self.cfg, input.shorts@),
                shorts_known(self.cfg, input.supplements@),
                models == loop_models(list@),
                n == list@.len(),
                i <= n,
                changes@.len() == i,
                shorts_ordered(shorts@),
                shorts_known(self.cfg, shorts@),
                shorts@.len() <= input.shorts@.len() + i,
                forall|k: int| 0 <= k < i ==> self.records(input, models, k, #[trigger] changes@[k]),
                forall|code: Seq<usize>| #[trigger] has_code(shorts@, code) <==> has_code(input.shorts@, code) || self.taken_code(
                    input,
                    models,
                    i as int,
                    code,
                ),
            decreases n - i,
        {
            let change = self.find_repeat_change(input, &list, i);
            let ghost before = shorts@;
            let ghost now = self.repeat_change(input, models, i as int);
            let used: Option<usize> = match &change {
                Some(d) => d.supplement,
                None => None,
            };
            assert(match used {
                Some(q) => now is Some && (now->0).supplement == Some(q as int) && q < input.supplements@.len(),
                None => now is None || (now->0).supplement is None,
            });
            if let Some(q) = used {
                self.add_short(&mut shorts, &input.supplements[q]);
            }
            proof {
                assert forall|code: Seq<usize>| #[trigger] has_code(shorts@, code) <==> has_code(input.shorts@, code)
                    || self.taken_code(input, models, i as int + 1, code) by {
                    self.taken_code_next(input, models, i as int, code);
                }
            }
            changes.push(change);
            i = i + 1;
        }
        let mut r = list;
        let mut k: usize = n;
        while k > 0
            invariant
                self.wf(),
                models.len() == n,
                n == r@.len(),
                k <= n,
                changes@.len() == k,
                loops_wf(self.cfg, r@),
                forall|q: int| 0 <= q < k ==> self.records(input, models, q, #[trigger] changes@[q]),
                forall|q: int| 0 <= q < k ==> (#[trigger] r@[q])@ == models[q],
                forall|q: int| k <= q < n ==> (#[trigger] r@[q])@ == self.repeat_refined(input, models, q),
            decreases k,
        {
            k = k - 1;
            let ghost before = r@;
            assert(self.records(input, models, k as int, changes@[k as int]));
            if let Some(d) = changes.pop().unwrap() {
                assert(before[k as int].wf(self.cfg));
                self.apply_change(&mut r[k], d.target, d.condition_header, d.exit_merge);
                assert forall|q: int| 0 <= q < r@.len() implies (#[trigger] r@[q]).wf(self.cfg) by {
                    if q != k {
                        assert(r@[q] == before[q]);
                    }
                }
            }
        }
        assert(loop_models(r@) =~= self.all_repeat_refined(input, models));
        proof {
            assert forall|code: Seq<usize>| #[trigger] has_code(shorts@, code) <==> has_code(input.shorts@, code) || exists|k: int|
                0 <= k < input.supplements@.len() && #[trigger] self.takes_supplement(input, models, k) && short_code(
                    &input.supplements@[k],
                ) == code by {
                if self.taken_code(input, models, n as int, code) {
                    let q = choose|q: int| 0 <= q < n && self.taken_by(input, models, q, code);
                    let s = (self.repeat_change(input, models, q)->0).supplement->0;
                    assert(uses_supplement(self.repeat_change(input, models, q), s));
                    assert(self.takes_supplement(input, models, s));
                }
                if exists|k: int|
                    0 <= k < input.supplements@.len() && #[trigger] self.takes_supplement(input, models, k) && short_code(
                        &input.supplements@[k],
                    ) == code {
                    let k = choose|k: int|
                        0 <= k < input.supplements@.len() && #[trigger] self.takes_supplement(input, models, k) && short_code(
                            &input.supplements@[k],
                        ) == code;
                    let q = choose|q: int| 0 <= q < models.len() && uses_supplement(#[trigger] self.repeat_change(input, models, q), k);
                    assert(self.taken_by(input, models, q, code));
                }
            }
        }
        (shorts, r)
    }

    /// The recorded change is the one that loop `i` undergoes.
    spec fn records(&self, input: &RepeatRefinementInput, models: Seq<LoopModel>, i: int, change: Option<Change>) -> bool {
        match self.repeat_change(input, models, i) {
            Some(d) => change is Some && (change->0).describes(d) && (change->0).wf(self.cfg, input.supplements@.len()),
            None => change is None,
        }
    }

    /// Loop `i` makes use of an additional expression with this code.
    spec fn taken_by(&self, input: &RepeatRefinementInput, models: Seq<LoopModel>, i: int, code: Seq<usize>) -> bool {
        match self.repeat_change(input, models, i) {
            Some(d) => d.supplement is Some && 0 <= d.supplement->0 < input.supplements@.len() && short_code(
                &input.supplements@[d.supplement->0],
            ) == code,
            None => false,
        }
    }

    spec fn taken_code(&self, input: &RepeatRefinementInput, models: Seq<LoopModel>, n: int, code: Seq<usize>) -> bool {
        exists|i: int| 0 <= i < n && self.taken_by(input, models, i, code)
    }

    proof fn taken_code_next(&self, input: &RepeatRefinementInput, models: Seq<LoopModel>, n: int, code: Seq<usize>)
        requires
            n >= 0,
        ensures
            self.taken_code(input, models, n + 1, code) <==> self.taken_code(input, models, n, code) || self.taken_by(
                input,
                models,
                n,
                code,
            ),
    {
        if self.taken_code(input, models, n, code) {
            let i = choose|i: int| 0 <= i < n && self.taken_by(input, models, i, code);
            assert(0 <= i < n + 1 && self.taken_by(input, models, i, code));
        }
        if self.taken_by(input, models, n, code) {
            assert(0 <= n < n + 1 && self.taken_by(input, models, n, code));
        }
    }

    fn add_short(&self, list: &mut Vec<ShortCircuitCandidate>, c: &ShortCircuitCandidate)
        requires
            shorts_ordered(old(list)@),
            shorts_known(self.cfg, old(list)@),
            short_known(self.cfg, c),
        ensures
            shorts_ordered(final(list)@),
            shorts_known(self.cfg, final(list)@),
            forall|code: Seq<usize>| #[trigger] has_code(final(list)@, code) <==> has_code(old(list)@, code) || code == short_code(c),
            final(list)@.len() <= old(list)@.len() + 1,
    {
        let copy = copy_short(c);
        insert_short(list, copy);
    }

    /// The expressions in order, each once.
    fn sorted_shorts(&self, list: &Vec<ShortCircuitCandidate>) -> (r: Vec<ShortCircuitCandidate>)
        requires
            shorts_known(self.cfg, list@),
        ensures
            shorts_ordered(r@),
            shorts_known(self.cfg, r@),
            forall|code: Seq<usize>| #[trigger] has_code(r@, code) <==> has_code(list@, code),
            r@.len() <= list@.len(),
    {
        let mut r: Vec<ShortCircuitCandidate> = Vec::new();
        let n = list.len();
        let mut i: usize = 0;
        while i < n
            invariant
                n == list@.len(),
                i <= n,
                shorts_known(self.cfg, list@),
                shorts_ordered(r@),
                shorts_known(self.cfg, r@),
                r@.len() <= i,
                forall|code: Seq<usize>| #[trigger] has_code(r@, code) <==> has_code(list@.subrange(0, i as int), code),
            decreases n - i,
        {
            self.add_short(&mut r, &list[i]);
            proof {
                let was = list@.subrange(0, i as int);
                let now = list@.subrange(0, i as int + 1);
                assert forall|code: Seq<usize>| #[trigger] has_code(r@, code) <==> has_code(now, code) by {
                    if has_code(was, code) {
                        let q = choose|q: int| 0 <= q < was.len() && short_code(&(#[trigger] was[q])) == code;
                        assert(now[q] == was[q]);
                    }
                    if code == short_code(&list@[i as int]) {
                        assert(short_code(&now[i as int]) == code);
                    }
                    if has_code(now, code) {
                        let q = choose|q: int| 0 <= q < now.len() && short_code(&(#[trigger] now[q])) == code;
                        if q < i {
                            assert(was[q] == now[q]);
                        }
                    }
                }
            }
            i = i + 1;
        }
        assert(list@.subrange(0, n as int) =~= list@);
        r
    }
}

} // verus!
