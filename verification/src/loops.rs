//! The loops of a prototype.

use vstd::prelude::*;

use crate::branches::{is_for, loops_wf};
use crate::cfg::Cfg;
use crate::evidence::{LoopCandidate, LoopKindHint};
use crate::helpers::{block_of, fits, known_blocks, ranges_fit};
use crate::ids::BlockRef;
use crate::idset::IdSet;
use crate::lir::{LowInstr, LoweredProto};
use crate::loop_partition::natural_wf;
use crate::loop_shape::{
    find_generic, find_init, generic_at, init_at, repeat_condition,
    repeat_continue_target_via_backedge_pad, LoopContext,
};
use crate::loop_values::{loop_models, LoopModel};
use crate::loopforest::NaturalLoop;
use crate::refine::{find_fork, fork_of};

verus! {

impl<'a> LoopContext<'a> {
    /// The loops of the first `n` natural loops.
    pub open spec fn all_parts(&self, loops: Seq<NaturalLoop>, n: nat) -> Seq<LoopModel>
        decreases n,
    {
        if n == 0 {
            Seq::empty()
        } else {
            self.all_parts(loops, (n - 1) as nat) + self.parts(&loops[n - 1])
        }
    }

    /// The generic `for` loops that never come back, among the first `n` blocks that are
    /// reachable and head no loop yet.
    pub open spec fn lone_generics(&self, taken: Set<BlockRef>, n: nat) -> Seq<LoopModel>
        decreases n,
    {
        if n == 0 {
            Seq::empty()
        } else {
            let b = BlockRef((n - 1) as usize);
            let rest = self.lone_generics(taken, (n - 1) as nat);
            if self.cfg.is_reachable(b) && !taken.contains(b) && self.degenerate_generic(b) is Some {
                rest.push(self.degenerate_generic(b)->0)
            } else {
                rest
            }
        }
    }

    /// The numeric `for` loops that never come back, opened by the first `n` blocks.
    pub open spec fn lone_numerics(&self, taken: Set<BlockRef>, n: nat) -> Seq<LoopModel>
        decreases n,
    {
        if n == 0 {
            Seq::empty()
        } else {
            let b = BlockRef((n - 1) as usize);
            let rest = self.lone_numerics(taken, (n - 1) as nat);
            if self.cfg.is_reachable(b) && self.degenerate_numeric(taken, b) is Some {
                rest.push(self.degenerate_numeric(taken, b)->0)
            } else {
                rest
            }
        }
    }
}

/// The headers of the loops, or only of the numeric `for` loops.
pub open spec fn headers_of(list: Seq<LoopModel>, numeric_only: bool) -> Set<BlockRef> {
    Set::new(
        |b: BlockRef|
            exists|i: int|
                0 <= i < list.len() && (#[trigger] list[i]).header == b && (numeric_only ==> list[i].kind
                    == LoopKindHint::NumericForLike),
    )
}

/// `a` may stand before `b`: smaller header, or the same header and not more blocks.
pub open spec fn in_order(a: LoopModel, b: LoopModel) -> bool {
    a.header.0 < b.header.0 || (a.header.0 == b.header.0 && a.blocks.len() <= b.blocks.len())
}

/// The number of leading elements that may stand before `x`.
pub open spec fn place_for(list: Seq<LoopModel>, x: LoopModel, n: nat) -> nat
    decreases list.len() - n,
{
    if n < list.len() && in_order(list[n as int], x) {
        place_for(list, x, n + 1)
    } else {
        n
    }
}

/// The first `n` loops by header and size, loops with the same in their order.
pub open spec fn ordered(list: Seq<LoopModel>, n: nat) -> Seq<LoopModel>
    decreases n,
{
    if n == 0 {
        Seq::empty()
    } else {
        let rest = ordered(list, (n - 1) as nat);
        let x = list[n - 1];
        rest.insert(place_for(rest, x, 0) as int, x)
    }
}

/// Where a `for` loop goes on when it is done.
pub open spec fn normal_exit(proto: &LoweredProto, cfg: &Cfg, c: LoopModel) -> Option<BlockRef> {
    if c.kind == LoopKindHint::NumericForLike && c.preheader is Some {
        match init_at(proto, cfg, c.preheader->0) {
            Some(i) => Some(block_of(cfg, i.exit_target)),
            None => None,
        }
    } else if c.kind == LoopKindHint::GenericForLike {
        match generic_at(proto, cfg, c.header) {
            Some(i) => Some(block_of(cfg, i.exit_target)),
            None => None,
        }
    } else {
        None
    }
}

/// Loop `j` is a smaller `for` loop in the scope of loop `i` that goes on at the exit of `i`.
pub open spec fn for_goes_on(proto: &LoweredProto, cfg: &Cfg, list: Seq<LoopModel>, i: int, j: int) -> bool {
    list[i].exits.len() == 1 && normal_exit(proto, cfg, list[j]) is Some && list[i].exits.contains(
        normal_exit(proto, cfg, list[j])->0,
    ) && list[j].blocks.len() < list[i].blocks.len() && list[j].blocks.subset_of(list[i].scope)
}

/// An endless loop whose only exit is where a `for` loop inside goes on is not endless.
pub open spec fn nested_refined(proto: &LoweredProto, cfg: &Cfg, list: Seq<LoopModel>, i: int) -> LoopModel {
    if list[i].kind == LoopKindHint::WhileTrueLike && exists|j: int|
        0 <= j < list.len() && #[trigger] for_goes_on(proto, cfg, list, i, j) {
        LoopModel { kind: LoopKindHint::Unknown, scope: list[i].blocks, ..list[i] }
    } else {
        list[i]
    }
}

/// Both blocks branch on the same question.
pub open spec fn same_subject(proto: &LoweredProto, cfg: &Cfg, a: BlockRef, b: BlockRef) -> bool {
    match (cfg.terminator_of(proto.instrs@, a), cfg.terminator_of(proto.instrs@, b)) {
        (Some(LowInstr::Branch(x)), Some(LowInstr::Branch(y))) => x.cond.subject == y.cond.subject,
        _ => false,
    }
}

pub fn branch_conditions_share_subject(proto: &LoweredProto, cfg: &Cfg, left: BlockRef, right: BlockRef) -> (r: bool)
    requires
        fits(proto, cfg),
        cfg.has_block(left),
        cfg.has_block(right),
    ensures
        r == same_subject(proto, cfg, left, right),
{
    proof {
        ranges_fit(proto, cfg, left);
        ranges_fit(proto, cfg, right);
    }
    match (cfg.terminator(proto.instrs.as_slice(), left), cfg.terminator(proto.instrs.as_slice(), right)) {
        (Some(LowInstr::Branch(x)), Some(LowInstr::Branch(y))) => x.cond.subject == y.cond.subject,
        _ => false,
    }
}

/// Block `b` starts loop `c`: it is its header or its preheader.
pub open spec fn starts(c: LoopModel, b: BlockRef) -> bool {
    c.header == b || c.preheader == Some(b)
}

/// From the header of loop `i` one way leads out of it and into loop `j`, which lies in
/// `scope`.
pub open spec fn enters_nested(cfg: &Cfg, list: Seq<LoopModel>, i: int, j: int, scope: Set<BlockRef>) -> bool {
    j != i && list[j].blocks.subset_of(scope) && match fork_of(cfg, list[i].header) {
        Some(f) => (!list[i].blocks.contains(f.then_entry) && starts(list[j], f.then_entry)) || (!list[i].blocks.contains(
            f.else_entry,
        ) && starts(list[j], f.else_entry)),
        None => false,
    }
}

/// Loop `j` is a `for` loop around loop `i` that shares an exit with it.
pub open spec fn breaks_for(list: Seq<LoopModel>, i: int, j: int) -> bool {
    j != i && is_for(list[j].kind) && list[j].scope.contains(list[i].header) && !list[i].exits.disjoint(list[j].exits)
}

impl<'a> LoopContext<'a> {
    /// The condition behind the only back edge.
    pub open spec fn tail_condition(&self, c: LoopModel) -> Option<BlockRef> {
        if c.backedges.len() == 1 {
            repeat_condition(self.proto, self.cfg, self.cfg.edge(c.backedges[0]).from, c.blocks)
        } else {
            None
        }
    }

    /// The loop's tail condition makes it a `repeat`.
    pub open spec fn is_repeat(&self, list: Seq<LoopModel>, i: int) -> bool {
        let c = list[i];
        match self.tail_condition(c) {
            Some(t) => {
                let scope = self.scope_of(LoopKindHint::RepeatLike, Some(t), c.blocks, c.exits, c.header);
                (c.kind == LoopKindHint::WhileLike && t != c.header && same_subject(self.proto, self.cfg, c.header, t) && exists|j: int|
                    0 <= j < list.len() && #[trigger] enters_nested(self.cfg, list, i, j, scope)) || (c.kind
                    == LoopKindHint::WhileTrueLike && exists|j: int| 0 <= j < list.len() && #[trigger] breaks_for(list, i, j))
            },
            None => false,
        }
    }

    pub open spec fn ambiguous_refined(&self, list: Seq<LoopModel>, i: int) -> LoopModel {
        if self.is_repeat(list, i) {
            let c = list[i];
            let t = self.tail_condition(c);
            LoopModel {
                kind: LoopKindHint::RepeatLike,
                continue_target: t,
                scope: self.scope_of(LoopKindHint::RepeatLike, t, c.blocks, c.exits, c.header),
                ..c
            }
        } else {
            list[i]
        }
    }

    /// All loops, found and put in order.
    pub open spec fn found(&self, natural: Seq<NaturalLoop>) -> Seq<LoopModel> {
        let parts = self.all_parts(natural, natural.len());
        let n = self.cfg.blocks@.len();
        let list = parts + self.lone_generics(headers_of(parts, false), n) + self.lone_numerics(headers_of(parts, true), n);
        ordered(list, list.len())
    }

    pub open spec fn all_nested_refined(&self, list: Seq<LoopModel>) -> Seq<LoopModel> {
        Seq::new(list.len(), |i: int| nested_refined(self.proto, self.cfg, list, i))
    }

    pub open spec fn all_ambiguous_refined(&self, list: Seq<LoopModel>) -> Seq<LoopModel> {
        Seq::new(list.len(), |i: int| self.ambiguous_refined(list, i))
    }

    /// All loops of the prototype.
    pub open spec fn all_loops(&self, natural: Seq<NaturalLoop>) -> Seq<LoopModel> {
        self.all_ambiguous_refined(self.all_nested_refined(self.found(natural)))
    }
}

pub fn for_normal_exit(proto: &LoweredProto, cfg: &Cfg, c: &LoopCandidate) -> (r: Option<BlockRef>)
    requires
        fits(proto, cfg),
        c.wf(cfg),
    ensures
        r == normal_exit(proto, cfg, c@),
{
    match c.kind_hint {
        LoopKindHint::NumericForLike => match c.preheader {
            None => None,
            Some(p) => match find_init(proto, cfg, p) {
                Some(i) => Some(cfg.instr_to_block[i.exit_target.0]),
                None => None,
            },
        },
        LoopKindHint::GenericForLike => match find_generic(proto, cfg, c.header) {
            Some(i) => Some(cfg.instr_to_block[i.exit_target.0]),
            None => None,
        },
        _ => None,
    }
}

/// Puts a loop in its place.
fn insert_ordered(list: &mut Vec<LoopCandidate>, c: LoopCandidate)
    ensures
        loop_models(final(list)@) == loop_models(old(list)@).insert(
            place_for(loop_models(old(list)@), c@, 0) as int,
            c@,
        ),
        place_for(loop_models(old(list)@), c@, 0) <= old(list)@.len(),
        final(list)@ == old(list)@.insert(place_for(loop_models(old(list)@), c@, 0) as int, c),
{
    let n = list.len();
    let ghost models = loop_models(list@);
    let mut at: usize = 0;
    while at < n && (list[at].header.0 < c.header.0 || (list[at].header.0 == c.header.0 && list[at].blocks.len() <= c.blocks.len()))
        invariant
            list@ == old(list)@,
            n == list@.len(),
            models == loop_models(list@),
            at <= n,
            place_for(models, c@, 0) == place_for(models, c@, at as nat),
        decreases n - at,
    {
        assert(models[at as int] == list@[at as int]@);
        at = at + 1;
    }
    proof {
        if at < n {
            assert(models[at as int] == list@[at as int]@);
        }
        assert(place_for(models, c@, at as nat) == at);
    }
    list.insert(at, c);
    assert(loop_models(list@) =~= models.insert(at as int, c@));
}

/// Sorts by header, then by size, keeping the order of equals.
fn sort_loops(cfg: &Cfg, list: Vec<LoopCandidate>) -> (r: Vec<LoopCandidate>)
    requires
        loops_wf(cfg, list@),
    ensures
        loop_models(r@) == ordered(loop_models(list@), list@.len()),
        loops_wf(cfg, r@),
{
    let ghost models = loop_models(list@);
    let total = list.len();
    let mut rest = list;
    let mut reversed: Vec<LoopCandidate> = Vec::new();
    // Taken from the back and handed out from the back again, the loops come in order.
    while rest.len() > 0
        invariant
            models == loop_models(list@),
            total == list@.len(),
            rest@.len() + reversed@.len() == total,
            rest@ == list@.subrange(0, rest@.len() as int),
            forall|k: int| 0 <= k < reversed@.len() ==> #[trigger] reversed@[k] == list@[total - 1 - k],
        decreases rest@.len(),
    {
        let c = rest.pop().unwrap();
        reversed.push(c);
        assert(rest@ =~= list@.subrange(0, rest@.len() as int));
    }
    let mut r: Vec<LoopCandidate> = Vec::new();
    assert(loop_models(r@) =~= ordered(models, 0));
    while reversed.len() > 0
        invariant
            models == loop_models(list@),
            total == list@.len(),
            loops_wf(cfg, list@),
            reversed@.len() <= total,
            forall|k: int| 0 <= k < reversed@.len() ==> #[trigger] reversed@[k] == list@[total - 1 - k],
            loop_models(r@) == ordered(models, (total - reversed@.len()) as nat),
            loops_wf(cfg, r@),
        decreases reversed@.len(),
    {
        let ghost k = total - reversed@.len();
        let ghost before = r@;
        assert(reversed@[reversed@.len() - 1] == list@[k]);
        let c = reversed.pop().unwrap();
        assert(c@ == models[k]);
        assert(list@[k].wf(cfg));
        insert_ordered(&mut r, c);
        proof {
            assert forall|i: int| 0 <= i < r@.len() implies (#[trigger] r@[i]).wf(cfg) by {
                let at = place_for(loop_models(before), c@, 0) as int;
                if i < at {
                    assert(r@[i] == before[i]);
                } else if i > at {
                    assert(r@[i] == before[i - 1]);
                }
            }
        }
    }
    r
}

fn collect_headers(list: &Vec<LoopCandidate>, numeric_only: bool) -> (r: IdSet<BlockRef>)
    ensures
        r@ == headers_of(loop_models(list@), numeric_only),
{
    let n = list.len();
    let ghost models = loop_models(list@);
    let mut r: IdSet<BlockRef> = IdSet::new();
    let mut i: usize = 0;
    while i < n
        invariant
            models == loop_models(list@),
            n == list@.len(),
            i <= n,
            forall|b: BlockRef| #[trigger] r@.contains(b) <==> exists|j: int|
                0 <= j < i && (#[trigger] models[j]).header == b && (numeric_only ==> models[j].kind
                    == LoopKindHint::NumericForLike),
        decreases n - i,
    {
        let ghost before = r@;
        let is_numeric = match list[i].kind_hint {
            LoopKindHint::NumericForLike => true,
            _ => false,
        };
        assert(models[i as int] == list@[i as int]@);
        let takes = !numeric_only || is_numeric;
        if takes {
            r.insert(list[i].header);
        }
        proof {
            assert forall|b: BlockRef| #[trigger] r@.contains(b) <==> exists|j: int|
                0 <= j < i + 1 && (#[trigger] models[j]).header == b && (numeric_only ==> models[j].kind
                    == LoopKindHint::NumericForLike) by {
                if before.contains(b) {
                    let j = choose|j: int|
                        0 <= j < i && (#[trigger] models[j]).header == b && (numeric_only ==> models[j].kind
                            == LoopKindHint::NumericForLike);
                    assert(models[j].header == b);
                }
                if exists|j: int|
                    0 <= j < i + 1 && (#[trigger] models[j]).header == b && (numeric_only ==> models[j].kind
                        == LoopKindHint::NumericForLike) {
                    let j = choose|j: int|
                        0 <= j < i + 1 && (#[trigger] models[j]).header == b && (numeric_only ==> models[j].kind
                            == LoopKindHint::NumericForLike);
                    if j < i {
                        assert(before.contains(b));
                    }
                }
                if r@.contains(b) && !before.contains(b) {
                    assert(models[i as int].header == b);
                }
            }
        }
        i = i + 1;
    }
    assert(r@ =~= headers_of(models, numeric_only));
    r
}

/// Appends the loops of another list.
fn append_loops(cfg: &Cfg, list: &mut Vec<LoopCandidate>, more: Vec<LoopCandidate>)
    requires
        loops_wf(cfg, old(list)@),
        loops_wf(cfg, more@),
    ensures
        loop_models(final(list)@) == loop_models(old(list)@) + loop_models(more@),
        loops_wf(cfg, final(list)@),
{
    let mut more = more;
    let ghost a = list@;
    let ghost b = more@;
    list.append(&mut more);
    proof {
        assert(loop_models(list@) =~= loop_models(a) + loop_models(b));
        assert forall|i: int| 0 <= i < list@.len() implies (#[trigger] list@[i]).wf(cfg) by {
            if i < a.len() {
                assert(list@[i] == a[i]);
            } else {
                assert(list@[i] == b[i - a.len()]);
            }
        }
    }
}

impl<'a> LoopContext<'a> {
    fn collect_parts(&self, natural: &Vec<NaturalLoop>) -> (r: Vec<LoopCandidate>)
        requires
            self.wf(),
            forall|i: int| 0 <= i < natural@.len() ==> natural_wf(self.cfg, &(#[trigger] natural@[i])),
        ensures
            loop_models(r@) == self.all_parts(natural@, natural@.len()),
            loops_wf(self.cfg, r@),
    {
        let n = natural.len();
        let mut r: Vec<LoopCandidate> = Vec::new();
        let mut i: usize = 0;
        assert(loop_models(r@) =~= self.all_parts(natural@, 0));
        while i < n
            invariant
                self.wf(),
                forall|i: int| 0 <= i < natural@.len() ==> natural_wf(self.cfg, &(#[trigger] natural@[i])),
                n == natural@.len(),
                i <= n,
                loop_models(r@) == self.all_parts(natural@, i as nat),
                loops_wf(self.cfg, r@),
            decreases n - i,
        {
            assert(natural_wf(self.cfg, &natural@[i as int]));
            let more = self.partition(&natural[i]);
            append_loops(self.cfg, &mut r, more);
            i = i + 1;
        }
        r
    }

    pub fn analyze_degenerate_generic_for_loops(&self, taken: &IdSet<BlockRef>) -> (r: Vec<LoopCandidate>)
        requires
            self.wf(),
        ensures
            loop_models(r@) == self.lone_generics(taken@, self.cfg.blocks@.len()),
            loops_wf(self.cfg, r@),
    {
        let n = self.cfg.blocks.len();
        let mut r: Vec<LoopCandidate> = Vec::new();
        let mut i: usize = 0;
        assert(loop_models(r@) =~= self.lone_generics(taken@, 0));
        while i < n
            invariant
                self.wf(),
                n == self.cfg.blocks@.len(),
                i <= n,
                loop_models(r@) == self.lone_generics(taken@, i as nat),
                loops_wf(self.cfg, r@),
            decreases n - i,
        {
            let b = BlockRef(i);
            let ghost before = r@;
            if self.cfg.reachable_blocks.contains(b) && !taken.contains(b) {
                if let Some(c) = self.degenerate_generic_for_loop(b) {
                    r.push(c);
                    assert(loop_models(r@) =~= loop_models(before).push(c@));
                }
            }
            i = i + 1;
        }
        r
    }

    fn collect_lone_numerics(&self, taken: &IdSet<BlockRef>) -> (r: Vec<LoopCandidate>)
        requires
            self.wf(),
        ensures
            loop_models(r@) == self.lone_numerics(taken@, self.cfg.blocks@.len()),
            loops_wf(self.cfg, r@),
    {
        let n = self.cfg.blocks.len();
        let mut r: Vec<LoopCandidate> = Vec::new();
        let mut i: usize = 0;
        assert(loop_models(r@) =~= self.lone_numerics(taken@, 0));
        while i < n
            invariant
                self.wf(),
                n == self.cfg.blocks@.len(),
                i <= n,
                loop_models(r@) == self.lone_numerics(taken@, i as nat),
                loops_wf(self.cfg, r@),
            decreases n - i,
        {
            let b = BlockRef(i);
            let ghost before = r@;
            if self.cfg.reachable_blocks.contains(b) {
                if let Some(c) = self.degenerate_numeric_for_loop(taken, b) {
                    r.push(c);
                    assert(loop_models(r@) =~= loop_models(before).push(c@));
                }
            }
            i = i + 1;
        }
        r
    }

    fn find_for_going_on(&self, list: &Vec<LoopCandidate>, i: usize) -> (r: bool)
        requires
            self.wf(),
            loops_wf(self.cfg, list@),
            i < list@.len(),
        ensures
            r == exists|j: int| 0 <= j < list@.len() && #[trigger] for_goes_on(self.proto, self.cfg, loop_models(list@), i as int, j),
    {
        let n = list.len();
        let ghost models = loop_models(list@);
        let outer = &list[i];
        if outer.exits.len() != 1 {
            return false;
        }
        let mut j: usize = 0;
        while j < n
            invariant
                self.wf(),
                loops_wf(self.cfg, list@),
                models == loop_models(list@),
                n == list@.len(),
                i < n,
                *outer == list@[i as int],
                outer.exits@.len() == 1,
                j <= n,
                forall|k: int| 0 <= k < j ==> !#[trigger] for_goes_on(self.proto, self.cfg, models, i as int, k),
            decreases n - j,
        {
            let c = &list[j];
            assert(list@[j as int].wf(self.cfg));
            assert(models[j as int] == c@ && models[i as int] == outer@);
            let hit = match for_normal_exit(self.proto, self.cfg, c) {
                Some(x) => outer.exits.contains(x) && c.blocks.len() < outer.blocks.len() && c.blocks.is_subset(
                    &outer.body_scope_blocks,
                ),
                None => false,
            };
            if hit {
                assert(for_goes_on(self.proto, self.cfg, models, i as int, j as int));
                return true;
            }
            j = j + 1;
        }
        false
    }

    /// Demotes endless loops whose only exit is where a `for` loop inside goes on.
    pub fn refine_nested_for_exit_loops(&self, list: Vec<LoopCandidate>) -> (r: Vec<LoopCandidate>)
        requires
            self.wf(),
            loops_wf(self.cfg, list@),
        ensures
            loop_models(r@) == self.all_nested_refined(loop_models(list@)),
            loops_wf(self.cfg, r@),
    {
        let n = list.len();
        let ghost models = loop_models(list@);
        let mut demoted: Vec<bool> = Vec::new();
        let mut i: usize = 0;
        while i < n
            invariant
                self.wf(),
                loops_wf(self.cfg, list@),
                models == loop_models(list@),
                n == list@.len(),
                i <= n,
                demoted@.len() == i,
                forall|k: int| 0 <= k < i ==> #[trigger] demoted@[k] == (models[k].kind == LoopKindHint::WhileTrueLike && exists|j: int|
                    0 <= j < models.len() && #[trigger] for_goes_on(self.proto, self.cfg, models, k, j)),
            decreases n - i,
        {
            let endless = match list[i].kind_hint {
                LoopKindHint::WhileTrueLike => true,
                _ => false,
            };
            assert(models[i as int] == list@[i as int]@);
            demoted.push(endless && self.find_for_going_on(&list, i));
            i = i + 1;
        }
        let mut r = list;
        let mut k: usize = 0;
        while k < n
            invariant
                self.wf(),
                models.len() == n,
                n == r@.len(),
                demoted@.len() == n,
                k <= n,
                loops_wf(self.cfg, r@),
                forall|q: int| 0 <= q < k ==> (#[trigger] r@[q])@ == nested_refined(self.proto, self.cfg, models, q),
                forall|q: int| k <= q < n ==> (#[trigger] r@[q])@ == models[q],
                forall|k: int| 0 <= k < n ==> #[trigger] demoted@[k] == (models[k].kind == LoopKindHint::WhileTrueLike && exists|j: int|
                    0 <= j < models.len() && #[trigger] for_goes_on(self.proto, self.cfg, models, k, j)),
            decreases n - k,
        {
            if demoted[k] {
                let scope = r[k].blocks.clone();
                r[k].kind_hint = LoopKindHint::Unknown;
                r[k].body_scope_blocks = scope;
            }
            k = k + 1;
        }
        assert(loop_models(r@) =~= self.all_nested_refined(models));
        r
    }
}

impl<'a> LoopContext<'a> {
    fn find_tail_condition(&self, c: &LoopCandidate) -> (r: Option<BlockRef>)
        requires
            self.wf(),
            c.wf(self.cfg),
        ensures
            r == self.tail_condition(c@),
            r is Some ==> self.cfg.has_block(r->0),
    {
        if c.backedges.len() != 1 {
            return None;
        }
        let e = c.backedges[0];
        assert(self.cfg.has_edge(c.backedges@[0]));
        repeat_continue_target_via_backedge_pad(self.proto, self.cfg, self.cfg.edges[e.0].from, &c.blocks)
    }

    fn find_entered(&self, list: &Vec<LoopCandidate>, i: usize, scope: &IdSet<BlockRef>) -> (r: bool)
        requires
            self.wf(),
            loops_wf(self.cfg, list@),
            i < list@.len(),
        ensures
            r == exists|j: int| 0 <= j < list@.len() && #[trigger] enters_nested(self.cfg, loop_models(list@), i as int, j, scope@),
    {
        let n = list.len();
        let ghost models = loop_models(list@);
        let c = &list[i];
        assert(list@[i as int].wf(self.cfg));
        let f = match find_fork(self.cfg, c.header) {
            None => {
                assert forall|j: int| 0 <= j < list@.len() implies !#[trigger] enters_nested(self.cfg, models, i as int, j, scope@) by {
                    assert(models[i as int] == c@);
                }
                return false;
            },
            Some(f) => f,
        };
        let then_out = !c.blocks.contains(f.then_entry);
        let else_out = !c.blocks.contains(f.else_entry);
        let mut j: usize = 0;
        while j < n
            invariant
                models == loop_models(list@),
                n == list@.len(),
                i < n,
                *c == list@[i as int],
                fork_of(self.cfg, c.header) == Some(f),
                then_out == !c.blocks@.contains(f.then_entry),
                else_out == !c.blocks@.contains(f.else_entry),
                j <= n,
                forall|k: int| 0 <= k < j ==> !#[trigger] enters_nested(self.cfg, models, i as int, k, scope@),
            decreases n - j,
        {
            let d = &list[j];
            assert(models[j as int] == d@ && models[i as int] == c@);
            let by_then = then_out && (d.header == f.then_entry || d.preheader == Some(f.then_entry));
            let by_else = else_out && (d.header == f.else_entry || d.preheader == Some(f.else_entry));
            if j != i && (by_then || by_else) && d.blocks.is_subset(scope) {
                assert(enters_nested(self.cfg, models, i as int, j as int, scope@));
                return true;
            }
            j = j + 1;
        }
        false
    }

    fn find_broken_for(&self, list: &Vec<LoopCandidate>, i: usize) -> (r: bool)
        requires
            i < list@.len(),
        ensures
            r == exists|j: int| 0 <= j < list@.len() && #[trigger] breaks_for(loop_models(list@), i as int, j),
    {
        let n = list.len();
        let ghost models = loop_models(list@);
        let c = &list[i];
        let mut j: usize = 0;
        while j < n
            invariant
                models == loop_models(list@),
                n == list@.len(),
                i < n,
                *c == list@[i as int],
                j <= n,
                forall|k: int| 0 <= k < j ==> !#[trigger] breaks_for(models, i as int, k),
            decreases n - j,
        {
            let d = &list[j];
            assert(models[j as int] == d@ && models[i as int] == c@);
            let is_for_loop = match d.kind_hint {
                LoopKindHint::NumericForLike | LoopKindHint::GenericForLike => true,
                _ => false,
            };
            if j != i && is_for_loop && d.body_scope_blocks.contains(c.header) && !c.exits.is_disjoint(&d.exits) {
                assert(breaks_for(models, i as int, j as int));
                return true;
            }
            j = j + 1;
        }
        false
    }

    /// The scope that the loop has as a `repeat`, when it is one.
    fn repeat_scope(&self, list: &Vec<LoopCandidate>, i: usize) -> (r: Option<(BlockRef, IdSet<BlockRef>)>)
        requires
            self.wf(),
            loops_wf(self.cfg, list@),
            i < list@.len(),
        ensures
            ({
                let models = loop_models(list@);
                let c = models[i as int];
                match r {
                    Some((t, scope)) => self.is_repeat(models, i as int) && self.tail_condition(c) == Some(t) && scope@ == self.scope_of(
                        LoopKindHint::RepeatLike,
                        Some(t),
                        c.blocks,
                        c.exits,
                        c.header,
                    ) && known_blocks(self.cfg, scope@) && self.cfg.has_block(t),
                    None => !self.is_repeat(models, i as int),
                }
            }),
    {
        let c = &list[i];
        assert(list@[i as int].wf(self.cfg));
        assert(loop_models(list@)[i as int] == c@);
        let kind = match c.kind_hint {
            LoopKindHint::WhileLike => 1u8,
            LoopKindHint::WhileTrueLike => 2u8,
            _ => 0u8,
        };
        if kind == 0u8 {
            return None;
        }
        let t = match self.find_tail_condition(c) {
            None => {
                return None;
            },
            Some(t) => t,
        };
        let scope = self.collect_scope(LoopKindHint::RepeatLike, Some(t), &c.blocks, &c.exits, c.header);
        let hit = if kind == 1u8 {
            t != c.header && branch_conditions_share_subject(self.proto, self.cfg, c.header, t) && self.find_entered(list, i, &scope)
        } else {
            self.find_broken_for(list, i)
        };
        proof {
            let models = loop_models(list@);
            assert(models.len() == list@.len());
            assert(self.tail_condition(models[i as int]) == Some(t));
            let wide = self.scope_of(
                LoopKindHint::RepeatLike,
                Some(t),
                models[i as int].blocks,
                models[i as int].exits,
                models[i as int].header,
            );
            assert(scope@ == wide);
            if kind == 1u8 && hit {
                let j = choose|j: int| 0 <= j < list@.len() && #[trigger] enters_nested(self.cfg, models, i as int, j, scope@);
                assert(enters_nested(self.cfg, models, i as int, j, wide));
            }
        }
        if hit {
            Some((t, scope))
        } else {
            None
        }
    }

    /// Finds the `repeat` loops among those that look like `while` loops.
    pub fn refine_ambiguous_repeat_candidates(&self, list: Vec<LoopCandidate>) -> (r: Vec<LoopCandidate>)
        requires
            self.wf(),
            loops_wf(self.cfg, list@),
        ensures
            loop_models(r@) == self.all_ambiguous_refined(loop_models(list@)),
            loops_wf(self.cfg, r@),
    {
        let n = list.len();
        let ghost models = loop_models(list@);
        let mut changes: Vec<Option<(BlockRef, IdSet<BlockRef>)>> = Vec::new();
        let mut i: usize = 0;
        while i < n
            invariant
                self.wf(),
                loops_wf(self.cfg, list@),
                models == loop_models(list@),
                n == list@.len(),
                i <= n,
                changes@.len() == i,
                forall|k: int| 0 <= k < i ==> change_ok(self, models, k, #[trigger] changes@[k]),
            decreases n - i,
        {
            let change = self.repeat_scope(&list, i);
            changes.push(change);
            i = i + 1;
        }
        let mut r = list;
        let mut k: usize = n;
        while k > 0
            invariant
                self.wf(),
                models.len() == n,
                n == r@.len(),
                k <= n,
                changes@.len() == k,
                loops_wf(self.cfg, r@),
                forall|q: int| 0 <= q < k ==> change_ok(self, models, q, #[trigger] changes@[q]),
                forall|q: int| 0 <= q < k ==> (#[trigger] r@[q])@ == models[q],
                forall|q: int| k <= q < n ==> (#[trigger] r@[q])@ == self.ambiguous_refined(models, q),
            decreases k,
        {
            k = k - 1;
            let ghost change = changes@[k as int];
            assert(change_ok(self, models, k as int, changes@[k as int]));
            if let Some((t, scope)) = changes.pop().unwrap() {
                r[k].kind_hint = LoopKindHint::RepeatLike;
                r[k].continue_target = Some(t);
                r[k].body_scope_blocks = scope;
            }
        }
        assert(loop_models(r@) =~= self.all_ambiguous_refined(models));
        r
    }

    /// Finds the loops of the prototype.
    pub fn analyze_loops(&self) -> (r: Vec<LoopCandidate>)
        requires
            self.wf(),
            forall|i: int| 0 <= i < self.graph.natural_loops@.len() ==> natural_wf(self.cfg, &(#[trigger] self.graph.natural_loops@[i])),
        ensures
            loop_models(r@) == self.all_loops(self.graph.natural_loops@),
            loops_wf(self.cfg, r@),
    {
        let mut list = self.collect_parts(&self.graph.natural_loops);
        let taken = collect_headers(&list, false);
        let numeric = collect_headers(&list, true);
        let generics = self.analyze_degenerate_generic_for_loops(&taken);
        append_loops(self.cfg, &mut list, generics);
        let numerics = self.collect_lone_numerics(&numeric);
        append_loops(self.cfg, &mut list, numerics);
        let sorted = sort_loops(self.cfg, list);
        let nested = self.refine_nested_for_exit_loops(sorted);
        self.refine_ambiguous_repeat_candidates(nested)
    }
}

/// The recorded change is the one that the loop undergoes.
spec fn change_ok(ctx: &LoopContext, models: Seq<LoopModel>, i: int, change: Option<(BlockRef, IdSet<BlockRef>)>) -> bool {
    let c = models[i];
    match change {
        Some((t, scope)) => ctx.is_repeat(models, i) && ctx.tail_condition(c) == Some(t) && scope@ == ctx.scope_of(
            LoopKindHint::RepeatLike,
            Some(t),
            c.blocks,
            c.exits,
            c.header,
        ) && known_blocks(ctx.cfg, scope@) && ctx.cfg.has_block(t),
        None => !ctx.is_repeat(models, i),
    }
}

} // verus!
