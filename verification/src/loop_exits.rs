//! Where the exits of a loop go on, and what belongs to the scope of its body.

use vstd::prelude::*;

use crate::cfg::{Cfg, EdgeKind};
use crate::dataflow::DataflowFacts;
use crate::evidence::{LoopExitValueMergeCandidate, LoopKindHint};
use crate::flood::{flood, floods_to, mask_set, mask_to_set, step_in};
use crate::graph::GraphFacts;
use crate::helpers::{block_of, fits, has_link, known_blocks, ranges_fit, targets_exist};
use crate::ids::{rank_less, BlockRef, EdgeRef, Ranked};
use crate::idset::IdSet;
use crate::lir::{LowInstr, LoweredProto};
use crate::loop_values::{exit_merge, exit_models, loop_exit_value_merge_in_block, ExitModel};
use crate::search::{first_where, first_where_stable};
use crate::walk::reaches;

verus! {

/// The instructions from `start` up to `end` only close scopes.
pub open spec fn only_closes(proto: &LoweredProto, start: int, end: int) -> bool {
    forall|i: int| start <= i < end ==> (#[trigger] proto.instrs@[i]) is Close
}

/// The target of a block that closes scopes, if anything, and jumps.
pub open spec fn close_jump(proto: &LoweredProto, cfg: &Cfg, b: BlockRef) -> Option<BlockRef> {
    match cfg.terminator_of(proto.instrs@, b) {
        Some(LowInstr::Jump(j)) => if only_closes(proto, cfg.range(b).start.0 as int, cfg.range(b).end_at() - 1) {
            Some(block_of(cfg, j.target))
        } else {
            None
        },
        _ => None,
    }
}

/// Whether the instructions from `start` up to `end` only close scopes.
pub fn check_only_closes(proto: &LoweredProto, start: usize, end: usize) -> (r: bool)
    requires
        end <= proto.instrs@.len(),
    ensures
        r == only_closes(proto, start as int, end as int),
{
    let mut i: usize = start;
    while i < end
        invariant
            end <= proto.instrs@.len(),
            start <= i,
            forall|j: int| start <= j < i ==> (#[trigger] proto.instrs@[j]) is Close,
        decreases end - i,
    {
        match proto.instrs[i] {
            LowInstr::Close(_) => {},
            _ => {
                assert(!(proto.instrs@[i as int] is Close));
                return false;
            },
        }
        i = i + 1;
    }
    true
}

pub fn transparent_jump_target(proto: &LoweredProto, cfg: &Cfg, block: BlockRef) -> (r: Option<BlockRef>)
    requires
        fits(proto, cfg),
        cfg.has_block(block),
    ensures
        r == close_jump(proto, cfg, block),
        r is Some ==> cfg.has_block(r->0),
{
    proof {
        ranges_fit(proto, cfg, block);
    }
    let range = cfg.blocks[block.0].instrs;
    match cfg.terminator(proto.instrs.as_slice(), block) {
        Some(LowInstr::Jump(j)) => {
            assert(targets_exist(proto.instrs@[cfg.range(block).end_at() - 1], proto.instrs@.len()));
            if check_only_closes(proto, range.start.0, range.end() - 1) {
                Some(cfg.instr_to_block[j.target.0])
            } else {
                None
            }
        },
        _ => None,
    }
}

/// Where a block goes on that does nothing but close scopes.
pub open spec fn exit_target(proto: &LoweredProto, cfg: &Cfg, b: BlockRef) -> Option<BlockRef> {
    match close_jump(proto, cfg, b) {
        Some(t) => Some(t),
        None => if cfg.range(b).len > 0 && only_closes(proto, cfg.range(b).start.0 as int, cfg.range(b).end_at()) {
            cfg.unique_successor(b)
        } else {
            None
        },
    }
}

pub fn transparent_loop_exit_target(proto: &LoweredProto, cfg: &Cfg, block: BlockRef) -> (r: Option<BlockRef>)
    requires
        fits(proto, cfg),
        cfg.has_block(block),
    ensures
        r == exit_target(proto, cfg, block),
        r is Some ==> cfg.has_block(r->0),
{
    if let Some(t) = transparent_jump_target(proto, cfg, block) {
        return Some(t);
    }
    proof {
        ranges_fit(proto, cfg, block);
    }
    let range = cfg.blocks[block.0].instrs;
    if range.is_empty() || !check_only_closes(proto, range.start.0, range.end()) {
        return None;
    }
    cfg.unique_reachable_successor(block)
}

/// The path goes on to `next` and from there through transparent blocks, until it ends or
/// meets itself; at most `fuel` blocks are added.
pub open spec fn path_on(
    proto: &LoweredProto,
    cfg: &Cfg,
    path: Seq<BlockRef>,
    next: Option<BlockRef>,
    fuel: nat,
) -> Seq<BlockRef>
    decreases fuel,
{
    if fuel == 0 || next is None || path.contains(next->0) {
        path
    } else {
        path_on(proto, cfg, path.push(next->0), exit_target(proto, cfg, next->0), (fuel - 1) as nat)
    }
}

/// The blocks that follow an exit: its only successor, and on through transparent blocks.
pub open spec fn exit_path(proto: &LoweredProto, cfg: &Cfg, exit: BlockRef) -> Seq<BlockRef> {
    path_on(proto, cfg, seq![exit], cfg.unique_successor(exit), cfg.blocks@.len())
}

/// Distinct blocks are no more than there are.
proof fn distinct_blocks_bound(cfg: &Cfg, path: Seq<BlockRef>)
    requires
        path.no_duplicates(),
        forall|i: int| 0 <= i < path.len() ==> cfg.has_block(#[trigger] path[i]),
    ensures
        path.len() <= cfg.blocks@.len(),
{
    let n = cfg.blocks@.len();
    let ints = path.map_values(|b: BlockRef| b.0 as int);
    assert(ints.no_duplicates()) by {
        assert forall|i: int, j: int| 0 <= i < ints.len() && 0 <= j < ints.len() && i != j implies ints[i] != ints[j] by {
            assert(path[i] != path[j]);
        }
    }
    ints.unique_seq_to_set();
    let range = vstd::set_lib::set_int_range(0, n as int);
    vstd::set_lib::lemma_int_range(0, n as int);
    assert(ints.to_set().subset_of(range)) by {
        assert forall|x: int| ints.to_set().contains(x) implies range.contains(x) by {
            let i = choose|i: int| 0 <= i < ints.len() && ints[i] == x;
            assert(cfg.has_block(path[i]));
        }
    }
    vstd::set_lib::lemma_len_subset(ints.to_set(), range);
}

fn in_path(path: &Vec<BlockRef>, b: BlockRef) -> (r: bool)
    ensures
        r == path@.contains(b),
{
    let n = path.len();
    let mut i: usize = 0;
    while i < n
        invariant
            n == path@.len(),
            i <= n,
            forall|j: int| 0 <= j < i ==> path@[j] != b,
        decreases n - i,
    {
        if path[i] == b {
            assert(path@[i as int] == b);
            return true;
        }
        i = i + 1;
    }
    false
}

pub fn loop_exit_continuation_path(proto: &LoweredProto, cfg: &Cfg, exit: BlockRef) -> (path: Vec<BlockRef>)
    requires
        fits(proto, cfg),
        cfg.has_block(exit),
    ensures
        path@ == exit_path(proto, cfg, exit),
        forall|i: int| 0 <= i < path@.len() ==> cfg.has_block(#[trigger] path@[i]),
        path@.len() > 0,
{
    let mut path: Vec<BlockRef> = Vec::new();
    path.push(exit);
    assert(path@ =~= seq![exit]);
    let mut next = cfg.unique_reachable_successor(exit);
    let ghost mut fuel: nat = cfg.blocks@.len();
    let mut done = next.is_none();
    while !done
        invariant
            fits(proto, cfg),
            path@.len() > 0,
            path@.no_duplicates(),
            forall|i: int| 0 <= i < path@.len() ==> cfg.has_block(#[trigger] path@[i]),
            next is Some ==> cfg.has_block(next->0),
            !done ==> next is Some,
            !done ==> fuel + path@.len() == cfg.blocks@.len() + 1,
            !done ==> exit_path(proto, cfg, exit) == path_on(proto, cfg, path@, next, fuel),
            done ==> exit_path(proto, cfg, exit) == path@,
        decreases (if done { 0 } else { fuel + 1 }),
    {
        let b = next.unwrap();
        if in_path(&path, b) {
            done = true;
        } else {
            let ghost before = path@;
            path.push(b);
            proof {
                distinct_blocks_bound(cfg, path@);
                fuel = (fuel - 1) as nat;
            }
            next = transparent_loop_exit_target(proto, cfg, b);
            if next.is_none() {
                done = true;
            }
        }
    }
    path
}

/// The block at which the paths from all exits meet, and the blocks before it.
#[derive(Debug)]
pub struct SharedExitContinuation {
    pub merge: BlockRef,
    pub path_blocks: IdSet<BlockRef>,
}

pub struct SharedExit {
    pub merge: BlockRef,
    pub path_blocks: Set<BlockRef>,
}

impl View for SharedExitContinuation {
    type V = SharedExit;

    open spec fn view(&self) -> SharedExit {
        SharedExit { merge: self.merge, path_blocks: self.path_blocks@ }
    }
}

/// Position `i` of the first exit's path lies on the path of every exit.
pub open spec fn on_all_paths(
    proto: &LoweredProto,
    cfg: &Cfg,
    exits: Set<BlockRef>,
    first: Seq<BlockRef>,
) -> spec_fn(int) -> bool {
    |i: int|
        first[i] != cfg.exit_block && forall|x: BlockRef| #[trigger] exits.contains(x) ==> exit_path(proto, cfg, x).contains(first[i])
}

/// `b` stands on the path of some exit, before the merge.
pub open spec fn before_merge(proto: &LoweredProto, cfg: &Cfg, exits: Set<BlockRef>, merge: BlockRef, b: BlockRef) -> bool {
    exists|x: BlockRef, i: int| #[trigger]
        exits.contains(x) && 0 <= i < exit_path(proto, cfg, x).len() && #[trigger] exit_path(proto, cfg, x)[i] == b && forall|j: int|
            0 <= j <= i ==> exit_path(proto, cfg, x)[j] != merge
}

/// The smallest exit.
pub open spec fn is_least(exits: Set<BlockRef>, x: BlockRef) -> bool {
    exits.contains(x) && forall|y: BlockRef| #[trigger] exits.contains(y) ==> x.0 <= y.0
}

/// The shared continuation of at least two exits.
pub open spec fn shared_exit(proto: &LoweredProto, cfg: &Cfg, exits: Set<BlockRef>) -> Option<SharedExit> {
    if exits.len() < 2 {
        None
    } else {
        let first = exit_path(proto, cfg, choose|x: BlockRef| is_least(exits, x));
        match first_where(first.len(), on_all_paths(proto, cfg, exits, first)) {
            Some(i) => Some(
                SharedExit {
                    merge: first[i],
                    path_blocks: Set::new(|b: BlockRef| before_merge(proto, cfg, exits, first[i], b)),
                },
            ),
            None => None,
        }
    }
}

/// Whether every exit's path passes `b`.
fn all_paths_pass(proto: &LoweredProto, cfg: &Cfg, exits: &IdSet<BlockRef>, b: BlockRef) -> (r: bool)
    requires
        fits(proto, cfg),
        known_blocks(cfg, exits@),
    ensures
        r == (forall|x: BlockRef| #[trigger] exits@.contains(x) ==> exit_path(proto, cfg, x).contains(b)),
{
    let n = exits.len();
    let mut i: usize = 0;
    while i < n
        invariant
            fits(proto, cfg),
            known_blocks(cfg, exits@),
            n == exits.seq().len(),
            i <= n,
            forall|k: int| 0 <= k < i ==> exit_path(proto, cfg, #[trigger] exits.seq()[k]).contains(b),
        decreases n - i,
    {
        let x = exits.at(i);
        let path = loop_exit_continuation_path(proto, cfg, x);
        if !in_path(&path, b) {
            return false;
        }
        i = i + 1;
    }
    proof {
        assert forall|x: BlockRef| #[trigger] exits@.contains(x) implies exit_path(proto, cfg, x).contains(b) by {
            let k = choose|k: int| 0 <= k < exits.seq().len() && exits.seq()[k] == x;
            assert(exit_path(proto, cfg, exits.seq()[k]).contains(b));
        }
    }
    true
}

/// Collects the blocks before the merge on all paths.
fn collect_path_blocks(proto: &LoweredProto, cfg: &Cfg, exits: &IdSet<BlockRef>, merge: BlockRef) -> (r: IdSet<BlockRef>)
    requires
        fits(proto, cfg),
        known_blocks(cfg, exits@),
    ensures
        forall|b: BlockRef| #[trigger] r@.contains(b) <==> before_merge(proto, cfg, exits@, merge, b),
        known_blocks(cfg, r@),
{
    let n = exits.len();
    let mut r: IdSet<BlockRef> = IdSet::new();
    let mut i: usize = 0;
    while i < n
        invariant
            fits(proto, cfg),
            known_blocks(cfg, exits@),
            n == exits.seq().len(),
            i <= n,
            known_blocks(cfg, r@),
            forall|b: BlockRef| #[trigger] r@.contains(b) ==> before_merge(proto, cfg, exits@, merge, b),
            forall|k: int, q: int|
                0 <= k < i && 0 <= q < exit_path(proto, cfg, exits.seq()[k]).len() && (forall|j: int|
                    0 <= j <= q ==> exit_path(proto, cfg, exits.seq()[k])[j] != merge) ==> r@.contains(
                    #[trigger] exit_path(proto, cfg, #[trigger] exits.seq()[k])[q],
                ),
        decreases n - i,
    {
        let x = exits.at(i);
        let path = loop_exit_continuation_path(proto, cfg, x);
        let m = path.len();
        let mut k: usize = 0;
        let mut met = false;
        let ghost r0 = r@;
        while k < m && !met
            invariant
                exits@.contains(x),
                path@ == exit_path(proto, cfg, x),
                forall|i: int| 0 <= i < path@.len() ==> cfg.has_block(#[trigger] path@[i]),
                m == path@.len(),
                k <= m,
                known_blocks(cfg, r@),
                forall|b: BlockRef| #[trigger] r@.contains(b) ==> before_merge(proto, cfg, exits@, merge, b),
                forall|b: BlockRef| #[trigger] r0.contains(b) ==> r@.contains(b),
                !met ==> forall|j: int| 0 <= j < k ==> path@[j] != merge && r@.contains(#[trigger] path@[j]),
                met ==> exists|w: int| 0 <= w < m && path@[w] == merge && forall|j: int| 0 <= j < w ==> r@.contains(#[trigger] path@[j]),
            decreases (if met { 0 } else { m - k + 1 }),
        {
            let b = path[k];
            if b == merge {
                assert(path@[k as int] == merge);
                met = true;
            } else {
                assert(exits@.contains(x) && exit_path(proto, cfg, x)[k as int] == b);
                assert(before_merge(proto, cfg, exits@, merge, b));
                r.insert(b);
                k = k + 1;
            }
        }
        proof {
            assert forall|k: int, q: int|
                0 <= k < i + 1 && 0 <= q < exit_path(proto, cfg, exits.seq()[k]).len() && (forall|j: int|
                    0 <= j <= q ==> exit_path(proto, cfg, exits.seq()[k])[j] != merge) implies r@.contains(
                #[trigger] exit_path(proto, cfg, #[trigger] exits.seq()[k])[q],
            ) by {
                if k < i {
                    assert(r0.contains(exit_path(proto, cfg, exits.seq()[k])[q]));
                } else {
                    assert(exits.seq()[k] == x);
                    if met {
                        let w = choose|w: int| 0 <= w < m && path@[w] == merge && forall|j: int| 0 <= j < w ==> r@.contains(#[trigger] path@[j]);
                        assert(q < w) by {
                            if q >= w {
                                assert(exit_path(proto, cfg, exits.seq()[k])[w] != merge);
                            }
                        }
                        assert(r@.contains(path@[q]));
                    } else {
                        assert(r@.contains(path@[q]));
                    }
                }
            }
        }
        i = i + 1;
    }
    proof {
        assert forall|b: BlockRef| before_merge(proto, cfg, exits@, merge, b) implies #[trigger] r@.contains(b) by {
            let (x, q) = choose|x: BlockRef, q: int| #[trigger]
                exits@.contains(x) && 0 <= q < exit_path(proto, cfg, x).len() && #[trigger] exit_path(proto, cfg, x)[q] == b && forall|j: int|
                    0 <= j <= q ==> exit_path(proto, cfg, x)[j] != merge;
            let k = choose|k: int| 0 <= k < exits.seq().len() && exits.seq()[k] == x;
            assert(exit_path(proto, cfg, exits.seq()[k])[q] == b);
        }
    }
    r
}

pub fn shared_exit_continuation(
    proto: &LoweredProto,
    cfg: &Cfg,
    exits: &IdSet<BlockRef>,
) -> (r: Option<SharedExitContinuation>)
    requires
        fits(proto, cfg),
        known_blocks(cfg, exits@),
    ensures
        match r {
            Some(c) => shared_exit(proto, cfg, exits@) == Some(c@) && cfg.has_block(c.merge) && known_blocks(cfg, c.path_blocks@),
            None => shared_exit(proto, cfg, exits@) is None,
        },
{
    if exits.len() < 2 {
        return None;
    }
    let least = exits.at(0);
    proof {
        assert(is_least(exits@, least)) by {
            assert forall|y: BlockRef| #[trigger] exits@.contains(y) implies least.0 <= y.0 by {
                let k = choose|k: int| 0 <= k < exits.seq().len() && exits.seq()[k] == y;
                if k > 0 {
                    assert(rank_less(exits.seq()[0].rank(), exits.seq()[k].rank()));
                }
            }
        }
        let other = choose|x: BlockRef| is_least(exits@, x);
        assert(exits@.contains(other) && exits@.contains(least));
        assert(other == least);
    }
    let first = loop_exit_continuation_path(proto, cfg, least);
    let n = first.len();
    let ghost p = on_all_paths(proto, cfg, exits@, first@);
    let mut i: usize = 0;
    while i < n
        invariant
            fits(proto, cfg),
            known_blocks(cfg, exits@),
            exits@.len() >= 2,
            first@ == exit_path(proto, cfg, choose|x: BlockRef| is_least(exits@, x)),
            forall|i: int| 0 <= i < first@.len() ==> cfg.has_block(#[trigger] first@[i]),
            n == first@.len(),
            p == on_all_paths(proto, cfg, exits@, first@),
            i <= n,
            first_where(i as nat, p) is None,
        decreases n - i,
    {
        let b = first[i];
        let hit = b != cfg.exit_block && all_paths_pass(proto, cfg, exits, b);
        assert(p(i as int) == hit);
        if hit {
            proof {
                assert(first_where((i + 1) as nat, p) == Some(i as int));
                first_where_stable((i + 1) as nat, n as nat, p);
            }
            let path_blocks = collect_path_blocks(proto, cfg, exits, b);
            assert(path_blocks@ =~= Set::new(|x: BlockRef| before_merge(proto, cfg, exits@, b, x)));
            return Some(SharedExitContinuation { merge: b, path_blocks });
        }
        i = i + 1;
    }
    None
}

/// Nothing from outside enters the paths before the merge: every reachable predecessor of a
/// path block is an owner or a path block.
pub open spec fn sealed(cfg: &Cfg, s: SharedExit, owners: Set<BlockRef>) -> bool {
    forall|x: BlockRef, b: BlockRef|
        s.path_blocks.contains(b) && cfg.is_reachable(x) && #[trigger] cfg.links(x, b) ==> owners.contains(x) || s.path_blocks.contains(x)
}

/// The shared continuation, where nothing from outside enters it.
pub open spec fn sealed_exit(cfg: &Cfg, s: Option<SharedExit>, owners: Set<BlockRef>) -> Option<SharedExit> {
    match s {
        Some(e) => if sealed(cfg, e, owners) {
            Some(e)
        } else {
            None
        },
        None => None,
    }
}

/// The values merged at block `x` by a loop with these exits: at the shared merge the paths
/// to it count as inside.
pub open spec fn exit_value_at(
    dataflow: &DataflowFacts,
    exits: Set<BlockRef>,
    sealed: Option<SharedExit>,
    inside: Set<BlockRef>,
    x: BlockRef,
) -> Option<ExitModel> {
    if sealed is Some && (sealed->0).merge == x {
        exit_merge(dataflow, x, inside.union((sealed->0).path_blocks))
    } else if exits.contains(x) {
        exit_merge(dataflow, x, inside)
    } else {
        None
    }
}

/// The values merged at the blocks below `n`, by ascending block.
pub open spec fn exit_values(
    dataflow: &DataflowFacts,
    exits: Set<BlockRef>,
    sealed: Option<SharedExit>,
    inside: Set<BlockRef>,
    n: nat,
) -> Seq<ExitModel>
    decreases n,
{
    if n == 0 {
        Seq::empty()
    } else {
        let rest = exit_values(dataflow, exits, sealed, inside, (n - 1) as nat);
        match exit_value_at(dataflow, exits, sealed, inside, BlockRef((n - 1) as usize)) {
            Some(m) => rest.push(m),
            None => rest,
        }
    }
}

/// Whether nothing from outside enters the paths before the merge.
fn check_sealed(cfg: &Cfg, s: &SharedExitContinuation, owners: &IdSet<BlockRef>) -> (r: bool)
    requires
        cfg.wf(),
        known_blocks(cfg, s.path_blocks@),
    ensures
        r == sealed(cfg, s@, owners@),
{
    let n = s.path_blocks.len();
    let mut i: usize = 0;
    while i < n
        invariant
            cfg.wf(),
            known_blocks(cfg, s.path_blocks@),
            n == s.path_blocks.seq().len(),
            i <= n,
            forall|k: int, x: BlockRef|
                0 <= k < i && cfg.is_reachable(x) && #[trigger] cfg.links(x, #[trigger] s.path_blocks.seq()[k]) ==> owners@.contains(x)
                    || s.path_blocks@.contains(x),
        decreases n - i,
    {
        let b = s.path_blocks.at(i);
        let list = cfg.reachable_predecessors(b);
        let m = list.len();
        let mut k: usize = 0;
        while k < m
            invariant
                s.path_blocks@.contains(b),
                list@.to_set() == cfg.linked_to(b),
                m == list@.len(),
                k <= m,
                forall|q: int| 0 <= q < k ==> owners@.contains(#[trigger] list@[q]) || s.path_blocks@.contains(list@[q]),
            decreases m - k,
        {
            let x = list[k];
            assert(list@.to_set().contains(x));
            assert(cfg.linked_to(b).contains(x));
            if !owners.contains(x) && !s.path_blocks.contains(x) {
                assert(cfg.is_reachable(x) && cfg.links(x, b));
                return false;
            }
            k = k + 1;
        }
        proof {
            assert forall|q: int, x: BlockRef|
                0 <= q < i + 1 && cfg.is_reachable(x) && #[trigger] cfg.links(x, #[trigger] s.path_blocks.seq()[q]) implies owners@.contains(x)
                || s.path_blocks@.contains(x) by {
                if q == i {
                    assert(cfg.linked_to(b).contains(x));
                    assert(list@.to_set().contains(x));
                    let w = choose|w: int| 0 <= w < list@.len() && list@[w] == x;
                    assert(owners@.contains(list@[w]) || s.path_blocks@.contains(list@[w]));
                }
            }
        }
        i = i + 1;
    }
    proof {
        assert forall|x: BlockRef, b: BlockRef|
            s.path_blocks@.contains(b) && cfg.is_reachable(x) && #[trigger] cfg.links(x, b) implies owners@.contains(x) || s.path_blocks@.contains(x) by {
            let k = choose|k: int| 0 <= k < s.path_blocks.seq().len() && s.path_blocks.seq()[k] == b;
            assert(cfg.links(x, s.path_blocks.seq()[k]));
        }
    }
    true
}

/// The contents of an optional shared continuation.
pub open spec fn shared_model(s: Option<&SharedExitContinuation>) -> Option<SharedExit> {
    match s {
        Some(c) => Some(c@),
        None => None,
    }
}

pub fn shared_loop_exit_merge<'a>(
    cfg: &Cfg,
    continuation: Option<&'a SharedExitContinuation>,
    owners: &IdSet<BlockRef>,
) -> (r: Option<&'a SharedExitContinuation>)
    requires
        cfg.wf(),
        continuation is Some ==> known_blocks(cfg, (continuation->0).path_blocks@),
    ensures
        shared_model(r) == sealed_exit(cfg, shared_model(continuation), owners@),
{
    match continuation {
        None => None,
        Some(c) => if check_sealed(cfg, c, owners) {
            Some(c)
        } else {
            None
        },
    }
}

/// The values that a loop hands on at its exits and at their shared merge, by ascending block.
pub fn analyze_loop_exit_value_merges(
    cfg: &Cfg,
    dataflow: &DataflowFacts,
    exits: &IdSet<BlockRef>,
    shared: Option<&SharedExitContinuation>,
    inside: &IdSet<BlockRef>,
    owners: &IdSet<BlockRef>,
) -> (r: Vec<LoopExitValueMergeCandidate>)
    requires
        cfg.wf(),
        dataflow.ranges_wf(),
        shared is Some ==> known_blocks(cfg, (shared->0).path_blocks@),
    ensures
        exit_models(r@) == exit_values(
            dataflow,
            exits@,
            sealed_exit(cfg, shared_model(shared), owners@),
            inside@,
            cfg.blocks@.len(),
        ),
{
    let merge = shared_loop_exit_merge(cfg, shared, owners);
    let ghost sealed = sealed_exit(cfg, shared_model(shared), owners@);
    let mut owned = inside.clone();
    if let Some(m) = merge {
        owned.extend(&m.path_blocks);
    }
    let n = cfg.blocks.len();
    let mut r: Vec<LoopExitValueMergeCandidate> = Vec::new();
    let mut b: usize = 0;
    assert(exit_models(r@) =~= exit_values(dataflow, exits@, sealed, inside@, 0));
    while b < n
        invariant
            dataflow.ranges_wf(),
            shared_model(merge) == sealed,
            merge is Some ==> owned@ == inside@.union((merge->0).path_blocks@),
            b <= n,
            exit_models(r@) == exit_values(dataflow, exits@, sealed, inside@, b as nat),
        decreases n - b,
    {
        let x = BlockRef(b);
        let ghost before = r@;
        let at_merge = match merge {
            Some(m) => m.merge == x,
            None => false,
        };
        let value = if at_merge {
            loop_exit_value_merge_in_block(dataflow, x, &owned)
        } else if exits.contains(x) {
            loop_exit_value_merge_in_block(dataflow, x, inside)
        } else {
            None
        };
        if let Some(c) = value {
            r.push(c);
            assert(exit_models(r@) =~= exit_models(before).push(c@));
        }
        b = b + 1;
    }
    r
}

/// Some edge that leaves a `for` loop's body leads from `blocks` to `exit`.
pub open spec fn by_loop_exit(cfg: &Cfg, blocks: Set<BlockRef>, exit: BlockRef) -> bool {
    exists|e: EdgeRef| #[trigger]
        cfg.has_edge(e) && cfg.edge(e).to == exit && cfg.edge(e).kind == EdgeKind::LoopExit && blocks.contains(cfg.edge(e).from)
}

fn reached_by_loop_exit(cfg: &Cfg, blocks: &IdSet<BlockRef>, exit: BlockRef) -> (r: bool)
    requires
        cfg.adjacency_wf(),
        cfg.has_block(exit),
    ensures
        r == by_loop_exit(cfg, blocks@, exit),
{
    let n = cfg.preds[exit.0].len();
    let mut i: usize = 0;
    while i < n
        invariant
            cfg.adjacency_wf(),
            cfg.has_block(exit),
            n == cfg.in_edges(exit).len(),
            i <= n,
            forall|k: int|
                0 <= k < i ==> !(cfg.edge(#[trigger] cfg.in_edges(exit)[k]).kind == EdgeKind::LoopExit && blocks@.contains(
                    cfg.edge(cfg.in_edges(exit)[k]).from,
                )),
        decreases n - i,
    {
        let e = cfg.preds[exit.0][i];
        assert(e == cfg.in_edges(exit)[i as int]);
        assert(cfg.has_edge(e));
        let edge = cfg.edges[e.0];
        if edge.kind == EdgeKind::LoopExit && blocks.contains(edge.from) {
            assert(cfg.has_edge(e) && cfg.edge(e).to == exit);
            return true;
        }
        i = i + 1;
    }
    proof {
        if by_loop_exit(cfg, blocks@, exit) {
            let e = choose|e: EdgeRef| #[trigger]
                cfg.has_edge(e) && cfg.edge(e).to == exit && cfg.edge(e).kind == EdgeKind::LoopExit && blocks@.contains(
                    cfg.edge(e).from,
                );
            let k = choose|k: int| 0 <= k < cfg.in_edges(exit).len() && cfg.in_edges(exit)[k] == e;
            assert(cfg.edge(cfg.in_edges(exit)[k]).kind == EdgeKind::LoopExit);
        }
    }
    false
}

/// What decides the scope of a loop's body.
pub struct ScopeInput {
    pub kind: LoopKindHint,
    pub continue_target: Option<BlockRef>,
    pub blocks: Set<BlockRef>,
    pub exits: Set<BlockRef>,
    pub shared: Option<SharedExit>,
    pub header: BlockRef,
}

/// Kinds of loops whose body scope reaches beyond the blocks that lead back.
pub open spec fn widens(kind: LoopKindHint) -> bool {
    kind == LoopKindHint::NumericForLike || kind == LoopKindHint::GenericForLike || kind == LoopKindHint::RepeatLike
}

/// A block at which the body's scope ends: an exit of a `for` loop, where a `repeat` goes on
/// after its condition, or the shared continuation.
pub open spec fn scope_boundary(cfg: &Cfg, s: ScopeInput, b: BlockRef) -> bool {
    (s.exits.contains(b) && by_loop_exit(cfg, s.blocks, b)) || (s.kind == LoopKindHint::RepeatLike && s.continue_target is Some
        && cfg.links(s.continue_target->0, b) && !s.blocks.contains(b)) || (s.shared is Some && (s.shared->0).merge == b)
}

/// An exit whose way on still belongs to the body: dominated by the header and no boundary of
/// a `for` loop.
pub open spec fn early_exit(cfg: &Cfg, g: &GraphFacts, s: ScopeInput, b: BlockRef) -> bool {
    s.exits.contains(b) && b != s.header && g.dom(s.header, b) && !by_loop_exit(cfg, s.blocks, b)
}

/// The blocks through which the body's scope may extend.
pub open spec fn scope_region(cfg: &Cfg, g: &GraphFacts, s: ScopeInput) -> Set<BlockRef> {
    Set::new(
        |b: BlockRef| cfg.has_block(b) && b != cfg.exit_block && !scope_boundary(cfg, s, b) && g.dom(s.header, b),
    )
}

/// `b` is reached from an early exit inside the scope's region.
pub open spec fn widened_to(cfg: &Cfg, g: &GraphFacts, s: ScopeInput, b: BlockRef) -> bool {
    exists|x: BlockRef| #[trigger] early_exit(cfg, g, s, x) && scope_region(cfg, g, s).contains(x) && reaches(
        step_in(cfg, scope_region(cfg, g, s), false),
        x,
        b,
    )
}

/// The lexical scope of a loop's body.
pub open spec fn body_scope(cfg: &Cfg, g: &GraphFacts, s: ScopeInput) -> Set<BlockRef> {
    if widens(s.kind) {
        Set::new(|b: BlockRef| s.blocks.contains(b) || widened_to(cfg, g, s, b))
    } else {
        s.blocks
    }
}

/// Whether the scope ends at `b`.
fn is_scope_boundary(
    cfg: &Cfg,
    kind: LoopKindHint,
    continue_target: Option<BlockRef>,
    blocks: &IdSet<BlockRef>,
    exits: &IdSet<BlockRef>,
    shared: Option<&SharedExitContinuation>,
    header: BlockRef,
    b: BlockRef,
) -> (r: bool)
    requires
        cfg.adjacency_wf(),
        cfg.has_block(b),
        continue_target is Some ==> cfg.has_block(continue_target->0),
    ensures
        r == scope_boundary(
            cfg,
            (ScopeInput {
                kind,
                continue_target,
                blocks: blocks@,
                exits: exits@,
                shared: shared_model(shared),
                header,
            }),
            b,
        ),
{
    if exits.contains(b) && reached_by_loop_exit(cfg, blocks, b) {
        return true;
    }
    let is_repeat = match kind {
        LoopKindHint::RepeatLike => true,
        _ => false,
    };
    if is_repeat && !blocks.contains(b) {
        if let Some(t) = continue_target {
            if has_link(cfg, t, b) {
                return true;
            }
        }
    }
    match shared {
        Some(s) => s.merge == b,
        None => false,
    }
}

pub fn loop_body_scope(
    cfg: &Cfg,
    graph_facts: &GraphFacts,
    kind: LoopKindHint,
    continue_target: Option<BlockRef>,
    blocks: &IdSet<BlockRef>,
    exits: &IdSet<BlockRef>,
    shared: Option<&SharedExitContinuation>,
    header: BlockRef,
) -> (r: IdSet<BlockRef>)
    requires
        cfg.wf(),
        known_blocks(cfg, blocks@),
        known_blocks(cfg, exits@),
        continue_target is Some ==> cfg.has_block(continue_target->0),
    ensures
        r@ == body_scope(
            cfg,
            graph_facts,
            (ScopeInput {
                kind,
                continue_target,
                blocks: blocks@,
                exits: exits@,
                shared: shared_model(shared),
                header,
            }),
        ),
        known_blocks(cfg, r@),
{
    let ghost s = ScopeInput {
        kind,
        continue_target,
        blocks: blocks@,
        exits: exits@,
        shared: shared_model(shared),
        header,
    };
    let wide = match kind {
        LoopKindHint::NumericForLike | LoopKindHint::GenericForLike | LoopKindHint::RepeatLike => true,
        _ => false,
    };
    if !wide {
        return blocks.clone();
    }
    let n = cfg.blocks.len();
    let ghost region = scope_region(cfg, graph_facts, s);
    let mut allowed: Vec<bool> = Vec::new();
    let mut starts: Vec<BlockRef> = Vec::new();
    let mut i: usize = 0;
    while i < n
        invariant
            cfg.wf(),
            n == cfg.blocks@.len(),
            continue_target is Some ==> cfg.has_block(continue_target->0),
            s == (ScopeInput {
                kind,
                continue_target,
                blocks: blocks@,
                exits: exits@,
                shared: shared_model(shared),
                header,
            }),
            region == scope_region(cfg, graph_facts, s),
            i <= n,
            allowed@.len() == i,
            forall|j: int| 0 <= j < i ==> #[trigger] allowed@[j] == region.contains(BlockRef(j as usize)),
            forall|k: int| 0 <= k < starts@.len() ==> cfg.has_block(#[trigger] starts@[k]) && early_exit(cfg, graph_facts, s, starts@[k]),
            forall|b: BlockRef| b.0 < i && #[trigger] early_exit(cfg, graph_facts, s, b) ==> starts@.contains(b),
        decreases n - i,
    {
        let b = BlockRef(i);
        let ghost starts0 = starts@;
        let boundary = is_scope_boundary(cfg, kind, continue_target, blocks, exits, shared, header, b);
        let dominated = graph_facts.dominates(header, b);
        allowed.push(b != cfg.exit_block && !boundary && dominated);
        if exits.contains(b) && b != header && dominated && !reached_by_loop_exit(cfg, blocks, b) {
            starts.push(b);
        }
        proof {
            assert forall|x: BlockRef| x.0 < i + 1 && #[trigger] early_exit(cfg, graph_facts, s, x) implies starts@.contains(x) by {
                if x.0 < i {
                    assert(starts0.contains(x));
                    let k = choose|k: int| 0 <= k < starts0.len() && starts0[k] == x;
                    assert(starts@[k] == x);
                } else {
                    assert(x == b);
                    assert(starts@[starts0.len() as int] == b);
                }
            }
        }
        i = i + 1;
    }
    proof {
        assert forall|b: BlockRef| mask_set(allowed@).contains(b) <==> region.contains(b) by {
            if b.0 < n {
                assert(BlockRef(b.0 as int as usize) == b);
                assert(allowed@[b.0 as int] == region.contains(b));
            }
        }
        assert(mask_set(allowed@) =~= region);
    }
    let seen = flood(cfg, &starts, &allowed, false);
    let mut r = mask_to_set(&seen);
    r.extend(blocks);
    proof {
        assert forall|b: BlockRef| r@.contains(b) <==> body_scope(cfg, graph_facts, s).contains(b) by {
            assert(mask_set(seen@).contains(b) <==> floods_to(cfg, starts@, region, false, b));
            if floods_to(cfg, starts@, region, false, b) {
                let k = choose|k: int|
                    0 <= k < starts@.len() && region.contains(#[trigger] starts@[k]) && reaches(
                        step_in(cfg, region, false),
                        starts@[k],
                        b,
                    );
                assert(early_exit(cfg, graph_facts, s, starts@[k]));
            }
            if widened_to(cfg, graph_facts, s, b) {
                let x = choose|x: BlockRef| #[trigger]
                    early_exit(cfg, graph_facts, s, x) && scope_region(cfg, graph_facts, s).contains(x) && reaches(
                        step_in(cfg, scope_region(cfg, graph_facts, s), false),
                        x,
                        b,
                    );
                assert(starts@.contains(x));
                let k = choose|k: int| 0 <= k < starts@.len() && starts@[k] == x;
                assert(region.contains(starts@[k]));
            }
        }
        assert(r@ =~= body_scope(cfg, graph_facts, s));
    }
    r
}

} // verus!
