//! What the actions of edges say of loops, leftover jumps and phis.

use vstd::prelude::*;

use crate::cfg::Cfg;
use crate::dataflow::{PhiCandidate, PhiId, SsaValue};
use crate::edge_actions::{
    action_of, continues_loop, handed, handed_in, last_reason, noted, repeats_of, role_of, PreliminaryIteration,
};
use crate::evidence::GotoRequirement;
use crate::ids::EdgeRef;
use crate::loop_values::LoopModel;

verus! {

/// Edge `e` jumps from the loop's blocks or scope to where the loop goes on, past another way
/// that stays, and does not repeat the loop.
pub open spec fn cuts_short(cfg: &Cfg, c: LoopModel, e: EdgeRef) -> bool {
    let from = cfg.edge(e).from;
    &&& c.continue_target == Some(cfg.edge(e).to)
    &&& c.blocks.contains(from) || c.scope.contains(from)
    &&& forall|k: int| 0 <= k < c.backedges.len() ==> c.backedges[k] != e
    &&& exists|k: int| {
        &&& 0 <= k < cfg.out_edges(from).len()
        &&& #[trigger] cfg.out_edges(from)[k] != e
        &&& c.blocks.contains(cfg.edge(cfg.out_edges(from)[k]).to) || c.scope.contains(cfg.edge(cfg.out_edges(from)[k]).to)
    }
}

/// Edge `e` plays the part `role` in one of the first `n` loops, or repeats one of the first
/// `m`: it repeats the loop, or ends an iteration of it.
pub open spec fn plays(cfg: &Cfg, loops: Seq<LoopModel>, e: EdgeRef, m: nat, n: nat, role: PreliminaryIteration) -> bool {
    match role {
        PreliminaryIteration::LoopBack(h) => exists|i: int|
            0 <= i < m && (#[trigger] loops[i]).header == h && loops[i].backedges.contains(e),
        PreliminaryIteration::Continue(h) => exists|i: int|
            0 <= i < n && (#[trigger] loops[i]).header == h && (loops[i].continue_edges.contains(e) || cuts_short(cfg, loops[i], e)),
        PreliminaryIteration::Conflicting => false,
    }
}

/// `r` is the one part that is played, none where none is, or a conflict of two.
pub open spec fn sums_up(p: spec_fn(PreliminaryIteration) -> bool, r: Option<PreliminaryIteration>) -> bool {
    match r {
        None => forall|x: PreliminaryIteration| !#[trigger] p(x),
        Some(PreliminaryIteration::Conflicting) => exists|x: PreliminaryIteration, y: PreliminaryIteration|
            x != y && #[trigger] p(x) && #[trigger] p(y),
        Some(role) => p(role) && forall|x: PreliminaryIteration| #[trigger] p(x) ==> x == role,
    }
}

proof fn continuing_is_cutting_short(cfg: &Cfg, c: LoopModel, e: EdgeRef)
    requires
        cfg.wf(),
        cfg.has_edge(e),
    ensures
        continues_loop(cfg, c, e) == (c.continue_edges.contains(e) || cuts_short(cfg, c, e)),
{
    let from = cfg.edge(e).from;
    assert(cfg.has_block(from));
    let out = cfg.out_edges(from);
    let j = out.index_of(e);
    assert(out.contains(e));
    assert(out[j] == e);
    if cuts_short(cfg, c, e) {
        let k = choose|k: int| {
            &&& 0 <= k < out.len()
            &&& #[trigger] out[k] != e
            &&& c.blocks.contains(cfg.edge(out[k]).to) || c.scope.contains(cfg.edge(out[k]).to)
        };
        assert(out[k] != e);
        assert(k != j);
        assert(out.len() > 1);
    }
}

proof fn repeats_sum_up(cfg: &Cfg, loops: Seq<LoopModel>, e: EdgeRef, n: nat)
    requires
        n <= loops.len(),
    ensures
        sums_up(|x: PreliminaryIteration| plays(cfg, loops, e, n, 0, x), repeats_of(loops, e, n)),
    decreases n,
{
    let p = |x: PreliminaryIteration| plays(cfg, loops, e, n, 0, x);
    if n > 0 {
        let m = (n - 1) as nat;
        repeats_sum_up(cfg, loops, e, m);
        let before = |x: PreliminaryIteration| plays(cfg, loops, e, m, 0, x);
        let role = PreliminaryIteration::LoopBack(loops[m as int].header);
        let hit = loops[m as int].backedges.contains(e);
        assert forall|x: PreliminaryIteration| #[trigger] p(x) <==> before(x) || (hit && x == role) by {
            if let PreliminaryIteration::LoopBack(h) = x {
                if before(x) {
                    let i = choose|i: int| 0 <= i < m && (#[trigger] loops[i]).header == h && loops[i].backedges.contains(e);
                    assert(loops[i].header == h);
                }
                if p(x) {
                    let i = choose|i: int| 0 <= i < n && (#[trigger] loops[i]).header == h && loops[i].backedges.contains(e);
                    if i < m {
                        assert(before(x));
                    }
                }
                if hit && x == role {
                    assert(loops[m as int].header == h);
                }
            }
        }
        adds_up(before, p, repeats_of(loops, e, m), hit, role);
    }
}

/// One more part played adds up with those before.
proof fn adds_up(
    before: spec_fn(PreliminaryIteration) -> bool,
    p: spec_fn(PreliminaryIteration) -> bool,
    r: Option<PreliminaryIteration>,
    hit: bool,
    role: PreliminaryIteration,
)
    requires
        role != PreliminaryIteration::Conflicting,
        !before(PreliminaryIteration::Conflicting),
        sums_up(before, r),
        forall|x: PreliminaryIteration| #[trigger] p(x) <==> before(x) || (hit && x == role),
    ensures
        sums_up(
            p,
            if hit {
                noted(r, role)
            } else {
                r
            },
        ),
{
    if hit {
        assert(p(role));
        match r {
            None => {
                assert forall|x: PreliminaryIteration| #[trigger] p(x) implies x == role by {
                    assert(!before(x));
                }
            },
            Some(PreliminaryIteration::Conflicting) => {
                let (x, y) = choose|x: PreliminaryIteration, y: PreliminaryIteration|
                    x != y && #[trigger] before(x) && #[trigger] before(y);
                assert(p(x) && p(y));
            },
            Some(old_role) => {
                assert(before(old_role));
                assert(p(old_role));
                assert forall|x: PreliminaryIteration| #[trigger] p(x) implies x == old_role || x == role by {
                    if before(x) {
                        assert(x == old_role);
                    }
                }
            },
        }
    } else {
        match r {
            None => {
                assert forall|x: PreliminaryIteration| !#[trigger] p(x) by {
                    assert(!before(x));
                }
            },
            Some(PreliminaryIteration::Conflicting) => {
                let (x, y) = choose|x: PreliminaryIteration, y: PreliminaryIteration|
                    x != y && #[trigger] before(x) && #[trigger] before(y);
                assert(p(x) && p(y));
            },
            Some(old_role) => {
                assert(before(old_role));
                assert(p(old_role));
                assert forall|x: PreliminaryIteration| #[trigger] p(x) implies x == old_role by {
                    assert(before(x));
                }
            },
        }
    }
}

proof fn roles_sum_up(cfg: &Cfg, loops: Seq<LoopModel>, e: EdgeRef, n: nat)
    requires
        cfg.wf(),
        cfg.has_edge(e),
        n <= loops.len(),
    ensures
        sums_up(|x: PreliminaryIteration| plays(cfg, loops, e, loops.len(), n, x), role_of(cfg, loops, e, n)),
    decreases n,
{
    let all = loops.len();
    let p = |x: PreliminaryIteration| plays(cfg, loops, e, all, n, x);
    if n == 0 {
        repeats_sum_up(cfg, loops, e, all);
    } else {
        let m = (n - 1) as nat;
        roles_sum_up(cfg, loops, e, m);
        continuing_is_cutting_short(cfg, loops[m as int], e);
        let before = |x: PreliminaryIteration| plays(cfg, loops, e, all, m, x);
        let role = PreliminaryIteration::Continue(loops[m as int].header);
        let hit = continues_loop(cfg, loops[m as int], e);
        assert forall|x: PreliminaryIteration| #[trigger] p(x) <==> before(x) || (hit && x == role) by {
            if let PreliminaryIteration::Continue(h) = x {
                if before(x) {
                    let i = choose|i: int|
                        0 <= i < m && (#[trigger] loops[i]).header == h && (loops[i].continue_edges.contains(e) || cuts_short(
                            cfg,
                            loops[i],
                            e,
                        ));
                    assert(loops[i].header == h);
                }
                if p(x) {
                    let i = choose|i: int|
                        0 <= i < n && (#[trigger] loops[i]).header == h && (loops[i].continue_edges.contains(e) || cuts_short(
                            cfg,
                            loops[i],
                            e,
                        ));
                    if i < m {
                        assert(before(x));
                    }
                }
                if hit && x == role {
                    assert(loops[m as int].header == h);
                }
            }
        }
        adds_up(before, p, role_of(cfg, loops, e, m), hit, role);
    }
}

/// The part that an edge plays is the one it plays in the loops: it repeats the loops that
/// have it as a back edge and, where iterations can be continued, ends an iteration of those
/// that count it as continuing or that it cuts short. Without such a loop it plays none, and
/// two different parts conflict. It continues something just when it ends an iteration.
pub proof fn edges_play_their_part(
    cfg: &Cfg,
    phis: Seq<PhiCandidate>,
    loops: Seq<LoopModel>,
    residual: Seq<GotoRequirement>,
    can_continue: bool,
    e: EdgeRef,
)
    requires
        cfg.wf(),
        cfg.has_edge(e),
    ensures
        ({
            let a = action_of(cfg, phis, loops, residual, can_continue, e);
            let n: nat = if can_continue {
                loops.len()
            } else {
                0
            };
            &&& sums_up(|x: PreliminaryIteration| plays(cfg, loops, e, loops.len(), n, x), a.iteration)
            &&& a.continues <==> can_continue && exists|i: int|
                0 <= i < loops.len() && ((#[trigger] loops[i]).continue_edges.contains(e) || cuts_short(cfg, loops[i], e))
        }),
{
    if can_continue {
        roles_sum_up(cfg, loops, e, loops.len());
    } else {
        repeats_sum_up(cfg, loops, e, loops.len());
    }
    assert forall|i: int| 0 <= i < loops.len() implies continues_loop(cfg, #[trigger] loops[i], e) == (
    loops[i].continue_edges.contains(e) || cuts_short(cfg, loops[i], e)) by {
        continuing_is_cutting_short(cfg, loops[i], e);
    }
}

/// An edge jumps for the last reason that is left over for it, and only where one is.
pub proof fn leftover_edges_jump(
    cfg: &Cfg,
    phis: Seq<PhiCandidate>,
    loops: Seq<LoopModel>,
    residual: Seq<GotoRequirement>,
    can_continue: bool,
    e: EdgeRef,
)
    ensures
        match action_of(cfg, phis, loops, residual, can_continue, e).goto {
            Some(reason) => exists|i: int| {
                &&& 0 <= i < residual.len()
                &&& #[trigger] residual[i] == (GotoRequirement { edge: e, reason })
                &&& forall|j: int| i < j < residual.len() ==> (#[trigger] residual[j]).edge != e
            },
            None => forall|i: int| 0 <= i < residual.len() ==> (#[trigger] residual[i]).edge != e,
        },
{
    last_reason_is_last(residual, e, residual.len());
}

proof fn last_reason_is_last(list: Seq<GotoRequirement>, e: EdgeRef, n: nat)
    requires
        n <= list.len(),
    ensures
        match last_reason(list, e, n) {
            Some(reason) => exists|i: int| {
                &&& 0 <= i < n
                &&& #[trigger] list[i] == (GotoRequirement { edge: e, reason })
                &&& forall|j: int| i < j < n ==> (#[trigger] list[j]).edge != e
            },
            None => forall|i: int| 0 <= i < n ==> (#[trigger] list[i]).edge != e,
        },
    decreases n,
{
    if n > 0 {
        last_reason_is_last(list, e, (n - 1) as nat);
        if list[n - 1].edge == e {
            let reason = list[n - 1].reason;
            assert(list[n - 1] == (GotoRequirement { edge: e, reason }));
        }
    }
}

/// The edge brings `v` to the phi `p`: some incoming of that phi says so.
pub open spec fn brings(phis: Seq<PhiCandidate>, n: nat, e: EdgeRef, p: PhiId, v: SsaValue) -> bool {
    exists|k: int, j: int| {
        &&& 0 <= k < n && 0 <= j < phis[k].incoming@.len()
        &&& phis[k].id == p
        &&& (#[trigger] phis[k].incoming@[j]).edge == Some(e) && phis[k].incoming@[j].value == v
    }
}

/// An edge hands to the phis what their incomings say that it brings, and nothing else.
pub proof fn edges_hand_over_what_they_bring(
    cfg: &Cfg,
    phis: Seq<PhiCandidate>,
    loops: Seq<LoopModel>,
    residual: Seq<GotoRequirement>,
    can_continue: bool,
    e: EdgeRef,
    p: PhiId,
    v: SsaValue,
)
    ensures
        action_of(cfg, phis, loops, residual, can_continue, e).phi_inputs.contains((p, v)) <==> brings(
            phis,
            phis.len(),
            e,
            p,
            v,
        ),
{
    handed_is_brought(phis, e, phis.len(), p, v);
}

proof fn handed_is_brought(phis: Seq<PhiCandidate>, e: EdgeRef, n: nat, p: PhiId, v: SsaValue)
    requires
        n <= phis.len(),
    ensures
        handed(phis, e, n).contains((p, v)) <==> brings(phis, n, e, p, v),
    decreases n,
{
    if n > 0 {
        let m = (n - 1) as nat;
        handed_is_brought(phis, e, m, p, v);
        let phi = &phis[m as int];
        handed_in_is_brought(phi, e, phi.incoming@.len(), handed(phis, e, m), p, v);
        if brings(phis, m, e, p, v) {
            let (k, j) = choose|k: int, j: int| {
                &&& 0 <= k < m && 0 <= j < phis[k].incoming@.len()
                &&& phis[k].id == p
                &&& (#[trigger] phis[k].incoming@[j]).edge == Some(e) && phis[k].incoming@[j].value == v
            };
            assert(phis[k].incoming@[j].edge == Some(e));
        }
        if brings(phis, n, e, p, v) {
            let (k, j) = choose|k: int, j: int| {
                &&& 0 <= k < n && 0 <= j < phis[k].incoming@.len()
                &&& phis[k].id == p
                &&& (#[trigger] phis[k].incoming@[j]).edge == Some(e) && phis[k].incoming@[j].value == v
            };
            if k < m {
                assert(brings(phis, m, e, p, v));
            } else {
                assert(phi.incoming@[j].edge == Some(e));
            }
        }
    }
}

proof fn handed_in_is_brought(phi: &PhiCandidate, e: EdgeRef, n: nat, acc: Seq<(PhiId, SsaValue)>, p: PhiId, v: SsaValue)
    requires
        n <= phi.incoming@.len(),
    ensures
        handed_in(phi, e, n, acc).contains((p, v)) <==> acc.contains((p, v)) || (phi.id == p && exists|j: int|
            0 <= j < n && (#[trigger] phi.incoming@[j]).edge == Some(e) && phi.incoming@[j].value == v),
    decreases n,
{
    if n > 0 {
        let m = (n - 1) as nat;
        handed_in_is_brought(phi, e, m, acc, p, v);
        let before = handed_in(phi, e, m, acc);
        let now = handed_in(phi, e, n, acc);
        let item = (phi.id, phi.incoming@[m as int].value);
        if phi.incoming@[m as int].edge == Some(e) {
            assert(now == before.push(item));
            assert(now[before.len() as int] == item);
            if before.contains((p, v)) {
                let i = before.index_of((p, v));
                assert(now[i] == (p, v));
            }
            if now.contains((p, v)) {
                let i = now.index_of((p, v));
                if i < before.len() {
                    assert(before[i] == (p, v));
                }
            }
        }
    }
}

} // verus!
