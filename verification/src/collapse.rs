//! Phis that stand for a single value: they are replaced by it, again and again.

use vstd::prelude::*;

use crate::dataflow::{PhiCandidate, PhiId, SsaValue};
use crate::dense::{adjacent, close, closes_to, flagged};
use crate::search::{count_where, count_where_bound, count_where_monotone, first_where, first_where_least, first_where_stable};
use crate::walk::{closed_set_holds_reachable, reaches, reaches_monotone, reaches_self, reaches_then_step};

verus! {

/// What a value has been replaced by.
pub open spec fn resolved(rep: Seq<SsaValue>, v: SsaValue) -> SsaValue {
    match v {
        SsaValue::Phi(p) => if p.0 < rep.len() {
            rep[p.0 as int]
        } else {
            v
        },
        _ => v,
    }
}

pub open spec fn own_value(p: int) -> SsaValue {
    SsaValue::Phi(PhiId(p as usize))
}

/// What operand `j` of phi `p` has been replaced by.
pub open spec fn operand(flows: Seq<Seq<SsaValue>>, rep: Seq<SsaValue>, p: int, j: int) -> SsaValue {
    resolved(rep, flows[p][j])
}

pub open spec fn is_foreign(flows: Seq<Seq<SsaValue>>, rep: Seq<SsaValue>, p: int) -> spec_fn(int) -> bool {
    |j: int| operand(flows, rep, p, j) != own_value(p)
}

/// The only value besides itself that flows into phi `p`.
pub open spec fn sole_value(flows: Seq<Seq<SsaValue>>, rep: Seq<SsaValue>, p: int) -> Option<SsaValue> {
    match first_where(flows[p].len(), is_foreign(flows, rep, p)) {
        Some(k) => if forall|j: int|
            0 <= j < flows[p].len() ==> #[trigger] operand(flows, rep, p, j) == own_value(p) || operand(flows, rep, p, j) == operand(
                flows,
                rep,
                p,
                k,
            ) {
            Some(operand(flows, rep, p, k))
        } else {
            None
        },
        None => None,
    }
}

/// `v` takes the place of phi `p` everywhere.
pub open spec fn put_for(rep: Seq<SsaValue>, p: int, v: SsaValue) -> Seq<SsaValue> {
    Seq::new(
        rep.len(),
        |q: int|
            if rep[q] == own_value(p) {
                v
            } else {
                rep[q]
            },
    )
}

/// Every phi stands for itself.
pub open spec fn as_they_are(n: nat) -> Seq<SsaValue> {
    Seq::new(n, |p: int| own_value(p))
}

/// The work on the phis: what each was last seen to stand for, what it stands for by now,
/// and the phis that are still to be looked at.
pub struct CollapseState {
    pub seen: Seq<SsaValue>,
    pub root: Seq<SsaValue>,
    pub queue: Seq<usize>,
}

/// Phi `a` was last seen to stand for phi `b`.
pub open spec fn points(seen: Seq<SsaValue>) -> spec_fn(usize, usize) -> bool {
    |a: usize, b: usize| a < seen.len() && seen[a as int] == SsaValue::Phi(PhiId(b))
}

/// The way from value `v` passes phi `x`.
pub open spec fn passes(seen: Seq<SsaValue>, v: SsaValue, x: usize) -> bool {
    match v {
        SsaValue::Phi(k) => reaches(points(seen), k.0, x),
        _ => false,
    }
}

/// After a look at what `v` stands for, the phis on the way are seen to stand for the same.
pub open spec fn looked_up(seen: Seq<SsaValue>, root: Seq<SsaValue>, v: SsaValue) -> Seq<SsaValue> {
    Seq::new(
        seen.len(),
        |x: int|
            if passes(seen, v, x as usize) {
                resolved(root, v)
            } else {
                seen[x]
            },
    )
}

/// After a look at the first `m` values of a list.
pub open spec fn all_looked_up(seen: Seq<SsaValue>, root: Seq<SsaValue>, list: Seq<SsaValue>, m: nat) -> Seq<SsaValue>
    decreases m,
{
    if m == 0 {
        seen
    } else {
        looked_up(all_looked_up(seen, root, list, (m - 1) as nat), root, list[m - 1])
    }
}

/// Operand `j` of phi `p` shows that several values flow into it.
pub open spec fn clashes(flows: Seq<Seq<SsaValue>>, root: Seq<SsaValue>, p: int) -> spec_fn(int) -> bool {
    |j: int|
        is_foreign(flows, root, p)(j) && match first_where(j as nat, is_foreign(flows, root, p)) {
            Some(k) => operand(flows, root, p, k) != operand(flows, root, p, j),
            None => false,
        }
}

/// The number of operands up to the first that clashes.
pub open spec fn operands_read(flows: Seq<Seq<SsaValue>>, root: Seq<SsaValue>, p: int) -> nat {
    match first_where(flows[p].len(), clashes(flows, root, p)) {
        Some(j) => (j + 1) as nat,
        None => flows[p].len(),
    }
}

/// The queue, then those of the first `n` phis that phi `p` flows into and that do not wait yet.
pub open spec fn with_users(flows: Seq<Seq<SsaValue>>, p: int, queue: Seq<usize>, n: nat) -> Seq<usize>
    decreases n,
{
    if n == 0 {
        queue
    } else {
        let rest = with_users(flows, p, queue, (n - 1) as nat);
        if n - 1 != p && flows[n - 1].contains(own_value(p)) && !rest.contains((n - 1) as usize) {
            rest.push((n - 1) as usize)
        } else {
            rest
        }
    }
}

/// The next phi of the queue is looked at. When a single value flows into it, it stands for
/// that value; unless it was seen to do so already, the phis that it flows into are to be
/// looked at again.
pub open spec fn next_state(flows: Seq<Seq<SsaValue>>, s: CollapseState) -> CollapseState {
    if s.queue.len() == 0 {
        s
    } else {
        let p = s.queue[0] as int;
        let rest = s.queue.drop_first();
        let seen = all_looked_up(s.seen, s.root, flows[p], operands_read(flows, s.root, p));
        match sole_value(flows, s.root, p) {
            Some(v) => if seen[p] != v {
                CollapseState {
                    seen: seen.update(p, v),
                    root: put_for(s.root, p, v),
                    queue: with_users(flows, p, rest, flows.len()),
                }
            } else {
                CollapseState { seen, queue: rest, ..s }
            },
            None => CollapseState { seen, queue: rest, ..s },
        }
    }
}

/// All phis wait, in order.
pub open spec fn first_state(n: nat) -> CollapseState {
    CollapseState { seen: as_they_are(n), root: as_they_are(n), queue: Seq::new(n, |i: int| i as usize) }
}

pub open spec fn state_after(flows: Seq<Seq<SsaValue>>, k: nat) -> CollapseState
    decreases k,
{
    if k == 0 {
        first_state(flows.len())
    } else {
        next_state(flows, state_after(flows, (k - 1) as nat))
    }
}

/// After `k` steps no phi waits any more.
pub open spec fn is_done(flows: Seq<Seq<SsaValue>>, k: nat) -> bool {
    state_after(flows, k).queue.len() == 0
}

/// What every phi stands for in the end.
pub open spec fn replacements(flows: Seq<Seq<SsaValue>>) -> Seq<SsaValue> {
    state_after(flows, choose|k: nat| is_done(flows, k)).root
}

/// The phi stands for itself.
pub open spec fn is_kept(rep: Seq<SsaValue>) -> spec_fn(int) -> bool {
    |p: int| rep[p] == own_value(p)
}

/// What stands for another phi stands for itself.
pub open spec fn settled(rep: Seq<SsaValue>) -> bool {
    forall|q: int| 0 <= q < rep.len() ==> match #[trigger] rep[q] {
        SsaValue::Phi(k) => k.0 < rep.len() ==> rep[k.0 as int] == SsaValue::Phi(k),
        _ => true,
    }
}

/// Only what a replaced phi stands for flows into it.
pub open spec fn agrees(flows: Seq<Seq<SsaValue>>, rep: Seq<SsaValue>, q: int) -> bool {
    rep[q] == own_value(q) || forall|j: int| 0 <= j < flows[q].len() ==> #[trigger] operand(flows, rep, q, j) == rep[q]
}

proof fn kept_shrinks(rep: Seq<SsaValue>, p: int, v: SsaValue, n: nat)
    requires
        n <= rep.len() <= usize::MAX,
        0 <= p < rep.len(),
        rep[p] == own_value(p),
        v != own_value(p),
        settled(rep),
        v is Phi && (v->Phi_0).0 < rep.len() ==> rep[(v->Phi_0).0 as int] == v,
    ensures
        count_where(n, is_kept(put_for(rep, p, v))) <= count_where(n, is_kept(rep)),
        p < n ==> count_where(n, is_kept(put_for(rep, p, v))) < count_where(n, is_kept(rep)),
    decreases n,
{
    if n > 0 {
        kept_shrinks(rep, p, v, (n - 1) as nat);
        let q = n - 1;
        if rep[q] == own_value(p) && q != p {
            // Phi `q` stood for `p` and would stand for itself only if `p` were replaced by it.
            if v == own_value(q) {
                assert((v->Phi_0).0 == q);
                assert(rep[q] == v);
            }
        }
    }
}

/// A replacement keeps what has been settled.
proof fn step_keeps(flows: Seq<Seq<SsaValue>>, rep: Seq<SsaValue>, p: int)
    requires
        flows.len() == rep.len(),
        rep.len() <= usize::MAX,
        0 <= p < rep.len(),
        rep[p] == own_value(p),
        sole_value(flows, rep, p) is Some,
        settled(rep),
        forall|q: int| 0 <= q < rep.len() ==> #[trigger] agrees(flows, rep, q),
    ensures
        settled(put_for(rep, p, sole_value(flows, rep, p)->0)),
        forall|q: int| 0 <= q < rep.len() ==> #[trigger] agrees(flows, put_for(rep, p, sole_value(flows, rep, p)->0), q),
        sole_value(flows, rep, p)->0 != own_value(p),
        match sole_value(flows, rep, p)->0 {
            SsaValue::Phi(k) => k.0 < rep.len() ==> rep[k.0 as int] == SsaValue::Phi(k),
            _ => true,
        },
{
    let v = sole_value(flows, rep, p)->0;
    let next = put_for(rep, p, v);
    first_where_least(flows[p].len(), is_foreign(flows, rep, p));
    let k = first_where(flows[p].len(), is_foreign(flows, rep, p))->0;
    assert(v == operand(flows, rep, p, k));
    assert(is_foreign(flows, rep, p)(k));
    let raw = flows[p][k];
    if let SsaValue::Phi(x) = raw {
        if x.0 < rep.len() {
            assert(rep[x.0 as int] == v);
        }
    }
    assert forall|q: int| 0 <= q < next.len() implies match #[trigger] next[q] {
        SsaValue::Phi(k) => k.0 < next.len() ==> next[k.0 as int] == SsaValue::Phi(k),
        _ => true,
    } by {
        assert(match rep[q] {
            SsaValue::Phi(k) => k.0 < rep.len() ==> rep[k.0 as int] == SsaValue::Phi(k),
            _ => true,
        });
    }
    assert forall|q: int| 0 <= q < rep.len() implies #[trigger] agrees(flows, next, q) by {
        assert(agrees(flows, rep, q));
        if next[q] != own_value(q) {
            assert forall|j: int| 0 <= j < flows[q].len() implies #[trigger] operand(flows, next, q, j) == next[q] by {
                let was = operand(flows, rep, q, j);
                let x = flows[q][j];
                assert(operand(flows, next, q, j) == if was == own_value(p) { v } else { was }) by {
                    if let SsaValue::Phi(y) = x {
                        if y.0 >= rep.len() {
                            assert(was != own_value(p));
                        }
                    }
                }
                if q == p {
                    assert(was == own_value(p) || was == v);
                } else if rep[q] != own_value(q) {
                    assert(was == rep[q]);
                }
            }
        }
    }
}

/// What a phi was last seen to stand for leads to what it stands for.
spec fn leads_right(seen: Seq<SsaValue>, root: Seq<SsaValue>, a: int) -> bool {
    &&& match seen[a] {
        SsaValue::Phi(y) => if y.0 < root.len() {
            root[y.0 as int] == root[a]
        } else {
            root[a] == seen[a]
        },
        _ => root[a] == seen[a],
    }
    &&& root[a] == own_value(a) ==> seen[a] == own_value(a)
}

#[verifier::opaque]
spec fn state_ok(flows: Seq<Seq<SsaValue>>, s: CollapseState) -> bool {
    &&& flows.len() == s.root.len()
    &&& s.seen.len() == s.root.len()
    &&& s.root.len() <= usize::MAX
    &&& settled(s.root)
    &&& forall|q: int| 0 <= q < s.root.len() ==> #[trigger] agrees(flows, s.root, q)
    &&& forall|a: int| 0 <= a < s.root.len() ==> #[trigger] leads_right(s.seen, s.root, a)
    &&& forall|i: int| 0 <= i < s.queue.len() ==> (#[trigger] s.queue[i]) < s.root.len()
}

/// The phi was last seen to stand for something else than it does.
spec fn is_stale(seen: Seq<SsaValue>, root: Seq<SsaValue>) -> spec_fn(int) -> bool {
    |x: int| seen[x] != root[x]
}

proof fn fewer_where(n: nat, p: spec_fn(int) -> bool, q: spec_fn(int) -> bool)
    requires
        forall|i: int| 0 <= i < n && #[trigger] p(i) ==> q(i),
    ensures
        count_where(n, p) <= count_where(n, q),
    decreases n,
{
    if n > 0 {
        fewer_where((n - 1) as nat, p, q);
        assert(p(n - 1) ==> q(n - 1));
    }
}

proof fn one_fewer_where(n: nat, p: spec_fn(int) -> bool, q: spec_fn(int) -> bool, at: int)
    requires
        forall|i: int| 0 <= i < n && #[trigger] p(i) ==> q(i),
        0 <= at < n,
        q(at),
        !p(at),
    ensures
        count_where(n, p) < count_where(n, q),
    decreases n,
{
    if at == n - 1 {
        fewer_where((n - 1) as nat, p, q);
    } else {
        one_fewer_where((n - 1) as nat, p, q, at);
        assert(p(n - 1) ==> q(n - 1));
    }
}

/// The phis on the way from a phi stand for what it stands for.
proof fn way_leads_right(seen: Seq<SsaValue>, root: Seq<SsaValue>, k: usize, x: usize)
    requires
        seen.len() == root.len(),
        k < root.len(),
        forall|a: int| 0 <= a < root.len() ==> #[trigger] leads_right(seen, root, a),
        reaches(points(seen), k, x),
        x < root.len(),
    ensures
        root[x as int] == root[k as int],
{
    let same = Set::new(|y: usize| y < root.len() ==> root[y as int] == root[k as int]);
    assert forall|a: usize, b: usize| same.contains(a) && #[trigger] points(seen)(a, b) implies same.contains(b) by {
        assert(leads_right(seen, root, a as int));
    }
    closed_set_holds_reachable(points(seen), same, k, x);
}

/// A look changes only what phis are seen to stand for, and for the better.
proof fn look_keeps(seen: Seq<SsaValue>, root: Seq<SsaValue>, v: SsaValue)
    requires
        seen.len() == root.len(),
        root.len() <= usize::MAX,
        settled(root),
        forall|a: int| 0 <= a < root.len() ==> #[trigger] leads_right(seen, root, a),
    ensures
        looked_up(seen, root, v).len() == root.len(),
        forall|a: int| 0 <= a < root.len() ==> #[trigger] leads_right(looked_up(seen, root, v), root, a),
        forall|x: int| 0 <= x < root.len() && #[trigger] is_stale(looked_up(seen, root, v), root)(x) ==> is_stale(seen, root)(x),
{
    let now = looked_up(seen, root, v);
    assert forall|a: int| 0 <= a < root.len() implies #[trigger] leads_right(now, root, a) && (is_stale(now, root)(a) ==> is_stale(
        seen,
        root,
    )(a)) by {
        assert(leads_right(seen, root, a));
        if passes(seen, v, a as usize) {
            if let SsaValue::Phi(k) = v {
                if k.0 < root.len() {
                    way_leads_right(seen, root, k.0, a as usize);
                    assert(root[a] == resolved(root, v));
                } else {
                    nowhere(seen, k.0, a as usize);
                }
            }
        }
    }
    assert forall|x: int| 0 <= x < root.len() && #[trigger] is_stale(now, root)(x) implies is_stale(seen, root)(x) by {
        assert(leads_right(now, root, x));
    }
}

/// From a phi that does not exist no way leads on.
proof fn nowhere(seen: Seq<SsaValue>, k: usize, x: usize)
    requires
        k >= seen.len(),
        reaches(points(seen), k, x),
    ensures
        x == k,
{
    let only = Set::new(|y: usize| y == k);
    closed_set_holds_reachable(points(seen), only, k, x);
}

proof fn looks_keep(seen: Seq<SsaValue>, root: Seq<SsaValue>, list: Seq<SsaValue>, m: nat)
    requires
        seen.len() == root.len(),
        root.len() <= usize::MAX,
        settled(root),
        forall|a: int| 0 <= a < root.len() ==> #[trigger] leads_right(seen, root, a),
    ensures
        all_looked_up(seen, root, list, m).len() == root.len(),
        forall|a: int| 0 <= a < root.len() ==> #[trigger] leads_right(all_looked_up(seen, root, list, m), root, a),
        forall|x: int| 0 <= x < root.len() && #[trigger] is_stale(all_looked_up(seen, root, list, m), root)(x) ==> is_stale(seen, root)(x),
    decreases m,
{
    if m > 0 {
        looks_keep(seen, root, list, (m - 1) as nat);
        let before = all_looked_up(seen, root, list, (m - 1) as nat);
        look_keeps(before, root, list[m - 1]);
        let now = all_looked_up(seen, root, list, m);
        assert forall|x: int| 0 <= x < root.len() && #[trigger] is_stale(now, root)(x) implies is_stale(seen, root)(x) by {
            assert(is_stale(before, root)(x));
        }
    }
}

proof fn users_exist(flows: Seq<Seq<SsaValue>>, p: int, queue: Seq<usize>, n: nat)
    requires
        n <= flows.len() <= usize::MAX,
        forall|i: int| 0 <= i < queue.len() ==> (#[trigger] queue[i]) < flows.len(),
    ensures
        forall|i: int| 0 <= i < with_users(flows, p, queue, n).len() ==> (#[trigger] with_users(flows, p, queue, n)[i]) < flows.len(),
    decreases n,
{
    if n > 0 {
        users_exist(flows, p, queue, (n - 1) as nat);
        let rest = with_users(flows, p, queue, (n - 1) as nat);
        let all = with_users(flows, p, queue, n);
        assert forall|i: int| 0 <= i < all.len() implies (#[trigger] all[i]) < flows.len() by {
            if i < rest.len() {
                assert(all[i] == rest[i]);
            }
        }
    }
}

/// The phis that stand for themselves, then those that are seen wrongly, then those that wait:
/// with every step there is less to do.
spec fn work_left(s: CollapseState) -> (nat, nat, nat) {
    (
        count_where(s.root.len(), is_kept(s.root)),
        count_where(s.root.len(), is_stale(s.seen, s.root)),
        s.queue.len(),
    )
}

spec fn is_less(a: (nat, nat, nat), b: (nat, nat, nat)) -> bool {
    a.0 < b.0 || (a.0 == b.0 && (a.1 < b.1 || (a.1 == b.1 && a.2 < b.2)))
}

/// What a replaced phi stands for is the only value that flows into it.
proof fn sole_is_root(flows: Seq<Seq<SsaValue>>, root: Seq<SsaValue>, p: int)
    requires
        agrees(flows, root, p),
        root[p] != own_value(p),
        sole_value(flows, root, p) is Some,
    ensures
        sole_value(flows, root, p)->0 == root[p],
{
    first_where_least(flows[p].len(), is_foreign(flows, root, p));
    let k = first_where(flows[p].len(), is_foreign(flows, root, p))->0;
    assert(operand(flows, root, p, k) == root[p]);
}

/// A replaced phi is seen to stand for what it stands for.
proof fn refresh_keeps(seen: Seq<SsaValue>, root: Seq<SsaValue>, p: int)
    requires
        seen.len() == root.len(),
        root.len() <= usize::MAX,
        0 <= p < root.len(),
        settled(root),
        root[p] != own_value(p),
        seen[p] != root[p],
        forall|a: int| 0 <= a < root.len() ==> #[trigger] leads_right(seen, root, a),
    ensures
        put_for(root, p, root[p]) == root,
        forall|a: int| 0 <= a < root.len() ==> #[trigger] leads_right(seen.update(p, root[p]), root, a),
        count_where(root.len(), is_stale(seen.update(p, root[p]), root)) < count_where(root.len(), is_stale(seen, root)),
{
    let n = root.len();
    let now = seen.update(p, root[p]);
    assert forall|q: int| 0 <= q < n implies put_for(root, p, root[p])[q] == #[trigger] root[q] by {
        if root[q] == own_value(p) {
            assert(match root[q] {
                SsaValue::Phi(k) => k.0 < n ==> root[k.0 as int] == SsaValue::Phi(k),
                _ => true,
            });
        }
    }
    assert(put_for(root, p, root[p]) =~= root);
    assert forall|a: int| 0 <= a < n implies #[trigger] leads_right(now, root, a) by {
        assert(leads_right(seen, root, a));
        if a == p {
            assert(match root[p] {
                SsaValue::Phi(k) => k.0 < n ==> root[k.0 as int] == SsaValue::Phi(k),
                _ => true,
            });
        }
    }
    assert forall|i: int| 0 <= i < n && #[trigger] is_stale(now, root)(i) implies is_stale(seen, root)(i) by {}
    assert(is_stale(seen, root)(p));
    assert(!is_stale(now, root)(p));
    one_fewer_where(n, is_stale(now, root), is_stale(seen, root), p);
}

/// A phi that stands for itself is replaced.
proof fn replacement_keeps(flows: Seq<Seq<SsaValue>>, seen: Seq<SsaValue>, root: Seq<SsaValue>, p: int)
    requires
        flows.len() == root.len(),
        seen.len() == root.len(),
        root.len() <= usize::MAX,
        0 <= p < root.len(),
        settled(root),
        root[p] == own_value(p),
        sole_value(flows, root, p) is Some,
        forall|q: int| 0 <= q < root.len() ==> #[trigger] agrees(flows, root, q),
        forall|a: int| 0 <= a < root.len() ==> #[trigger] leads_right(seen, root, a),
    ensures
        ({
            let v = sole_value(flows, root, p)->0;
            let now = put_for(root, p, v);
            &&& settled(now)
            &&& forall|q: int| 0 <= q < root.len() ==> #[trigger] agrees(flows, now, q)
            &&& forall|a: int| 0 <= a < root.len() ==> #[trigger] leads_right(seen.update(p, v), now, a)
            &&& count_where(root.len(), is_kept(now)) < count_where(root.len(), is_kept(root))
        }),
{
    let v = sole_value(flows, root, p)->0;
    step_keeps(flows, root, p);
    kept_shrinks(root, p, v, root.len());
    replaced_leads_right(seen, root, p, v);
}

proof fn step_advances(flows: Seq<Seq<SsaValue>>, s: CollapseState)
    requires
        state_ok(flows, s),
        s.queue.len() > 0,
    ensures
        state_ok(flows, next_state(flows, s)),
        is_less(work_left(next_state(flows, s)), work_left(s)),
{
    reveal(state_ok);
    let now = next_state(flows, s);
    let p = s.queue[0] as int;
    let n = s.root.len();
    let m = operands_read(flows, s.root, p);
    let seen = all_looked_up(s.seen, s.root, flows[p], m);
    assert(s.queue[0] < n);
    looks_keep(s.seen, s.root, flows[p], m);
    fewer_where(n, is_stale(seen, s.root), is_stale(s.seen, s.root));
    let rest = s.queue.drop_first();
    assert forall|i: int| 0 <= i < rest.len() implies (#[trigger] rest[i]) < n by {
        assert(rest[i] == s.queue[i + 1]);
    }
    match sole_value(flows, s.root, p) {
        Some(v) => {
            if seen[p] != v {
                users_exist(flows, p, rest, flows.len());
                if s.root[p] == own_value(p) {
                    replacement_keeps(flows, seen, s.root, p);
                } else {
                    assert(agrees(flows, s.root, p));
                    sole_is_root(flows, s.root, p);
                    refresh_keeps(seen, s.root, p);
                }
            }
        },
        None => {},
    }
}

proof fn replaced_leads_right(seen: Seq<SsaValue>, root: Seq<SsaValue>, p: int, v: SsaValue)
    requires
        seen.len() == root.len(),
        root.len() <= usize::MAX,
        0 <= p < root.len(),
        root[p] == own_value(p),
        v != own_value(p),
        v is Phi && (v->Phi_0).0 < root.len() ==> root[(v->Phi_0).0 as int] == v,
        forall|a: int| 0 <= a < root.len() ==> #[trigger] leads_right(seen, root, a),
    ensures
        forall|a: int| 0 <= a < root.len() ==> #[trigger] leads_right(seen.update(p, v), put_for(root, p, v), a),
{
    let now = put_for(root, p, v);
    assert forall|a: int| 0 <= a < root.len() implies #[trigger] leads_right(seen.update(p, v), now, a) by {
        assert(leads_right(seen, root, a));
        if a != p {
            if let SsaValue::Phi(y) = seen[a] {
                if y.0 >= root.len() {
                    assert(root[a] != own_value(p));
                }
            }
        }
    }
}

proof fn steps_from(flows: Seq<Seq<SsaValue>>, k: nat) -> (end: nat)
    requires
        flows.len() <= usize::MAX,
        state_ok(flows, state_after(flows, k)),
    ensures
        is_done(flows, end),
    decreases work_left(state_after(flows, k)).0, work_left(state_after(flows, k)).1, work_left(state_after(flows, k)).2,
{
    let s = state_after(flows, k);
    if s.queue.len() == 0 {
        k
    } else {
        step_advances(flows, s);
        assert(state_after(flows, k + 1) == next_state(flows, s));
        steps_from(flows, k + 1)
    }
}

proof fn states_are_ok(flows: Seq<Seq<SsaValue>>, k: nat)
    requires
        flows.len() <= usize::MAX,
    ensures
        state_ok(flows, state_after(flows, k)),
    decreases k,
{
    if k == 0 {
        reveal(state_ok);
        let s = first_state(flows.len());
        assert forall|q: int| 0 <= q < s.root.len() implies #[trigger] agrees(flows, s.root, q) by {}
        assert forall|a: int| 0 <= a < s.root.len() implies #[trigger] leads_right(s.seen, s.root, a) by {}
    } else {
        states_are_ok(flows, (k - 1) as nat);
        let s = state_after(flows, (k - 1) as nat);
        if s.queue.len() > 0 {
            step_advances(flows, s);
        }
    }
}

/// Once no phi waits, nothing changes any more.
proof fn done_stays(flows: Seq<Seq<SsaValue>>, j: nat, k: nat)
    requires
        j <= k,
        is_done(flows, j),
    ensures
        state_after(flows, k) == state_after(flows, j),
    decreases k,
{
    if j < k {
        done_stays(flows, j, (k - 1) as nat);
    }
}

proof fn done_is_the_end(flows: Seq<Seq<SsaValue>>, k: nat)
    requires
        is_done(flows, k),
    ensures
        replacements(flows) == state_after(flows, k).root,
{
    let end = choose|k: nat| is_done(flows, k);
    if end <= k {
        done_stays(flows, end, k);
    } else {
        done_stays(flows, k, end);
    }
}

/// What the phis stand for in the end is settled, and nothing else flows into a phi that
/// stands for another value.
pub proof fn replacements_are_sound(flows: Seq<Seq<SsaValue>>)
    requires
        flows.len() <= usize::MAX,
    ensures
        replacements(flows).len() == flows.len(),
        settled(replacements(flows)),
        forall|q: int| 0 <= q < flows.len() ==> #[trigger] agrees(flows, replacements(flows), q),
{
    states_are_ok(flows, 0);
    let end = steps_from(flows, 0);
    done_is_the_end(flows, end);
    states_are_ok(flows, end);
    reveal(state_ok);
}

/// The values that flow into each phi.
pub open spec fn flows_of(phis: Seq<PhiCandidate>) -> Seq<Seq<SsaValue>> {
    Seq::new(phis.len(), |p: int| Seq::new(phis[p].incoming@.len(), |j: int| phis[p].incoming@[j].value))
}

/// The value is among the first `n` phis or the first `defs` definitions, or an initial one.
pub open spec fn within(v: SsaValue, n: nat, defs: nat) -> bool {
    match v {
        SsaValue::Phi(p) => p.0 < n,
        SsaValue::Def(d) => d.0 < defs,
        SsaValue::Entry(_) => true,
    }
}

/// Only values that there are flow into phis.
pub open spec fn flows_within(flows: Seq<Seq<SsaValue>>, n: nat, defs: nat) -> bool {
    forall|p: int, j: int| 0 <= p < flows.len() && 0 <= j < flows[p].len() ==> within(#[trigger] flows[p][j], n, defs)
}

proof fn roots_within(flows: Seq<Seq<SsaValue>>, k: nat, defs: nat)
    requires
        flows.len() <= usize::MAX,
        flows_within(flows, flows.len(), defs),
    ensures
        forall|q: int| 0 <= q < flows.len() ==> within(#[trigger] state_after(flows, k).root[q], flows.len(), defs),
    decreases k,
{
    if k > 0 {
        roots_within(flows, (k - 1) as nat, defs);
        states_are_ok(flows, (k - 1) as nat);
        reveal(state_ok);
        let s = state_after(flows, (k - 1) as nat);
        let now = state_after(flows, k);
        if s.queue.len() > 0 {
            let p = s.queue[0] as int;
            assert(s.queue[0] < flows.len());
            if let Some(v) = sole_value(flows, s.root, p) {
                first_where_least(flows[p].len(), is_foreign(flows, s.root, p));
                let j = first_where(flows[p].len(), is_foreign(flows, s.root, p))->0;
                assert(within(flows[p][j], flows.len(), defs));
                assert(within(v, flows.len(), defs));
            }
            assert forall|q: int| 0 <= q < flows.len() implies within(#[trigger] now.root[q], flows.len(), defs) by {
                assert(within(s.root[q], flows.len(), defs));
            }
        }
    }
}

/// What stands for a value is a value that there is.
pub proof fn replacements_within(flows: Seq<Seq<SsaValue>>, v: SsaValue, defs: nat)
    requires
        flows.len() <= usize::MAX,
        flows_within(flows, flows.len(), defs),
        within(v, flows.len(), defs),
    ensures
        replacements(flows).len() == flows.len(),
        within(resolved(replacements(flows), v), flows.len(), defs),
{
    replacements_are_sound(flows);
    roots_within(flows, choose|k: nat| is_done(flows, k), defs);
}

fn resolve(rep: &Vec<SsaValue>, v: SsaValue) -> (r: SsaValue)
    ensures
        r == resolved(rep@, v),
{
    match v {
        SsaValue::Phi(p) => if p.0 < rep.len() {
            rep[p.0]
        } else {
            v
        },
        _ => v,
    }
}

/// The only value that flows into a phi, with a look at every operand until two differ.
fn read_operands(phis: &Vec<PhiCandidate>, seen: &mut Vec<SsaValue>, root: &Vec<SsaValue>, p: usize) -> (r: Option<SsaValue>)
    requires
        p < phis@.len(),
        root@.len() == phis@.len(),
        old(seen)@.len() == root@.len(),
        root@.len() <= usize::MAX,
        settled(root@),
        forall|a: int| 0 <= a < root@.len() ==> #[trigger] leads_right(old(seen)@, root@, a),
    ensures
        r == sole_value(flows_of(phis@), root@, p as int),
        final(seen)@ == all_looked_up(
            old(seen)@,
            root@,
            flows_of(phis@)[p as int],
            operands_read(flows_of(phis@), root@, p as int),
        ),
{
    let own = SsaValue::Phi(PhiId(p));
    assert(own == own_value(p as int));
    let n = phis[p].incoming.len();
    let ghost flows = flows_of(phis@);
    let ghost f = is_foreign(flows, root@, p as int);
    let ghost c = clashes(flows, root@, p as int);
    let ghost before = seen@;
    let mut sole: Option<SsaValue> = None;
    let ghost mut at: int = 0;
    let mut j: usize = 0;
    while j < n
        invariant
            p < phis@.len(),
            own == own_value(p as int),
            flows == flows_of(phis@),
            n == phis@[p as int].incoming@.len(),
            flows[p as int].len() == n,
            f == is_foreign(flows, root@, p as int),
            c == clashes(flows, root@, p as int),
            before == old(seen)@,
            root@.len() <= usize::MAX,
            settled(root@),
            before.len() == root@.len(),
            forall|a: int| 0 <= a < root@.len() ==> #[trigger] leads_right(before, root@, a),
            j <= n,
            seen@ == all_looked_up(before, root@, flows[p as int], j as nat),
            first_where(j as nat, c) is None,
            match sole {
                None => first_where(j as nat, f) is None && forall|q: int|
                    0 <= q < j ==> #[trigger] operand(flows, root@, p as int, q) == own,
                Some(v) => first_where(j as nat, f) == Some(at) && 0 <= at < j && v == operand(flows, root@, p as int, at) && forall|q: int|
                    0 <= q < j ==> #[trigger] operand(flows, root@, p as int, q) == own || operand(flows, root@, p as int, q) == v,
            },
        decreases n - j,
    {
        assert(flows[p as int][j as int] == phis@[p as int].incoming@[j as int].value);
        let raw = phis[p].incoming[j].value;
        proof {
            looks_keep(before, root@, flows[p as int], j as nat);
        }
        look_up(seen, root, raw);
        let v = resolve(root, raw);
        assert(v == operand(flows, root@, p as int, j as int));
        assert(f(j as int) == (v != own));
        if v != own {
            match sole {
                None => {
                    sole = Some(v);
                    assert(!c(j as int));
                    proof {
                        at = j as int;
                    }
                },
                Some(x) => {
                    if x != v {
                        proof {
                            assert(c(j as int));
                            first_where_stable(j as nat, n as nat, f);
                            first_where_stable((j + 1) as nat, n as nat, c);
                        }
                        return None;
                    }
                    assert(!c(j as int));
                },
            }
        } else {
            assert(!c(j as int));
        }
        j = j + 1;
    }
    sole
}

fn flows_from(phi: &PhiCandidate, v: SsaValue) -> (r: bool)
    ensures
        r == (exists|j: int| 0 <= j < phi.incoming@.len() && (#[trigger] phi.incoming@[j]).value == v),
{
    let n = phi.incoming.len();
    let mut j: usize = 0;
    while j < n
        invariant
            n == phi.incoming@.len(),
            j <= n,
            forall|k: int| 0 <= k < j ==> (#[trigger] phi.incoming@[k]).value != v,
        decreases n - j,
    {
        if phi.incoming[j].value == v {
            assert(phi.incoming@[j as int].value == v);
            return true;
        }
        j = j + 1;
    }
    false
}

/// The flags say which phis wait.
spec fn flags_waiting(waiting: Seq<bool>, queue: Seq<usize>) -> bool {
    forall|q: int| 0 <= q < waiting.len() ==> #[trigger] waiting[q] == queue.contains(q as usize)
}

fn queue_users(phis: &Vec<PhiCandidate>, p: usize, queue: &mut Vec<usize>, waiting: &mut Vec<bool>)
    requires
        p < phis@.len(),
        old(waiting)@.len() == phis@.len(),
        flags_waiting(old(waiting)@, old(queue)@),
    ensures
        final(queue)@ == with_users(flows_of(phis@), p as int, old(queue)@, phis@.len()),
        final(waiting)@.len() == phis@.len(),
        flags_waiting(final(waiting)@, final(queue)@),
{
    let n = phis.len();
    let own = SsaValue::Phi(PhiId(p));
    let ghost flows = flows_of(phis@);
    let ghost before = queue@;
    let mut q: usize = 0;
    while q < n
        invariant
            p < n,
            n == phis@.len(),
            own == own_value(p as int),
            flows == flows_of(phis@),
            before == old(queue)@,
            waiting@.len() == n,
            flags_waiting(waiting@, queue@),
            q <= n,
            queue@ == with_users(flows, p as int, before, q as nat),
        decreases n - q,
    {
        let uses = flows_from(&phis[q], own);
        proof {
            assert(uses == flows[q as int].contains(own)) by {
                if uses {
                    let j = choose|j: int| 0 <= j < phis@[q as int].incoming@.len() && (#[trigger] phis@[q as int].incoming@[j]).value == own;
                    assert(flows[q as int][j] == own);
                }
                if flows[q as int].contains(own) {
                    let j = flows[q as int].index_of(own);
                    assert(phis@[q as int].incoming@[j].value == own);
                }
            }
            assert(waiting@[q as int] == queue@.contains(q));
        }
        if q != p && uses && !waiting[q] {
            let ghost had = queue@;
            queue.push(q);
            waiting[q] = true;
            proof {
                assert forall|x: int| 0 <= x < waiting@.len() implies #[trigger] waiting@[x] == queue@.contains(x as usize) by {
                    if had.contains(x as usize) {
                        assert(queue@[had.index_of(x as usize)] == x);
                    }
                    if x == q {
                        assert(queue@[had.len() as int] == q);
                    }
                    if queue@.contains(x as usize) && x != q {
                        let i = queue@.index_of(x as usize);
                        assert(had[i] == x);
                    }
                }
            }
        }
        q = q + 1;
    }
}

/// Looks up what a value stands for.
fn look_up(seen: &mut Vec<SsaValue>, root: &Vec<SsaValue>, v: SsaValue)
    requires
        old(seen)@.len() == root@.len(),
        root@.len() <= usize::MAX,
        settled(root@),
        forall|a: int| 0 <= a < root@.len() ==> #[trigger] leads_right(old(seen)@, root@, a),
    ensures
        final(seen)@ == looked_up(old(seen)@, root@, v),
{
    let ghost before = seen@;
    let n = seen.len();
    let k = match v {
        SsaValue::Phi(k) => k.0,
        _ => {
            assert(seen@ =~= looked_up(before, root@, v));
            return;
        },
    };
    if k >= n {
        proof {
            assert forall|x: int| 0 <= x < n implies before[x] == looked_up(before, root@, v)[x] by {
                if passes(before, v, x as usize) {
                    nowhere(before, k, x as usize);
                }
            }
            assert(seen@ =~= looked_up(before, root@, v));
        }
        return;
    }
    if seen[k] == root[k] {
        proof {
            way_is_short(before, root@, k);
            assert(seen@ =~= looked_up(before, root@, v));
        }
        return;
    }
    let rows = pointer_rows(seen);
    let mut starts: Vec<usize> = Vec::new();
    starts.push(k);
    let on_way = close(&rows, &starts);
    let to = root[k];
    let mut x: usize = 0;
    proof {
        assert forall|y: usize| y < n implies on_way@[y as int] == reaches(points(before), k, y) by {
            assert(flagged(on_way@).contains(y) == on_way@[y as int]);
            assert(starts@[0] == k);
            rows_are_points(rows@, before);
            if closes_to(rows@, starts@, y) {
                let i = choose|i: int| 0 <= i < starts@.len() && reaches(adjacent(rows@), #[trigger] starts@[i], y);
                assert(starts@[i] == k);
                reaches_monotone(adjacent(rows@), points(before), k, y);
            }
            if reaches(points(before), k, y) {
                in_range_way(before, root@, rows@, k, y);
                assert(reaches(adjacent(rows@), starts@[0], y));
            }
        }
    }
    while x < n
        invariant
            n == before.len(),
            n == on_way@.len(),
            n == seen@.len(),
            k < n,
            n == root@.len(),
            to == root@[k as int],
            v == SsaValue::Phi(PhiId(k)),
            forall|y: usize| y < n ==> #[trigger] on_way@[y as int] == reaches(points(before), k, y),
            x <= n,
            forall|y: int| 0 <= y < x ==> #[trigger] seen@[y] == looked_up(before, root@, v)[y],
            forall|y: int| x <= y < n ==> #[trigger] seen@[y] == before[y],
        decreases n - x,
    {
        assert(on_way@[x as int] == reaches(points(before), k, x));
        if on_way[x] {
            seen[x] = to;
        }
        x = x + 1;
    }
    assert(seen@ =~= looked_up(before, root@, v));
}

spec fn rows_point(rows: Seq<Vec<usize>>, seen: Seq<SsaValue>, n: int) -> bool {
    &&& rows.len() == n
    &&& forall|a: int, k: int| 0 <= a < n && 0 <= k < rows[a]@.len() ==> (#[trigger] rows[a]@[k]) < seen.len()
    &&& forall|a: int, b: usize|
        0 <= a < n ==> (#[trigger] rows[a]@.contains(b) <==> b < seen.len() && seen[a] == SsaValue::Phi(PhiId(b)))
}

/// For every phi the one that it was last seen to stand for.
fn pointer_rows(seen: &Vec<SsaValue>) -> (rows: Vec<Vec<usize>>)
    ensures
        rows_point(rows@, seen@, seen@.len() as int),
{
    let n = seen.len();
    let mut rows: Vec<Vec<usize>> = Vec::new();
    let mut a: usize = 0;
    while a < n
        invariant
            n == seen@.len(),
            a <= n,
            rows_point(rows@, seen@, a as int),
        decreases n - a,
    {
        let mut row: Vec<usize> = Vec::new();
        if let SsaValue::Phi(b) = seen[a] {
            if b.0 < n {
                row.push(b.0);
                assert(row@[0] == b.0);
            }
        }
        let ghost had = rows@;
        rows.push(row);
        proof {
            assert forall|x: int, b: usize| 0 <= x < a + 1 implies (#[trigger] rows@[x]@.contains(b) <==> b < n && seen@[x] == SsaValue::Phi(
                PhiId(b),
            )) by {
                if x < a {
                    assert(had[x]@.contains(b) <==> b < n && seen@[x] == SsaValue::Phi(PhiId(b)));
                }
            }
            assert forall|x: int, k: int| 0 <= x < a + 1 && 0 <= k < rows@[x]@.len() implies (#[trigger] rows@[x]@[k]) < n by {
                if x < a {
                    assert(had[x]@[k] < n);
                }
            }
        }
        a = a + 1;
    }
    rows
}

proof fn rows_are_points(rows: Seq<Vec<usize>>, seen: Seq<SsaValue>)
    requires
        rows_point(rows, seen, seen.len() as int),
    ensures
        forall|a: usize, b: usize| #[trigger] adjacent(rows)(a, b) ==> points(seen)(a, b),
{
    assert forall|a: usize, b: usize| #[trigger] adjacent(rows)(a, b) implies points(seen)(a, b) by {
        assert(rows[a as int]@.contains(b));
    }
}

/// A way to a phi that exists passes existing phis only.
proof fn in_range_way(seen: Seq<SsaValue>, root: Seq<SsaValue>, rows: Seq<Vec<usize>>, k: usize, y: usize)
    requires
        rows_point(rows, seen, seen.len() as int),
        k < seen.len(),
        y < seen.len(),
        reaches(points(seen), k, y),
    ensures
        reaches(adjacent(rows), k, y),
{
    let met = Set::new(|x: usize| x >= seen.len() || reaches(adjacent(rows), k, x));
    reaches_self(adjacent(rows), k);
    assert forall|a: usize, b: usize| met.contains(a) && #[trigger] points(seen)(a, b) implies met.contains(b) by {
        if b < seen.len() {
            assert(rows[a as int]@.contains(b));
            assert(adjacent(rows)(a, b));
            reaches_then_step(adjacent(rows), k, a, b);
        }
    }
    closed_set_holds_reachable(points(seen), met, k, y);
}

/// Where a phi is seen rightly, a look changes nothing.
proof fn way_is_short(seen: Seq<SsaValue>, root: Seq<SsaValue>, k: usize)
    requires
        seen.len() == root.len(),
        root.len() <= usize::MAX,
        k < root.len(),
        settled(root),
        seen[k as int] == root[k as int],
        forall|a: int| 0 <= a < root.len() ==> #[trigger] leads_right(seen, root, a),
    ensures
        forall|x: int| 0 <= x < root.len() ==> looked_up(seen, root, SsaValue::Phi(PhiId(k)))[x] == #[trigger] seen[x],
{
    let v = SsaValue::Phi(PhiId(k));
    let met = Set::new(|x: usize| x < root.len() ==> seen[x as int] == root[k as int]);
    assert forall|a: usize, b: usize| met.contains(a) && #[trigger] points(seen)(a, b) implies met.contains(b) by {
        if b < root.len() {
            assert(root[k as int] == SsaValue::Phi(PhiId(b)));
            assert(match root[k as int] {
                SsaValue::Phi(j) => j.0 < root.len() ==> root[j.0 as int] == SsaValue::Phi(j),
                _ => true,
            });
            assert(leads_right(seen, root, b as int));
        }
    }
    assert forall|x: int| 0 <= x < root.len() implies looked_up(seen, root, v)[x] == #[trigger] seen[x] by {
        if passes(seen, v, x as usize) {
            closed_set_holds_reachable(points(seen), met, k, x as usize);
        }
    }
}
/// Finds what every phi stands for.
pub fn trivial_phi_replacements(phis: &Vec<PhiCandidate>) -> (r: Vec<SsaValue>)
    requires
        forall|p: int| 0 <= p < phis@.len() ==> (#[trigger] phis@[p]).id.0 == p,
        forall|p: int, j: int|
            0 <= p < phis@.len() && 0 <= j < phis@[p].incoming@.len() ==> match (#[trigger] phis@[p].incoming@[j]).value {
                SsaValue::Phi(q) => q.0 < phis@.len(),
                _ => true,
            },
    ensures
        r@ == replacements(flows_of(phis@)),
        r@.len() == phis@.len(),
{
    let n = phis.len();
    let ghost flows = flows_of(phis@);
    let mut seen: Vec<SsaValue> = Vec::new();
    let mut root: Vec<SsaValue> = Vec::new();
    let mut queue: Vec<usize> = Vec::new();
    let mut p: usize = 0;
    while p < n
        invariant
            p <= n,
            root@.len() == p,
            seen@ == root@,
            queue@.len() == p,
            forall|q: int| 0 <= q < p ==> #[trigger] root@[q] == own_value(q),
            forall|q: int| 0 <= q < p ==> #[trigger] queue@[q] == q,
        decreases n - p,
    {
        seen.push(SsaValue::Phi(PhiId(p)));
        root.push(SsaValue::Phi(PhiId(p)));
        queue.push(p);
        assert(seen@ =~= root@);
        p = p + 1;
    }
    let mut waiting: Vec<bool> = vec![true; n];
    let ghost mut k: nat = 0;
    proof {
        assert(root@ =~= as_they_are(n as nat));
        assert(queue@ =~= first_state(n as nat).queue);
        assert forall|q: int| 0 <= q < n implies #[trigger] waiting@[q] == queue@.contains(q as usize) by {
            assert(queue@[q] == q);
        }
    }
    while queue.len() > 0
        invariant
            n == phis@.len(),
            flows == flows_of(phis@),
            state_after(flows, k) == (CollapseState { seen: seen@, root: root@, queue: queue@ }),
            waiting@.len() == n,
            flags_waiting(waiting@, queue@),
        decreases work_left(state_after(flows, k)).0, work_left(state_after(flows, k)).1, work_left(state_after(flows, k)).2,
    {
        proof {
            states_are_ok(flows, k);
            step_advances(flows, state_after(flows, k));
        }
        look_at_next(phis, &mut seen, &mut root, &mut queue, &mut waiting, Ghost(k));
        proof {
            k = k + 1;
        }
    }
    proof {
        done_is_the_end(flows, k);
        states_are_ok(flows, k);
        reveal(state_ok);
    }
    root
}

/// Looks at the phi that waits longest.
fn look_at_next(
    phis: &Vec<PhiCandidate>,
    seen: &mut Vec<SsaValue>,
    root: &mut Vec<SsaValue>,
    queue: &mut Vec<usize>,
    waiting: &mut Vec<bool>,
    Ghost(k): Ghost<nat>,
)
    requires
        state_after(flows_of(phis@), k) == (CollapseState { seen: old(seen)@, root: old(root)@, queue: old(queue)@ }),
        old(queue)@.len() > 0,
        old(waiting)@.len() == phis@.len(),
        flags_waiting(old(waiting)@, old(queue)@),
    ensures
        state_after(flows_of(phis@), k + 1) == (CollapseState { seen: final(seen)@, root: final(root)@, queue: final(queue)@ }),
        final(waiting)@.len() == phis@.len(),
        flags_waiting(final(waiting)@, final(queue)@),
{
    let ghost flows = flows_of(phis@);
    let ghost s = state_after(flows, k);
    assert(phis.len() <= usize::MAX);
    proof {
        states_are_ok(flows, k);
        reveal(state_ok);
        assert(s.queue[0] < flows.len());
    }
    let q = queue.remove(0);
    waiting[q] = false;
    proof {
        assert(queue@ =~= s.queue.drop_first());
        queue_without(flows, k, queue@, q);
        assert forall|x: int| 0 <= x < waiting@.len() implies #[trigger] waiting@[x] == queue@.contains(x as usize) by {
            if s.queue.contains(x as usize) && x != q {
                let i = s.queue.index_of(x as usize);
                assert(queue@[i - 1] == x);
            }
            if queue@.contains(x as usize) {
                let i = queue@.index_of(x as usize);
                assert(s.queue[i + 1] == x);
            }
        }
        looks_keep(s.seen, s.root, flows[q as int], operands_read(flows, s.root, q as int));
    }
    let sole = read_operands(phis, seen, root, q);
    if let Some(v) = sole {
        if seen[q] != v {
            seen[q] = v;
            replace_phi(root, q, v);
            queue_users(phis, q, queue, waiting);
        }
    }
}

/// No phi waits twice.
proof fn queue_without(flows: Seq<Seq<SsaValue>>, k: nat, rest: Seq<usize>, q: usize)
    requires
        flows.len() <= usize::MAX,
        state_after(flows, k).queue.len() > 0,
        q == state_after(flows, k).queue[0],
        rest == state_after(flows, k).queue.drop_first(),
    ensures
        !rest.contains(q),
{
    waits_once(flows, k);
    let all = state_after(flows, k).queue;
    if rest.contains(q) {
        let i = rest.index_of(q);
        assert(all[i + 1] == all[0]);
    }
}

proof fn waits_once(flows: Seq<Seq<SsaValue>>, k: nat)
    requires
        flows.len() <= usize::MAX,
    ensures
        state_after(flows, k).queue.no_duplicates(),
    decreases k,
{
    if k > 0 {
        waits_once(flows, (k - 1) as nat);
        let s = state_after(flows, (k - 1) as nat);
        if s.queue.len() > 0 {
            users_wait_once(flows, s.queue[0] as int, s.queue.drop_first(), flows.len());
        }
    }
}

proof fn users_wait_once(flows: Seq<Seq<SsaValue>>, p: int, queue: Seq<usize>, n: nat)
    requires
        queue.no_duplicates(),
    ensures
        with_users(flows, p, queue, n).no_duplicates(),
    decreases n,
{
    if n > 0 {
        users_wait_once(flows, p, queue, (n - 1) as nat);
    }
}

fn replace_phi(rep: &mut Vec<SsaValue>, p: usize, v: SsaValue)
    ensures
        final(rep)@ == put_for(old(rep)@, p as int, v),
{
    let n = rep.len();
    let own = SsaValue::Phi(PhiId(p));
    let mut q: usize = 0;
    while q < n
        invariant
            n == rep@.len(),
            n == old(rep)@.len(),
            own == own_value(p as int),
            q <= n,
            forall|k: int| 0 <= k < q ==> #[trigger] rep@[k] == put_for(old(rep)@, p as int, v)[k],
            forall|k: int| q <= k < n ==> #[trigger] rep@[k] == old(rep)@[k],
        decreases n - q,
    {
        if rep[q] == own {
            rep[q] = v;
        }
        q = q + 1;
    }
    assert(rep@ =~= put_for(old(rep)@, p as int, v));
}

/// The value under the new numbers: replaced phis give way, and the kept ones are counted.
pub open spec fn renumbered(rep: Seq<SsaValue>, v: SsaValue) -> SsaValue {
    match resolved(rep, v) {
        SsaValue::Phi(p) => SsaValue::Phi(PhiId(count_where(p.0 as nat, is_kept(rep)) as usize)),
        other => other,
    }
}

/// The new number of every phi: the number of kept ones before it.
pub fn number_kept(rep: &Vec<SsaValue>) -> (r: Vec<usize>)
    ensures
        r@.len() == rep@.len(),
        forall|p: int| 0 <= p < r@.len() ==> (#[trigger] r@[p]) as nat == count_where(p as nat, is_kept(rep@)),
{
    let n = rep.len();
    let ghost f = is_kept(rep@);
    let mut r: Vec<usize> = Vec::new();
    let mut next: usize = 0;
    let mut p: usize = 0;
    while p < n
        invariant
            n == rep@.len(),
            f == is_kept(rep@),
            p <= n,
            next <= p,
            next as nat == count_where(p as nat, f),
            r@.len() == p,
            forall|q: int| 0 <= q < p ==> (#[trigger] r@[q]) as nat == count_where(q as nat, f),
        decreases n - p,
    {
        r.push(next);
        let kept = rep[p] == SsaValue::Phi(PhiId(p));
        assert(f(p as int) == kept);
        if kept {
            next = next + 1;
        }
        p = p + 1;
    }
    r
}

/// A value under the new numbers.
pub fn remap_value(rep: &Vec<SsaValue>, numbers: &Vec<usize>, v: SsaValue) -> (r: SsaValue)
    requires
        rep@.len() == numbers@.len(),
        forall|p: int| 0 <= p < numbers@.len() ==> (#[trigger] numbers@[p]) as nat == count_where(p as nat, is_kept(rep@)),
        match resolved(rep@, v) {
            SsaValue::Phi(p) => p.0 < rep@.len(),
            _ => true,
        },
    ensures
        r == renumbered(rep@, v),
{
    match resolve(rep, v) {
        SsaValue::Phi(p) => SsaValue::Phi(PhiId(numbers[p.0])),
        other => other,
    }
}

/// Under the new numbers a value is among the kept phis or the definitions.
pub proof fn renumbered_within(flows: Seq<Seq<SsaValue>>, v: SsaValue, defs: nat)
    requires
        flows.len() <= usize::MAX,
        flows_within(flows, flows.len(), defs),
        within(v, flows.len(), defs),
    ensures
        within(
            renumbered(replacements(flows), v),
            count_where(flows.len(), is_kept(replacements(flows))),
            defs,
        ),
{
    let rep = replacements(flows);
    replacements_within(flows, v, defs);
    replacements_are_sound(flows);
    if let SsaValue::Phi(p) = resolved(rep, v) {
        if let SsaValue::Phi(x) = v {
            assert(rep[x.0 as int] == SsaValue::Phi(p));
        }
        assert(rep[p.0 as int] == own_value(p.0 as int));
        assert(is_kept(rep)(p.0 as int));
        count_where_bound(p.0 as nat, is_kept(rep));
        count_where_monotone((p.0 + 1) as nat, flows.len(), is_kept(rep));
    }
}

} // verus!
