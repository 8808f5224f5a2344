//! The two ways to ask for the edges of a route give one answer.

use vstd::prelude::*;

use crate::forest::{is_ancestor, up};
use crate::ids::EdgeRef;
use crate::plan::ForwardRouteId;
use crate::structure_plan::{chain, entry_at, StructurePlan};
use crate::tree::up_compose;

verus! {

/// The edge that follows each edge, by number.
pub open spec fn following(plan: &StructurePlan) -> Seq<Option<usize>> {
    Seq::new(
        plan.forward_next@.len(),
        |i: int|
            match plan.forward_next@[i] {
                Some(e) => Some(e.0),
                None => None,
            },
    )
}

/// The edge belongs to the forest of the ways.
pub open spec fn is_numbered(plan: &StructurePlan, e: EdgeRef) -> bool {
    e.0 < plan.forward_preorder@.len() && plan.forward_preorder@[e.0 as int] != usize::MAX
}

/// The numbers of the edges lay out the forest of the ways.
pub open spec fn ways_laid_out(plan: &StructurePlan) -> bool {
    &&& plan.forward_preorder@.len() == plan.forward_next@.len()
    &&& plan.forward_wf()
    &&& forall|a: EdgeRef, e: EdgeRef| #[trigger]
        plan.follows(a, e) <==> is_numbered(plan, a) && is_numbered(plan, e) && is_ancestor(following(plan), a.0, e.0)
}

/// The route starts and ends at known edges, and is as long as it says.
pub open spec fn route_measured(plan: &StructurePlan, id: ForwardRouteId) -> bool {
    let route = plan.forward_routes@[id.0 as int];
    let edges = chain(plan.forward_next@, Some(route.first), route.len as nat);
    &&& id.0 < plan.forward_routes@.len()
    &&& is_numbered(plan, route.first)
    &&& edges.len() == route.len
    &&& route.len > 0
    &&& edges.last() == route.last
}

/// The edge at position `i` of a way lies `i` steps behind its first.
proof fn chain_goes_up(plan: &StructurePlan, first: EdgeRef, n: nat, i: nat)
    requires
        first.0 < plan.forward_next@.len(),
        i < chain(plan.forward_next@, Some(first), n).len(),
        plan.forward_preorder@.len() == plan.forward_next@.len(),
        plan.forward_wf(),
    ensures
        up(following(plan), first.0, i) == Some(chain(plan.forward_next@, Some(first), n)[i as int].0),
        chain(plan.forward_next@, Some(first), n)[i as int].0 < plan.forward_next@.len(),
    decreases n,
{
    let next = plan.forward_next@;
    if i > 0 {
        assert(entry_at(next, first.0) is Some) by {
            reveal_with_fuel(chain, 2);
        }
        let second = entry_at(next, first.0)->0;
        assert(next[first.0 as int] is Some);
        chain_goes_up(plan, second, (n - 1) as nat, (i - 1) as nat);
        assert(up(following(plan), first.0, 0) == Some(first.0));
        assert(up(following(plan), first.0, 1) == Some(second.0)) by {
            reveal_with_fuel(up, 2);
        }
        up_compose(following(plan), first.0, 1, (i - 1) as nat);
    }
}

/// The numbers fall along a way, so no edge comes twice.
proof fn numbers_fall(plan: &StructurePlan, e: usize, k: nat)
    requires
        e < plan.forward_next@.len(),
        plan.forward_preorder@.len() == plan.forward_next@.len(),
        plan.forward_wf(),
        up(following(plan), e, k) is Some,
    ensures
        up(following(plan), e, k)->0 < plan.forward_next@.len(),
        k > 0 ==> plan.forward_preorder@[up(following(plan), e, k)->0 as int] < plan.forward_preorder@[e as int],
    decreases k,
{
    if k > 0 {
        numbers_fall(plan, e, (k - 1) as nat);
        let x = up(following(plan), e, (k - 1) as nat)->0;
        assert(plan.forward_next@[x as int] is Some);
    }
}

/// An edge is said to lie on a route just when it is one of the route's edges.
pub proof fn routes_hold_their_edges(plan: &StructurePlan, id: ForwardRouteId, e: EdgeRef)
    requires
        ways_laid_out(plan),
        route_measured(plan, id),
    ensures
        plan.on_route(id, e) <==> chain(
            plan.forward_next@,
            Some(plan.forward_routes@[id.0 as int].first),
            plan.forward_routes@[id.0 as int].len as nat,
        ).contains(e),
{
    let route = plan.forward_routes@[id.0 as int];
    let n = route.len as nat;
    let edges = chain(plan.forward_next@, Some(route.first), n);
    let parent = following(plan);
    let first = route.first.0;
    chain_goes_up(plan, route.first, n, (n - 1) as nat);
    assert(up(parent, first, (n - 1) as nat) == Some(route.last.0));
    if edges.contains(e) {
        let i = edges.index_of(e);
        chain_goes_up(plan, route.first, n, i as nat);
        numbers_fall(plan, first, i as nat);
        numbers_fall(plan, first, (n - 1) as nat);
        assert(is_ancestor(parent, e.0, first));
        up_compose(parent, first, i as nat, (n - 1 - i) as nat);
        assert(i as nat + (n - 1 - i) as nat == (n - 1) as nat);
        assert(up(parent, e.0, (n - 1 - i) as nat) == Some(route.last.0));
        assert(is_ancestor(parent, route.last.0, e.0));
        assert(plan.follows(e, route.first));
        assert(plan.follows(route.last, e));
    }
    if plan.on_route(id, e) {
        assert(plan.follows(e, route.first));
        assert(plan.follows(route.last, e));
        let k = choose|k: nat| #[trigger] up(parent, first, k) == Some(e.0);
        let j = choose|j: nat| #[trigger] up(parent, e.0, j) == Some(route.last.0);
        up_compose(parent, first, k, j);
        if k >= n {
            let more = (k + j - (n - 1)) as nat;
            up_compose(parent, first, (n - 1) as nat, more);
            assert((n - 1) as nat + more == k + j);
            assert(up(parent, route.last.0, more) == Some(route.last.0));
            numbers_fall(plan, route.last.0, more);
        }
        chain_goes_up(plan, route.first, n, k);
        assert(edges[k as int] == e);
    }
}

} // verus!
