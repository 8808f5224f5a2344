//! Which region takes care of a value when several could.

use vstd::prelude::*;
use vstd::set_lib::{lemma_int_range, lemma_len_subset, set_int_range};

use crate::dense::{adjacent, close, closes_to, flagged};
use crate::error::{Fault, StructureError};
use crate::forest::{
    child_lists, in_interval, interval_is_ancestry, intervals, is_ancestor, kids, kids_listed, up, up_extends,
};
use crate::plan::{PhiIncomingDisposition, RegionId, RegionPlan};
use crate::search::{first_some, first_some_empty, first_some_stable, first_where, first_where_least, first_where_stable};
use crate::structure_plan::StructurePlan;
use crate::tree::up_compose;
use crate::walk::{closed_set_holds_reachable, reaches, reaches_self, reaches_then_step};

verus! {

/// The region around each region.
pub open spec fn parents(plan: &StructurePlan) -> Seq<Option<usize>> {
    Seq::new(
        plan.regions@.len(),
        |i: int|
            match plan.regions@[i].parent_of() {
                Some(p) => Some(p.0),
                None => None,
            },
    )
}

/// Region `i` has no parent though it is not the root, has one though it is, or has one that
/// does not exist.
pub open spec fn parent_fault(plan: &StructurePlan) -> spec_fn(int) -> Option<Fault> {
    |i: int|
        match plan.regions@[i].parent_of() {
            None => if i == plan.root.0 {
                None
            } else {
                Some(Fault::RegionWithoutParent(RegionId(i as usize)))
            },
            Some(p) => if i == plan.root.0 {
                Some(Fault::RegionRootHasParent)
            } else if p.0 >= plan.regions@.len() {
                Some(Fault::RegionMissingParent(RegionId(i as usize), p))
            } else {
                None
            },
        }
}

pub open spec fn is_detached(plan: &StructurePlan) -> spec_fn(int) -> bool {
    |i: int| !is_ancestor(parents(plan), plan.root.0, i as usize)
}

/// What keeps the regions from forming a tree below the root.
pub open spec fn tree_fault(plan: &StructurePlan) -> Option<Fault> {
    let n = plan.regions@.len();
    if n == 0 || plan.root.0 >= n {
        Some(Fault::RegionRootMissing)
    } else {
        match first_some(n, parent_fault(plan)) {
            Some(f) => Some(f),
            None => match first_where(n, is_detached(plan)) {
                Some(i) => Some(Fault::RegionDisconnected(RegionId(i as usize))),
                None => None,
            },
        }
    }
}

/// Region `a` lies around region `r`, or is it.
pub open spec fn lies_around(plan: &StructurePlan, a: RegionId, r: RegionId) -> bool {
    a.0 < plan.regions@.len() && r.0 < plan.regions@.len() && is_ancestor(parents(plan), a.0, r.0)
}

/// A branch lies around the region, or the region is one.
pub open spec fn in_branch(plan: &StructurePlan, r: RegionId) -> bool {
    exists|a: RegionId| #[trigger] lies_around(plan, a, r) && plan.regions@[a.0 as int] is Branch
}

pub open spec fn is_value_region(plan: &StructurePlan, r: RegionId) -> bool {
    r.0 < plan.regions@.len() && plan.regions@[r.0 as int] is ValueDecision
}

/// Where the regions lie in each other.
pub struct RegionOwnerIndex<'a> {
    pub plan: &'a StructurePlan,
    pub enter: Vec<Option<usize>>,
    pub exit: Vec<Option<usize>>,
    pub inside_branch: Vec<bool>,
    pub value_decision: Vec<bool>,
}

impl<'a> RegionOwnerIndex<'a> {
    /// The index answers for the plan.
    pub open spec fn wf(&self) -> bool {
        let plan = self.plan;
        &&& self.enter@.len() == plan.regions@.len()
        &&& self.exit@.len() == plan.regions@.len()
        &&& self.inside_branch@.len() == plan.regions@.len()
        &&& self.value_decision@.len() == plan.regions@.len()
        &&& forall|a: RegionId, r: RegionId| #[trigger] lies_around(plan, a, r) <==> in_interval(self.enter@, self.exit@, a.0, r.0)
        &&& forall|i: int| 0 <= i < self.inside_branch@.len() ==> #[trigger] self.inside_branch@[i] == in_branch(plan, RegionId(i as usize))
        &&& forall|i: int|
            0 <= i < self.value_decision@.len() ==> #[trigger] self.value_decision@[i] == is_value_region(plan, RegionId(i as usize))
    }

    pub fn contains(&self, ancestor: RegionId, region: RegionId) -> (r: bool)
        requires
            self.wf(),
        ensures
            r == lies_around(self.plan, ancestor, region),
    {
        assert(lies_around(self.plan, ancestor, region) <==> in_interval(self.enter@, self.exit@, ancestor.0, region.0));
        if ancestor.0 >= self.enter.len() || ancestor.0 >= self.exit.len() || region.0 >= self.enter.len() {
            return false;
        }
        match (self.enter[ancestor.0], self.exit[ancestor.0], self.enter[region.0]) {
            (Some(s), Some(e), Some(x)) => s <= x && x < e,
            _ => false,
        }
    }

    pub fn inside_branch(&self, region: RegionId) -> (r: bool)
        requires
            self.wf(),
        ensures
            r == in_branch(self.plan, region),
    {
        assert(region == RegionId(region.0));
        region.0 < self.inside_branch.len() && self.inside_branch[region.0]
    }

    pub fn is_value_decision(&self, region: RegionId) -> (r: bool)
        requires
            self.wf(),
        ensures
            r == is_value_region(self.plan, region),
    {
        assert(region == RegionId(region.0));
        region.0 < self.value_decision.len() && self.value_decision[region.0]
    }

    pub fn more_specific(&self, left: RegionId, right: RegionId) -> (r: Option<RegionId>)
        requires
            self.wf(),
        ensures
            r == inner_of(self.plan, left, right),
    {
        if self.contains(left, right) {
            Some(right)
        } else if self.contains(right, left) {
            Some(left)
        } else {
            None
        }
    }
}

/// The inner one of two regions, when one lies in the other.
pub open spec fn inner_of(plan: &StructurePlan, left: RegionId, right: RegionId) -> Option<RegionId> {
    if lies_around(plan, left, right) {
        Some(right)
    } else if lies_around(plan, right, left) {
        Some(left)
    } else {
        None
    }
}

fn collect_parents(plan: &StructurePlan) -> (r: Vec<Option<usize>>)
    ensures
        r@ == parents(plan),
{
    let n = plan.regions.len();
    let mut r: Vec<Option<usize>> = Vec::new();
    let mut i: usize = 0;
    while i < n
        invariant
            n == plan.regions@.len(),
            i <= n,
            r@.len() == i,
            forall|k: int| 0 <= k < i ==> #[trigger] r@[k] == parents(plan)[k],
        decreases n - i,
    {
        r.push(
            match plan.regions[i].parent() {
                Some(p) => Some(p.0),
                None => None,
            },
        );
        i = i + 1;
    }
    assert(r@ =~= parents(plan));
    r
}

fn find_parent_fault(plan: &StructurePlan) -> (r: Option<Fault>)
    ensures
        r == first_some(plan.regions@.len(), parent_fault(plan)),
{
    let n = plan.regions.len();
    let ghost f = parent_fault(plan);
    let mut i: usize = 0;
    while i < n
        invariant
            n == plan.regions@.len(),
            f == parent_fault(plan),
            i <= n,
            first_some(i as nat, f) is None,
        decreases n - i,
    {
        let fault = match plan.regions[i].parent() {
            None => if i == plan.root.0 {
                None
            } else {
                Some(Fault::RegionWithoutParent(RegionId(i)))
            },
            Some(p) => if i == plan.root.0 {
                Some(Fault::RegionRootHasParent)
            } else if p.0 >= n {
                Some(Fault::RegionMissingParent(RegionId(i), p))
            } else {
                None
            },
        };
        assert(fault == f(i as int));
        if fault.is_some() {
            proof {
                first_some_stable((i + 1) as nat, n as nat, f);
            }
            return fault;
        }
        i = i + 1;
    }
    None
}

/// Going down from `a` reaches exactly what `a` lies around.
proof fn descent_is_ancestry(parent: Seq<Option<usize>>, children: Seq<Vec<usize>>, a: usize, b: usize)
    requires
        parent.len() <= usize::MAX,
        children.len() == parent.len(),
        forall|p: int| 0 <= p < parent.len() ==> (#[trigger] children[p])@ == kids(parent, p as usize, parent.len()),
        forall|x: int| 0 <= x < parent.len() ==> match #[trigger] parent[x] {
            Some(p) => p < parent.len(),
            None => true,
        },
        a < parent.len(),
        b < parent.len(),
    ensures
        reaches(adjacent(children), a, b) <==> is_ancestor(parent, a, b),
{
    let step = adjacent(children);
    if reaches(step, a, b) {
        let s = Set::new(|x: usize| is_ancestor(parent, a, x));
        assert(up(parent, a, 0) == Some(a));
        assert forall|x: usize, y: usize| s.contains(x) && #[trigger] step(x, y) implies s.contains(y) by {
            kids_listed(parent, x, parent.len());
            assert(children[x as int]@.contains(y));
            assert(y < parent.len() && parent[y as int] == Some(x));
            let k = choose|k: nat| #[trigger] up(parent, x, k) == Some(a);
            up_extends(parent, y, k);
            assert(up(parent, y, k + 1) == Some(a));
        }
        closed_set_holds_reachable(step, s, a, b);
    }
    if is_ancestor(parent, a, b) {
        let k = choose|k: nat| #[trigger] up(parent, b, k) == Some(a);
        ancestor_descends(parent, children, a, b, k);
    }
}

proof fn ancestor_descends(parent: Seq<Option<usize>>, children: Seq<Vec<usize>>, a: usize, b: usize, k: nat)
    requires
        parent.len() <= usize::MAX,
        children.len() == parent.len(),
        forall|p: int| 0 <= p < parent.len() ==> (#[trigger] children[p])@ == kids(parent, p as usize, parent.len()),
        forall|x: int| 0 <= x < parent.len() ==> match #[trigger] parent[x] {
            Some(p) => p < parent.len(),
            None => true,
        },
        b < parent.len(),
        up(parent, b, k) == Some(a),
    ensures
        reaches(adjacent(children), a, b),
    decreases k,
{
    let step = adjacent(children);
    if k == 0 {
        reaches_self(step, a);
    } else {
        up_extends(parent, b, (k - 1) as nat);
        let p = parent[b as int]->0;
        ancestor_descends(parent, children, a, p, (k - 1) as nat);
        kids_listed(parent, p, parent.len());
        assert(children[p as int]@.contains(b));
        assert(step(p, b));
        reaches_then_step(step, a, p, b);
    }
}

/// The distance to the root, where there is one.
spec fn distance(parent: Seq<Option<usize>>, root: usize, b: usize) -> nat {
    choose|k: nat| #[trigger] up(parent, b, k) == Some(root)
}

/// Below a root without a parent the distance is the only one, and a child lies one further.
proof fn distance_grows(parent: Seq<Option<usize>>, root: usize, b: usize)
    requires
        root < parent.len(),
        parent[root as int] is None,
        b < parent.len(),
        is_ancestor(parent, root, b),
        parent[b as int] is Some,
        parent[b as int]->0 < parent.len(),
    ensures
        is_ancestor(parent, root, parent[b as int]->0),
        distance(parent, root, parent[b as int]->0) < distance(parent, root, b),
{
    let p = parent[b as int]->0;
    let k = distance(parent, root, b);
    assert(up(parent, b, k) == Some(root));
    assert(k > 0) by {
        if k == 0 {
            assert(b == root);
        }
    }
    up_extends(parent, b, (k - 1) as nat);
    assert(up(parent, p, (k - 1) as nat) == Some(root));
    let j = distance(parent, root, p);
    assert(up(parent, p, j) == Some(root));
    only_distance(parent, root, p, j, (k - 1) as nat);
}

proof fn only_distance(parent: Seq<Option<usize>>, root: usize, b: usize, j: nat, k: nat)
    requires
        root < parent.len(),
        parent[root as int] is None,
        up(parent, b, j) == Some(root),
        up(parent, b, k) == Some(root),
    ensures
        j == k,
{
    if j < k {
        beyond_root(parent, root, b, j, k);
    } else if k < j {
        beyond_root(parent, root, b, k, j);
    }
}

proof fn beyond_root(parent: Seq<Option<usize>>, root: usize, b: usize, j: nat, k: nat)
    requires
        root < parent.len(),
        parent[root as int] is None,
        up(parent, b, j) == Some(root),
        j < k,
    ensures
        up(parent, b, k) is None,
    decreases k,
{
    if k > j + 1 {
        beyond_root(parent, root, b, j, (k - 1) as nat);
    }
}

impl<'a> RegionOwnerIndex<'a> {
    /// Indexes the regions. They have to form a tree below the root.
    pub fn new(plan: &'a StructurePlan) -> (r: Result<Self, StructureError>)
        ensures
            match r {
                Ok(index) => tree_fault(plan) is None && index.wf() && index.plan == plan,
                Err(e) => tree_fault(plan) == Some(e.fault),
            },
    {
        let n = plan.regions.len();
        if n == 0 || plan.root.0 >= n {
            return Err(StructureError::invalid(Fault::RegionRootMissing));
        }
        if let Some(f) = find_parent_fault(plan) {
            return Err(StructureError::invalid(f));
        }
        let root = plan.root.0;
        let parent = collect_parents(plan);
        proof {
            first_some_empty(n as nat, parent_fault(plan));
            assert forall|b: int| 0 <= b < n implies match #[trigger] parent@[b] {
                Some(p) => p < n && b != root,
                None => b == root,
            } by {
                assert(parent_fault(plan)(b) is None);
            }
        }
        let children = child_lists(&parent);
        let mut starts: Vec<usize> = Vec::new();
        starts.push(root);
        proof {
            assert forall|a: int, k: int| 0 <= a < children@.len() && 0 <= k < children@[a]@.len() implies (#[trigger] children@[a]@[k])
                < children@.len() by {
                kids_listed(parent@, a as usize, parent@.len());
                assert(children@[a]@.contains(children@[a]@[k]));
            }
        }
        let seen = close(&children, &starts);
        let ghost p = is_detached(plan);
        let mut i: usize = 0;
        while i < n
            invariant
                n == plan.regions@.len(),
                n == parent@.len(),
                parent@ == parents(plan),
                root == plan.root.0,
                root < n,
                forall|b: int| 0 <= b < n ==> match #[trigger] parent@[b] {
                    Some(p) => p < n && b != root,
                    None => b == root,
                },
                children@.len() == n,
                forall|p: int| 0 <= p < n ==> (#[trigger] children@[p])@ == kids(parent@, p as usize, parent@.len()),
                seen@.len() == n,
                starts@ =~= seq![root],
                forall|b: usize| #[trigger] flagged(seen@).contains(b) <==> closes_to(children@, starts@, b),
                n <= usize::MAX,
                first_some(n as nat, parent_fault(plan)) is None,
                p == is_detached(plan),
                i <= n,
                first_where(i as nat, p) is None,
                forall|k: int| 0 <= k < i ==> is_ancestor(parent@, root, #[trigger] (k as usize)),
            decreases n - i,
        {
            proof {
                descent_is_ancestry(parent@, children@, root, i);
                assert(flagged(seen@).contains(i) == seen@[i as int]);
                assert(starts@[0] == root);
                if closes_to(children@, starts@, i) {
                    let k = choose|k: int| 0 <= k < starts@.len() && reaches(adjacent(children@), #[trigger] starts@[k], i);
                    assert(starts@[k] == root);
                }
                assert(p(i as int) == !seen@[i as int]);
            }
            if !seen[i] {
                proof {
                    first_where_stable((i + 1) as nat, n as nat, p);
                }
                return Err(StructureError::invalid(Fault::RegionDisconnected(RegionId(i))));
            }
            i = i + 1;
        }
        let member: Vec<bool> = vec![true; n];
        let ghost rank = Seq::new(n as nat, |b: int| distance(parent@, root, b as usize));
        proof {
            assert forall|b: int| 0 <= b < parent@.len() implies match #[trigger] parent@[b] {
                Some(q) => q < parent@.len() && member@[q as int] && member@[b] && rank[q as int] < rank[b],
                None => true,
            } by {
                if parent@[b] is Some {
                    let x = b as usize;
                    assert(is_ancestor(parent@, root, x));
                    distance_grows(parent@, root, x);
                }
            }
        }
        let (enter, exit, _) = intervals(&parent, &member, &children, Ghost(rank));
        proof {
            assert forall|a: RegionId, r: RegionId| #[trigger] lies_around(plan, a, r) <==> in_interval(enter@, exit@, a.0, r.0) by {
                interval_is_ancestry(parent@, member@, rank, enter@, exit@, a.0, r.0);
            }
        }
        let mut inside_branch: Vec<bool> = vec![false; n];
        let mut value_decision: Vec<bool> = Vec::new();
        let mut k: usize = 0;
        while k < n
            invariant
                n == plan.regions@.len(),
                enter@.len() == n,
                exit@.len() == n,
                forall|a: RegionId, r: RegionId| #[trigger] lies_around(plan, a, r) <==> in_interval(enter@, exit@, a.0, r.0),
                k <= n,
                inside_branch@.len() == n,
                value_decision@.len() == k,
                forall|i: int| 0 <= i < k ==> #[trigger] value_decision@[i] == is_value_region(plan, RegionId(i as usize)),
                forall|i: int|
                    0 <= i < n ==> #[trigger] inside_branch@[i] == branch_before(plan, k as int, RegionId(i as usize)),
            decreases n - k,
        {
            let ghost before = inside_branch@;
            let is_branch = match &plan.regions[k] {
                RegionPlan::Branch { .. } => true,
                _ => false,
            };
            let is_value = match &plan.regions[k] {
                RegionPlan::ValueDecision { .. } => true,
                _ => false,
            };
            value_decision.push(is_value);
            if is_branch {
                mark_inside(plan, &enter, &exit, k, &mut inside_branch);
            }
            proof {
                assert forall|i: int| 0 <= i < n implies #[trigger] inside_branch@[i] == branch_before(plan, k as int + 1, RegionId(i as usize)) by {
                    let r = RegionId(i as usize);
                    assert(before[i] == branch_before(plan, k as int, r));
                    if branch_before(plan, k as int, r) {
                        let a = choose|a: RegionId| #[trigger] lies_around(plan, a, r) && a.0 < k && plan.regions@[a.0 as int] is Branch;
                        assert(lies_around(plan, a, r) && a.0 < k + 1 && plan.regions@[a.0 as int] is Branch);
                    }
                    if is_branch && lies_around(plan, RegionId(k), r) {
                        assert(branch_before(plan, k as int + 1, r));
                    }
                    if branch_before(plan, k as int + 1, r) {
                        let a = choose|a: RegionId| #[trigger] lies_around(plan, a, r) && a.0 < k + 1 && plan.regions@[a.0 as int] is Branch;
                        if a.0 < k {
                            assert(branch_before(plan, k as int, r));
                        } else {
                            assert(a == RegionId(k));
                        }
                    }
                }
            }
            k = k + 1;
        }
        proof {
            assert forall|i: int| 0 <= i < n implies #[trigger] inside_branch@[i] == in_branch(plan, RegionId(i as usize)) by {
                let r = RegionId(i as usize);
                assert(inside_branch@[i] == branch_before(plan, n as int, r));
                if in_branch(plan, r) {
                    let a = choose|a: RegionId| #[trigger] lies_around(plan, a, r) && plan.regions@[a.0 as int] is Branch;
                    assert(lies_around(plan, a, r) && a.0 < n && plan.regions@[a.0 as int] is Branch);
                }
            }
        }
        Ok(RegionOwnerIndex { plan, enter, exit, inside_branch, value_decision })
    }
}

spec fn branch_before(plan: &StructurePlan, n: int, r: RegionId) -> bool {
    exists|a: RegionId| #[trigger] lies_around(plan, a, r) && a.0 < n && plan.regions@[a.0 as int] is Branch
}

/// Flags everything that region `a` lies around.
fn mark_inside(plan: &StructurePlan, enter: &Vec<Option<usize>>, exit: &Vec<Option<usize>>, a: usize, mask: &mut Vec<bool>)
    requires
        enter@.len() == plan.regions@.len(),
        exit@.len() == plan.regions@.len(),
        old(mask)@.len() == plan.regions@.len(),
        a < plan.regions@.len(),
        forall|x: RegionId, r: RegionId| #[trigger] lies_around(plan, x, r) <==> in_interval(enter@, exit@, x.0, r.0),
    ensures
        final(mask)@.len() == old(mask)@.len(),
        forall|i: int|
            0 <= i < final(mask)@.len() ==> #[trigger] final(mask)@[i] == (old(mask)@[i] || lies_around(
                plan,
                RegionId(a),
                RegionId(i as usize),
            )),
{
    let n = mask.len();
    let mut i: usize = 0;
    while i < n
        invariant
            n == mask@.len(),
            n == old(mask)@.len(),
            n == plan.regions@.len(),
            enter@.len() == n,
            exit@.len() == n,
            a < n,
            forall|x: RegionId, r: RegionId| #[trigger] lies_around(plan, x, r) <==> in_interval(enter@, exit@, x.0, r.0),
            i <= n,
            forall|k: int|
                0 <= k < i ==> #[trigger] mask@[k] == (old(mask)@[k] || lies_around(plan, RegionId(a), RegionId(k as usize))),
            forall|k: int| i <= k < n ==> #[trigger] mask@[k] == old(mask)@[k],
        decreases n - i,
    {
        let inside = match (enter[a], exit[a], enter[i]) {
            (Some(s), Some(e), Some(x)) => s <= x && x < e,
            _ => false,
        };
        assert(inside == lies_around(plan, RegionId(a), RegionId(i)));
        if inside {
            mask[i] = true;
        }
        i = i + 1;
    }
}

/// Who takes care of a value when two could: copies and dead ones stay what they are, then
/// loops come first, then the inner region.
pub open spec fn merged_owner(
    plan: &StructurePlan,
    left: PhiIncomingDisposition,
    right: PhiIncomingDisposition,
) -> PhiIncomingDisposition {
    if left == right || left is Dead || left is EdgeCopy {
        left
    } else if right is Dead || right is EdgeCopy {
        right
    } else {
        match (left, right) {
            (PhiIncomingDisposition::DiagnosticUnresolved, _) => PhiIncomingDisposition::DiagnosticUnresolved,
            (_, PhiIncomingDisposition::DiagnosticUnresolved) => PhiIncomingDisposition::DiagnosticUnresolved,
            (PhiIncomingDisposition::LoopCarried(a), PhiIncomingDisposition::LoopCarried(b)) => match inner_of(plan, a, b) {
                Some(r) => PhiIncomingDisposition::RegionResult(r),
                None => PhiIncomingDisposition::DiagnosticUnresolved,
            },
            (PhiIncomingDisposition::LoopCarried(_), _) => left,
            (_, PhiIncomingDisposition::LoopCarried(_)) => right,
            (PhiIncomingDisposition::RegionInput(_), PhiIncomingDisposition::RegionResult(r)) => if in_branch(plan, r)
                || is_value_region(plan, r) {
                right
            } else {
                left
            },
            (PhiIncomingDisposition::RegionResult(r), PhiIncomingDisposition::RegionInput(_)) => if in_branch(plan, r)
                || is_value_region(plan, r) {
                left
            } else {
                right
            },
            (PhiIncomingDisposition::RegionInput(a), PhiIncomingDisposition::RegionInput(b)) => match inner_of(plan, a, b) {
                Some(r) => PhiIncomingDisposition::RegionInput(r),
                None => PhiIncomingDisposition::DiagnosticUnresolved,
            },
            (PhiIncomingDisposition::RegionResult(a), PhiIncomingDisposition::RegionResult(b)) => match inner_of(plan, a, b) {
                Some(r) => PhiIncomingDisposition::RegionResult(r),
                None => PhiIncomingDisposition::DiagnosticUnresolved,
            },
            _ => PhiIncomingDisposition::DiagnosticUnresolved,
        }
    }
}

pub fn merge_structured_owners(
    index: &RegionOwnerIndex,
    left: PhiIncomingDisposition,
    right: PhiIncomingDisposition,
) -> (r: PhiIncomingDisposition)
    requires
        index.wf(),
    ensures
        r == merged_owner(index.plan, left, right),
{
    if left == right {
        return left;
    }
    match left {
        PhiIncomingDisposition::Dead | PhiIncomingDisposition::EdgeCopy => {
            return left;
        },
        _ => {},
    }
    match right {
        PhiIncomingDisposition::Dead | PhiIncomingDisposition::EdgeCopy => {
            return right;
        },
        _ => {},
    }
    match (left, right) {
        (PhiIncomingDisposition::DiagnosticUnresolved, _) => PhiIncomingDisposition::DiagnosticUnresolved,
        (_, PhiIncomingDisposition::DiagnosticUnresolved) => PhiIncomingDisposition::DiagnosticUnresolved,
        (PhiIncomingDisposition::LoopCarried(a), PhiIncomingDisposition::LoopCarried(b)) => match index.more_specific(a, b) {
            Some(r) => PhiIncomingDisposition::RegionResult(r),
            None => PhiIncomingDisposition::DiagnosticUnresolved,
        },
        (PhiIncomingDisposition::LoopCarried(_), _) => left,
        (_, PhiIncomingDisposition::LoopCarried(_)) => right,
        (PhiIncomingDisposition::RegionInput(_), PhiIncomingDisposition::RegionResult(r)) => if index.inside_branch(r)
            || index.is_value_decision(r) {
            right
        } else {
            left
        },
        (PhiIncomingDisposition::RegionResult(r), PhiIncomingDisposition::RegionInput(_)) => if index.inside_branch(r)
            || index.is_value_decision(r) {
            left
        } else {
            right
        },
        (PhiIncomingDisposition::RegionInput(a), PhiIncomingDisposition::RegionInput(b)) => match index.more_specific(a, b) {
            Some(r) => PhiIncomingDisposition::RegionInput(r),
            None => PhiIncomingDisposition::DiagnosticUnresolved,
        },
        (PhiIncomingDisposition::RegionResult(a), PhiIncomingDisposition::RegionResult(b)) => match index.more_specific(a, b) {
            Some(r) => PhiIncomingDisposition::RegionResult(r),
            None => PhiIncomingDisposition::DiagnosticUnresolved,
        },
        _ => PhiIncomingDisposition::DiagnosticUnresolved,
    }
}

/// The owner after one more has come forward.
pub open spec fn claimed(
    plan: &StructurePlan,
    slot: Option<PhiIncomingDisposition>,
    owner: PhiIncomingDisposition,
) -> PhiIncomingDisposition {
    match slot {
        None => owner,
        Some(current) => merged_owner(plan, current, owner),
    }
}

/// Lets one more owner come forward; says whether that changed anything.
pub fn claim_owner(
    index: &RegionOwnerIndex,
    slot: Option<PhiIncomingDisposition>,
    owner: PhiIncomingDisposition,
) -> (r: (PhiIncomingDisposition, bool))
    requires
        index.wf(),
    ensures
        r.0 == claimed(index.plan, slot, owner),
        r.1 == (slot != Some(r.0)),
{
    match slot {
        None => (owner, true),
        Some(current) => {
            let now = merge_structured_owners(index, current, owner);
            (now, now != current)
        },
    }
}

/// Above the top there is nothing.
proof fn nothing_above(parent: Seq<Option<usize>>, b: usize, j: nat, k: nat)
    requires
        j <= k,
        up(parent, b, j) is None,
    ensures
        up(parent, b, k) is None,
    decreases k,
{
    if j < k {
        nothing_above(parent, b, j, (k - 1) as nat);
    }
}

/// A way up that comes back goes on for ever.
proof fn rounds_repeat(parent: Seq<Option<usize>>, b: usize, m: nat, i: nat) -> (n: nat)
    requires
        m > 0,
        up(parent, b, m) == Some(b),
    ensures
        n >= i,
        up(parent, b, n) == Some(b),
    decreases i,
{
    if i == 0 {
        0
    } else {
        let n = rounds_repeat(parent, b, m, (i - 1) as nat);
        up_compose(parent, b, n, m);
        n + m
    }
}

/// In a tree of regions, two that lie around each other are one.
proof fn around_each_other(plan: &StructurePlan, a: RegionId, b: RegionId)
    requires
        tree_fault(plan) is None,
        lies_around(plan, a, b),
        lies_around(plan, b, a),
    ensures
        a == b,
{
    let parent = parents(plan);
    let root = plan.root.0;
    first_where_least(plan.regions@.len(), is_detached(plan));
    assert(!is_detached(plan)(b.0 as int));
    first_some_empty(plan.regions@.len(), parent_fault(plan));
    assert(parent_fault(plan)(root as int) is None);
    let k = choose|k: nat| #[trigger] up(parent, b.0, k) == Some(a.0);
    let j = choose|j: nat| #[trigger] up(parent, a.0, j) == Some(b.0);
    let q = choose|q: nat| #[trigger] up(parent, b.0, q) == Some(root);
    up_compose(parent, b.0, k, j);
    if k + j > 0 {
        let n = rounds_repeat(parent, b.0, (k + j) as nat, (q + 1) as nat);
        assert(up(parent, b.0, (q + 1) as nat) is None);
        nothing_above(parent, b.0, (q + 1) as nat, n);
    }
}

/// It does not matter which of two owners comes forward first, unless one would copy the
/// value and the other holds it for dead: then the first has its way.
pub proof fn owners_agree_in_either_order(plan: &StructurePlan, left: PhiIncomingDisposition, right: PhiIncomingDisposition)
    requires
        tree_fault(plan) is None,
        !(left is Dead && right is EdgeCopy),
        !(left is EdgeCopy && right is Dead),
    ensures
        merged_owner(plan, left, right) == merged_owner(plan, right, left),
{
    if let (Some(a), Some(b)) = (left.region_of(), right.region_of()) {
        if lies_around(plan, a, b) && lies_around(plan, b, a) {
            around_each_other(plan, a, b);
        }
    }
}

/// An owner other than a loop that carries the value changes nothing when it comes forward
/// a second time.
pub proof fn claims_settle(plan: &StructurePlan, slot: Option<PhiIncomingDisposition>, owner: PhiIncomingDisposition)
    requires
        tree_fault(plan) is None,
        !(owner is LoopCarried),
    ensures
        claimed(plan, Some(claimed(plan, slot, owner)), owner) == claimed(plan, slot, owner),
{
    if let Some(current) = slot {
        if let (Some(a), Some(b)) = (current.region_of(), owner.region_of()) {
            assert(lies_around(plan, b, b) || b.0 >= plan.regions@.len()) by {
                assert(up(parents(plan), b.0, 0) == Some(b.0));
            }
        }
    }
}

/// On the way up from a region no region comes twice.
proof fn ancestors_differ(plan: &StructurePlan, r: usize, k: nat, i: nat, j: nat)
    requires
        tree_fault(plan) is None,
        up(parents(plan), r, k) == Some(plan.root.0),
        i < j <= k,
        up(parents(plan), r, i) is Some,
        up(parents(plan), r, j) is Some,
    ensures
        up(parents(plan), r, i) != up(parents(plan), r, j),
{
    let parent = parents(plan);
    let root = plan.root.0;
    let x = up(parent, r, i)->0;
    if up(parent, r, j) == Some(x) {
        up_compose(parent, r, i, (j - i) as nat);
        up_compose(parent, r, i, (k - i) as nat);
        assert(i + (j - i) as nat == j && i + (k - i) as nat == k);
        first_some_empty(plan.regions@.len(), parent_fault(plan));
        assert(parent_fault(plan)(root as int) is None);
        assert(up(parent, x, (k - i + 1) as nat) is None);
        let n = rounds_repeat(parent, x, (j - i) as nat, (k - i + 1) as nat);
        nothing_above(parent, x, (k - i + 1) as nat, n);
    }
}

proof fn ancestor_known(plan: &StructurePlan, r: usize, k: nat, i: nat)
    requires
        tree_fault(plan) is None,
        r < plan.regions@.len(),
        up(parents(plan), r, k) is Some,
        i <= k,
    ensures
        up(parents(plan), r, i) is Some,
        up(parents(plan), r, i)->0 < plan.regions@.len(),
    decreases i,
{
    let parent = parents(plan);
    if up(parent, r, i) is None {
        nothing_above(parent, r, i, k);
    }
    if i > 0 {
        ancestor_known(plan, r, k, (i - 1) as nat);
        let x = up(parent, r, (i - 1) as nat)->0;
        first_some_empty(plan.regions@.len(), parent_fault(plan));
        assert(parent_fault(plan)(x as int) is None);
    }
}

/// A region lies fewer steps below the root than there are regions.
pub proof fn depth_is_bounded(plan: &StructurePlan, r: usize, k: nat)
    requires
        tree_fault(plan) is None,
        r < plan.regions@.len(),
        up(parents(plan), r, k) == Some(plan.root.0),
    ensures
        k < plan.regions@.len(),
{
    let parent = parents(plan);
    let n = plan.regions@.len();
    let way = Seq::new(k + 1, |i: int| up(parent, r, i as nat)->0 as int);
    assert forall|i: int, j: int| 0 <= i < way.len() && 0 <= j < way.len() && i != j implies way[i] != way[j] by {
        ancestor_known(plan, r, k, i as nat);
        ancestor_known(plan, r, k, j as nat);
        if i < j {
            ancestors_differ(plan, r, k, i as nat, j as nat);
        } else {
            ancestors_differ(plan, r, k, j as nat, i as nat);
        }
    }
    way.unique_seq_to_set();
    let range = set_int_range(0, n as int);
    lemma_int_range(0, n as int);
    assert(way.to_set().subset_of(range)) by {
        assert forall|x: int| way.to_set().contains(x) implies range.contains(x) by {
            let i = choose|i: int| 0 <= i < way.len() && way[i] == x;
            ancestor_known(plan, r, k, i as nat);
        }
    }
    lemma_len_subset(way.to_set(), range);
}

} // verus!
