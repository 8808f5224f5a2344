//! Phis that only feed other phis: they belong to whom those belong.

use vstd::prelude::*;

use crate::claims::{owners_of, phis_dense, went, Owners};
use crate::dataflow::{DataflowFacts, PhiCandidate, PhiId, SsaValue};
use crate::error::{Fault, StructureError};
use crate::owners::{merge_structured_owners, merged_owner, RegionOwnerIndex};
use crate::plan::PhiIncomingDisposition;
use crate::search::{first_some, first_some_empty, first_some_stable};
use crate::structure_plan::StructurePlan;

verus! {

/// `acc`, then the first `n` incomings of phi `q` that are phi `u`.
pub open spec fn uses_in(phi: &PhiCandidate, q: usize, u: usize, n: nat, acc: Seq<(usize, usize)>) -> Seq<(usize, usize)>
    decreases n,
{
    if n == 0 {
        acc
    } else {
        let rest = uses_in(phi, q, u, (n - 1) as nat, acc);
        if phi.incoming@[n - 1].value == SsaValue::Phi(PhiId(u)) {
            rest.push((q, (n - 1) as usize))
        } else {
            rest
        }
    }
}

/// The places among the first `n` phis where phi `u` flows in.
pub open spec fn uses_upto(phis: Seq<PhiCandidate>, u: usize, n: nat) -> Seq<(usize, usize)>
    decreases n,
{
    if n == 0 {
        Seq::empty()
    } else {
        let phi = &phis[n - 1];
        uses_in(phi, (n - 1) as usize, u, phi.incoming@.len(), uses_upto(phis, u, (n - 1) as nat))
    }
}

/// The owner of the first `n` places together; the outer `None` where one of them belongs to
/// no region.
pub open spec fn joint_owner(
    plan: &StructurePlan,
    t: Owners,
    places: Seq<(usize, usize)>,
    n: nat,
) -> Option<Option<PhiIncomingDisposition>>
    decreases n,
{
    if n == 0 {
        Some(None)
    } else {
        match joint_owner(plan, t, places, (n - 1) as nat) {
            Some(rest) => match t[places[n - 1].0 as int][places[n - 1].1 as int] {
                Some(o) => if o.region_of() is Some {
                    match rest {
                        Some(x) => Some(Some(merged_owner(plan, x, o))),
                        None => Some(Some(o)),
                    }
                } else {
                    None
                },
                None => None,
            },
            None => None,
        }
    }
}

pub open spec fn unclaimed(row: Seq<Option<PhiIncomingDisposition>>) -> bool {
    forall|j: int| 0 <= j < row.len() ==> (#[trigger] row[j]) is None
}

/// The owner that phi `u` gets from the phis that it feeds: it is read nowhere else and has
/// none of its own.
pub open spec fn inherited(
    plan: &StructurePlan,
    dataflow: &DataflowFacts,
    t: Owners,
    u: int,
) -> Option<PhiIncomingDisposition> {
    let places = uses_upto(dataflow.phi_candidates@, u as usize, dataflow.phi_candidates@.len());
    if unclaimed(t[u]) && dataflow.use_count_of(PhiId(u as usize)) == 0 {
        match joint_owner(plan, t, places, places.len()) {
            Some(o) => o,
            None => None,
        }
    } else {
        None
    }
}

/// Every phi that can inherit does so, all at once.
pub open spec fn one_round(plan: &StructurePlan, dataflow: &DataflowFacts, t: Owners) -> Owners {
    Seq::new(
        t.len(),
        |u: int|
            match inherited(plan, dataflow, t, u) {
                Some(o) => Seq::new(t[u].len(), |j: int| Some(o)),
                None => t[u],
            },
    )
}

pub open spec fn rounds(plan: &StructurePlan, dataflow: &DataflowFacts, t: Owners, n: nat) -> Owners
    decreases n,
{
    if n == 0 {
        t
    } else {
        one_round(plan, dataflow, rounds(plan, dataflow, t, (n - 1) as nat))
    }
}

proof fn rounds_settle(plan: &StructurePlan, dataflow: &DataflowFacts, t: Owners, m: nat, n: nat)
    requires
        m <= n,
        one_round(plan, dataflow, rounds(plan, dataflow, t, m)) == rounds(plan, dataflow, t, m),
    ensures
        rounds(plan, dataflow, t, n) == rounds(plan, dataflow, t, m),
    decreases n,
{
    if m < n {
        rounds_settle(plan, dataflow, t, m, (n - 1) as nat);
    }
}

pub open spec fn missing_in(phis: Seq<PhiCandidate>, q: int) -> spec_fn(int) -> Option<Fault> {
    |j: int|
        match phis[q].incoming@[j].value {
            SsaValue::Phi(u) => if u.0 >= phis.len() {
                Some(Fault::IncomingMissingPhi(phis[q].id, u))
            } else {
                None
            },
            _ => None,
        }
}

/// A phi without a row of its own, with a row of another length, or with an incoming phi that
/// is not there.
pub open spec fn row_problem(phis: Seq<PhiCandidate>, t: Owners) -> spec_fn(int) -> Option<Fault> {
    |q: int|
        {
            let id = phis[q].id;
            let n = phis[q].incoming@.len();
            if id.0 >= t.len() {
                Some(Fault::OwnerRowMissing(id))
            } else if t[id.0 as int].len() != n {
                Some(Fault::OwnerRowLength(id, t[id.0 as int].len() as usize, n as usize))
            } else {
                first_some(n, missing_in(phis, q))
            }
        }
}

/// The first thing that keeps phis from inheriting.
pub open spec fn inherit_fault(phis: Seq<PhiCandidate>, t: Owners) -> Option<Fault> {
    first_some(phis.len(), row_problem(phis, t))
}

/// There is one slot for each incoming of each phi, and there may be further rows.
pub open spec fn rows_fit(phis: Seq<PhiCandidate>, t: Owners) -> bool {
    phis.len() <= t.len() && forall|p: int| 0 <= p < phis.len() ==> (#[trigger] t[p]).len() == phis[p].incoming@.len()
}

/// The owners after phis have inherited as far as they can.
pub open spec fn settled_owners(plan: &StructurePlan, dataflow: &DataflowFacts, t: Owners) -> Result<Owners, Fault> {
    match inherit_fault(dataflow.phi_candidates@, t) {
        Some(f) => Err(f),
        None => Ok(rounds(plan, dataflow, t, dataflow.phi_candidates@.len())),
    }
}

fn find_missing(phis: &Vec<PhiCandidate>, q: usize) -> (r: Option<Fault>)
    requires
        q < phis@.len(),
    ensures
        r == first_some(phis@[q as int].incoming@.len(), missing_in(phis@, q as int)),
{
    let n = phis.len();
    let m = phis[q].incoming.len();
    let ghost g = missing_in(phis@, q as int);
    let mut j: usize = 0;
    while j < m
        invariant
            n == phis@.len(),
            q < n,
            m == phis@[q as int].incoming@.len(),
            g == missing_in(phis@, q as int),
            j <= m,
            first_some(j as nat, g) is None,
        decreases m - j,
    {
        let fault = match phis[q].incoming[j].value {
            SsaValue::Phi(u) => if u.0 >= n {
                Some(Fault::IncomingMissingPhi(phis[q].id, u))
            } else {
                None
            },
            _ => None,
        };
        assert(fault == g(j as int));
        if fault.is_some() {
            proof {
                first_some_stable((j + 1) as nat, m as nat, g);
            }
            return fault;
        }
        j = j + 1;
    }
    None
}

fn find_row_problem(phis: &Vec<PhiCandidate>, table: &Vec<Vec<Option<PhiIncomingDisposition>>>) -> (r: Option<Fault>)
    ensures
        r == inherit_fault(phis@, owners_of(table@)),
        r is None ==> forall|q: int, j: int|
            0 <= q < phis@.len() && 0 <= j < phis@[q].incoming@.len() ==> (match (#[trigger] phis@[q].incoming@[j]).value {
                SsaValue::Phi(u) => u.0 < phis@.len(),
                _ => true,
            }),
        r is None && phis_dense(phis@) ==> rows_fit(phis@, owners_of(table@)),
{
    let n = phis.len();
    let ghost t = owners_of(table@);
    let ghost f = row_problem(phis@, t);
    let mut q: usize = 0;
    while q < n
        invariant
            n == phis@.len(),
            t == owners_of(table@),
            f == row_problem(phis@, t),
            q <= n,
            first_some(q as nat, f) is None,
        decreases n - q,
    {
        let id = phis[q].id;
        let m = phis[q].incoming.len();
        let fault = if id.0 >= table.len() {
            Some(Fault::OwnerRowMissing(id))
        } else {
            assert(t[id.0 as int] == table@[id.0 as int]@);
            let have = table[id.0].len();
            if have != m {
                Some(Fault::OwnerRowLength(id, have, m))
            } else {
                find_missing(phis, q)
            }
        };
        assert(fault == f(q as int));
        if fault.is_some() {
            proof {
                first_some_stable((q + 1) as nat, n as nat, f);
            }
            return fault;
        }
        q = q + 1;
    }
    proof {
        first_some_empty(n as nat, f);
        assert forall|q: int, j: int| 0 <= q < phis@.len() && 0 <= j < phis@[q].incoming@.len() implies (match (
        #[trigger] phis@[q].incoming@[j]).value {
            SsaValue::Phi(u) => u.0 < phis@.len(),
            _ => true,
        }) by {
            assert(f(q) is None);
            first_some_empty(phis@[q].incoming@.len(), missing_in(phis@, q));
            assert(missing_in(phis@, q)(j) is None);
        }
        if phis_dense(phis@) {
            assert forall|p: int| 0 <= p < phis@.len() implies (#[trigger] t[p]).len() == phis@[p].incoming@.len() by {
                assert(f(p) is None);
                assert(phis@[p].id.0 == p);
            }
            if phis@.len() > 0 {
                assert(f(phis@.len() - 1) is None);
                assert(phis@[phis@.len() - 1].id.0 == phis@.len() - 1);
            }
        }
    }
    None
}

/// A phi that is not there flows in nowhere.
proof fn no_uses_beyond(phis: Seq<PhiCandidate>, u: usize, n: nat)
    requires
        n <= phis.len() <= u,
        forall|q: int, j: int|
            0 <= q < phis.len() && 0 <= j < phis[q].incoming@.len() ==> (match (#[trigger] phis[q].incoming@[j]).value {
                SsaValue::Phi(u) => u.0 < phis.len(),
                _ => true,
            }),
    ensures
        uses_upto(phis, u, n) == Seq::<(usize, usize)>::empty(),
    decreases n,
{
    if n > 0 {
        no_uses_beyond(phis, u, (n - 1) as nat);
        no_uses_in(phis, n - 1, u, phis[n - 1].incoming@.len());
    }
}

proof fn no_uses_in(phis: Seq<PhiCandidate>, q: int, u: usize, n: nat)
    requires
        0 <= q < phis.len() <= u,
        n <= phis[q].incoming@.len(),
        forall|q: int, j: int|
            0 <= q < phis.len() && 0 <= j < phis[q].incoming@.len() ==> (match (#[trigger] phis[q].incoming@[j]).value {
                SsaValue::Phi(u) => u.0 < phis.len(),
                _ => true,
            }),
    ensures
        uses_in(&phis[q], q as usize, u, n, Seq::empty()) == Seq::<(usize, usize)>::empty(),
    decreases n,
{
    if n > 0 {
        no_uses_in(phis, q, u, (n - 1) as nat);
        assert(phis[q].incoming@[n - 1].value != SsaValue::Phi(PhiId(u)));
    }
}

/// Where each phi flows in.
fn collect_uses(phis: &Vec<PhiCandidate>) -> (rows: Vec<Vec<(usize, usize)>>)
    requires
        forall|q: int, j: int|
            0 <= q < phis@.len() && 0 <= j < phis@[q].incoming@.len() ==> (match (#[trigger] phis@[q].incoming@[j]).value {
                SsaValue::Phi(u) => u.0 < phis@.len(),
                _ => true,
            }),
    ensures
        rows@.len() == phis@.len(),
        forall|u: int| 0 <= u < rows@.len() ==> (#[trigger] rows@[u])@ == uses_upto(phis@, u as usize, phis@.len()),
        forall|u: int, k: int|
            0 <= u < rows@.len() && 0 <= k < rows@[u]@.len() ==> (#[trigger] rows@[u]@[k]).0 < phis@.len() && rows@[u]@[k].1
                < phis@[rows@[u]@[k].0 as int].incoming@.len(),
{
    let n = phis.len();
    let mut rows: Vec<Vec<(usize, usize)>> = Vec::new();
    let mut u: usize = 0;
    while u < n
        invariant
            n == phis@.len(),
            u <= n,
            rows@.len() == u,
            forall|k: int| 0 <= k < u ==> (#[trigger] rows@[k])@ == uses_upto(phis@, k as usize, 0),
        decreases n - u,
    {
        rows.push(Vec::new());
        u = u + 1;
    }
    let mut q: usize = 0;
    while q < n
        invariant
            n == phis@.len(),
            forall|q: int, j: int|
                0 <= q < phis@.len() && 0 <= j < phis@[q].incoming@.len() ==> (match (#[trigger] phis@[q].incoming@[j]).value {
                    SsaValue::Phi(u) => u.0 < phis@.len(),
                    _ => true,
                }),
            q <= n,
            rows@.len() == n,
            forall|u: int| 0 <= u < n ==> (#[trigger] rows@[u])@ == uses_upto(phis@, u as usize, q as nat),
            forall|u: int, k: int|
                0 <= u < n && 0 <= k < rows@[u]@.len() ==> (#[trigger] rows@[u]@[k]).0 < n && rows@[u]@[k].1 < phis@[rows@[u]@[k].0 as int].incoming@.len(),
        decreases n - q,
    {
        let m = phis[q].incoming.len();
        let mut j: usize = 0;
        while j < m
            invariant
                n == phis@.len(),
                q < n,
                forall|q: int, j: int|
                    0 <= q < phis@.len() && 0 <= j < phis@[q].incoming@.len() ==> (match (#[trigger] phis@[q].incoming@[j]).value {
                        SsaValue::Phi(u) => u.0 < phis@.len(),
                        _ => true,
                    }),
                m == phis@[q as int].incoming@.len(),
                j <= m,
                rows@.len() == n,
                forall|u: int|
                    0 <= u < n ==> (#[trigger] rows@[u])@ == uses_in(
                        &phis@[q as int],
                        q,
                        u as usize,
                        j as nat,
                        uses_upto(phis@, u as usize, q as nat),
                    ),
                forall|u: int, k: int|
                    0 <= u < n && 0 <= k < rows@[u]@.len() ==> (#[trigger] rows@[u]@[k]).0 < n && rows@[u]@[k].1 < phis@[rows@[u]@[k].0 as int].incoming@.len(),
            decreases m - j,
        {
            let v = phis[q].incoming[j].value;
            assert(phis@[q as int].incoming@[j as int].value == v);
            if let SsaValue::Phi(u) = v {
                rows[u.0].push((q, j));
            }
            j = j + 1;
        }
        q = q + 1;
    }
    rows
}

fn find_joint_owner(
    index: &RegionOwnerIndex,
    table: &Vec<Vec<Option<PhiIncomingDisposition>>>,
    places: &Vec<(usize, usize)>,
) -> (r: Option<Option<PhiIncomingDisposition>>)
    requires
        index.wf(),
        forall|k: int|
            0 <= k < places@.len() ==> (#[trigger] places@[k]).0 < table@.len() && places@[k].1 < table@[places@[k].0 as int]@.len(),
    ensures
        r == joint_owner(index.plan, owners_of(table@), places@, places@.len()),
{
    let ghost t = owners_of(table@);
    let n = places.len();
    let mut joint: Option<PhiIncomingDisposition> = None;
    let mut k: usize = 0;
    while k < n
        invariant
            index.wf(),
            t == owners_of(table@),
            forall|k: int|
                0 <= k < places@.len() ==> (#[trigger] places@[k]).0 < table@.len() && places@[k].1 < table@[places@[k].0 as int]@.len(),
            n == places@.len(),
            k <= n,
            joint_owner(index.plan, t, places@, k as nat) == Some(joint),
        decreases n - k,
    {
        let (q, j) = places[k];
        assert(places@[k as int] == (q, j));
        assert(t[q as int] == table@[q as int]@);
        let slot = table[q][j];
        let owned = match slot {
            Some(o) => o.region().is_some(),
            None => false,
        };
        if !owned {
            proof {
                joint_owner_stops(index.plan, t, places@, (k + 1) as nat, n as nat);
            }
            return None;
        }
        let o = slot.unwrap();
        joint = match joint {
            Some(x) => Some(merge_structured_owners(index, x, o)),
            None => Some(o),
        };
        k = k + 1;
    }
    Some(joint)
}

proof fn joint_owner_stops(plan: &StructurePlan, t: Owners, places: Seq<(usize, usize)>, m: nat, n: nat)
    requires
        m <= n,
        joint_owner(plan, t, places, m) is None,
    ensures
        joint_owner(plan, t, places, n) is None,
    decreases n,
{
    if m < n {
        joint_owner_stops(plan, t, places, m, (n - 1) as nat);
    }
}

fn check_unclaimed(row: &Vec<Option<PhiIncomingDisposition>>) -> (r: bool)
    ensures
        r == unclaimed(row@),
{
    let n = row.len();
    let mut j: usize = 0;
    while j < n
        invariant
            n == row@.len(),
            j <= n,
            forall|k: int| 0 <= k < j ==> (#[trigger] row@[k]) is None,
        decreases n - j,
    {
        if row[j].is_some() {
            assert(row@[j as int] is Some);
            return false;
        }
        j = j + 1;
    }
    true
}

/// Who inherits what in this round.
fn find_heirs(
    index: &RegionOwnerIndex,
    dataflow: &DataflowFacts,
    table: &Vec<Vec<Option<PhiIncomingDisposition>>>,
    uses: &Vec<Vec<(usize, usize)>>,
) -> (r: Vec<Option<PhiIncomingDisposition>>)
    requires
        index.wf(),
        rows_fit(dataflow.phi_candidates@, owners_of(table@)),
        forall|q: int, j: int|
            0 <= q < dataflow.phi_candidates@.len() && 0 <= j < dataflow.phi_candidates@[q].incoming@.len() ==> (match (
            #[trigger] dataflow.phi_candidates@[q].incoming@[j]).value {
                SsaValue::Phi(u) => u.0 < dataflow.phi_candidates@.len(),
                _ => true,
            }),
        uses@.len() == dataflow.phi_candidates@.len(),
        forall|u: int|
            0 <= u < uses@.len() ==> (#[trigger] uses@[u])@ == uses_upto(
                dataflow.phi_candidates@,
                u as usize,
                dataflow.phi_candidates@.len(),
            ),
        forall|u: int, k: int|
            0 <= u < uses@.len() && 0 <= k < uses@[u]@.len() ==> (#[trigger] uses@[u]@[k]).0 < dataflow.phi_candidates@.len()
                && uses@[u]@[k].1 < dataflow.phi_candidates@[uses@[u]@[k].0 as int].incoming@.len(),
    ensures
        r@.len() == table@.len(),
        forall|u: int| 0 <= u < r@.len() ==> #[trigger] r@[u] == inherited(index.plan, dataflow, owners_of(table@), u),
{
    let ghost t = owners_of(table@);
    let ghost phis = dataflow.phi_candidates@;
    let n = table.len();
    let count = dataflow.phi_candidates.len();
    let mut r: Vec<Option<PhiIncomingDisposition>> = Vec::new();
    let mut u: usize = 0;
    while u < n
        invariant
            index.wf(),
            t == owners_of(table@),
            phis == dataflow.phi_candidates@,
            rows_fit(phis, t),
            forall|q: int, j: int|
                0 <= q < phis.len() && 0 <= j < phis[q].incoming@.len() ==> (match (#[trigger] phis[q].incoming@[j]).value {
                    SsaValue::Phi(u) => u.0 < phis.len(),
                    _ => true,
                }),
            n == table@.len(),
            count == phis.len(),
            count <= n,
            uses@.len() == count,
            forall|u: int| 0 <= u < uses@.len() ==> (#[trigger] uses@[u])@ == uses_upto(phis, u as usize, phis.len()),
            forall|u: int, k: int|
                0 <= u < uses@.len() && 0 <= k < uses@[u]@.len() ==> (#[trigger] uses@[u]@[k]).0 < phis.len() && uses@[u]@[k].1
                    < phis[uses@[u]@[k].0 as int].incoming@.len(),
            u <= n,
            r@.len() == u,
            forall|k: int| 0 <= k < u ==> #[trigger] r@[k] == inherited(index.plan, dataflow, t, k),
        decreases n - u,
    {
        let owner = if u < count {
            assert(t[u as int] == table@[u as int]@);
            assert(uses@[u as int]@ == uses_upto(phis, u, phis.len()));
            proof {
                assert forall|k: int| 0 <= k < uses@[u as int]@.len() implies (#[trigger] uses@[u as int]@[k]).0 < table@.len()
                    && uses@[u as int]@[k].1 < table@[uses@[u as int]@[k].0 as int]@.len() by {
                    let q = uses@[u as int]@[k].0 as int;
                    assert(t[q].len() == phis[q].incoming@.len());
                    assert(t[q] == table@[q]@);
                }
            }
            if check_unclaimed(&table[u]) && dataflow.phi_use_count(PhiId(u)) == 0 {
                match find_joint_owner(index, table, &uses[u]) {
                    Some(o) => o,
                    None => None,
                }
            } else {
                None
            }
        } else {
            proof {
                no_uses_beyond(phis, u, phis.len());
                assert(joint_owner(index.plan, t, Seq::empty(), 0) == Some(None::<PhiIncomingDisposition>));
            }
            None
        };
        r.push(owner);
        u = u + 1;
    }
    r
}

/// Fills the rows of those who inherit; says whether a slot changed.
fn fill_rows(
    table: &mut Vec<Vec<Option<PhiIncomingDisposition>>>,
    heirs: &Vec<Option<PhiIncomingDisposition>>,
) -> (changed: bool)
    requires
        heirs@.len() == old(table)@.len(),
        forall|u: int| 0 <= u < heirs@.len() && (#[trigger] heirs@[u]) is Some ==> unclaimed(old(table)@[u]@),
    ensures
        final(table)@.len() == old(table)@.len(),
        forall|u: int|
            0 <= u < old(table)@.len() ==> (#[trigger] final(table)@[u])@ == (match heirs@[u] {
                Some(o) => Seq::new(old(table)@[u]@.len(), |j: int| Some(o)),
                None => old(table)@[u]@,
            }),
        !changed ==> owners_of(final(table)@) == owners_of(old(table)@),
{
    let n = heirs.len();
    let mut changed = false;
    let mut u: usize = 0;
    while u < n
        invariant
            n == heirs@.len(),
            n == table@.len(),
            n == old(table)@.len(),
            u <= n,
            forall|k: int|
                0 <= k < u ==> (#[trigger] table@[k])@ == (match heirs@[k] {
                    Some(o) => Seq::new(old(table)@[k]@.len(), |j: int| Some(o)),
                    None => old(table)@[k]@,
                }),
            forall|k: int| u <= k < n ==> #[trigger] table@[k] == old(table)@[k],
            !changed ==> forall|k: int| 0 <= k < u ==> (#[trigger] table@[k])@ == old(table)@[k]@,
        decreases n - u,
    {
        if let Some(o) = heirs[u] {
            let m = table[u].len();
            let mut row: Vec<Option<PhiIncomingDisposition>> = Vec::new();
            let mut j: usize = 0;
            while j < m
                invariant
                    j <= m,
                    row@.len() == j,
                    forall|k: int| 0 <= k < j ==> #[trigger] row@[k] == Some(o),
                decreases m - j,
            {
                row.push(Some(o));
                j = j + 1;
            }
            proof {
                assert(row@ =~= Seq::new(old(table)@[u as int]@.len(), |j: int| Some(o)));
                if m == 0 {
                    assert(row@ =~= old(table)@[u as int]@);
                }
            }
            if m > 0 {
                changed = true;
            }
            table[u] = row;
        }
        u = u + 1;
    }
    proof {
        if !changed {
            assert(owners_of(table@) =~= owners_of(old(table)@));
        }
    }
    changed
}

/// Lets phis inherit their owners as far as they can.
pub fn propagate_transitive_region_owners(
    index: &RegionOwnerIndex,
    dataflow: &DataflowFacts,
    table: &mut Vec<Vec<Option<PhiIncomingDisposition>>>,
) -> (r: Result<(), StructureError>)
    requires
        index.wf(),
        inherit_fault(dataflow.phi_candidates@, owners_of(old(table)@)) is None ==> phis_dense(dataflow.phi_candidates@),
    ensures
        went(r, owners_of(final(table)@), settled_owners(index.plan, dataflow, owners_of(old(table)@))),
        r is Ok ==> final(table)@.len() == old(table)@.len() && rows_fit(dataflow.phi_candidates@, owners_of(final(table)@)),
        r is Err ==> *final(table) == *old(table),
{
    if let Some(f) = find_row_problem(&dataflow.phi_candidates, table) {
        return Err(StructureError::invalid(f));
    }
    let uses = collect_uses(&dataflow.phi_candidates);
    let ghost start = owners_of(table@);
    let ghost phis = dataflow.phi_candidates@;
    let n = dataflow.phi_candidates.len();
    let mut k: usize = 0;
    while k < n
        invariant
            index.wf(),
            phis == dataflow.phi_candidates@,
            inherit_fault(phis, start) is None,
            start == owners_of(old(table)@),
            table@.len() == old(table)@.len(),
            rows_fit(phis, owners_of(table@)),
            forall|q: int, j: int|
                0 <= q < phis.len() && 0 <= j < phis[q].incoming@.len() ==> (match (#[trigger] phis[q].incoming@[j]).value {
                    SsaValue::Phi(u) => u.0 < phis.len(),
                    _ => true,
                }),
            n == phis.len(),
            uses@.len() == n,
            forall|u: int| 0 <= u < uses@.len() ==> (#[trigger] uses@[u])@ == uses_upto(phis, u as usize, phis.len()),
            forall|u: int, k: int|
                0 <= u < uses@.len() && 0 <= k < uses@[u]@.len() ==> (#[trigger] uses@[u]@[k]).0 < phis.len() && uses@[u]@[k].1
                    < phis[uses@[u]@[k].0 as int].incoming@.len(),
            k <= n,
            owners_of(table@) == rounds(index.plan, dataflow, start, k as nat),
        decreases n - k,
    {
        let ghost now = owners_of(table@);
        let heirs = find_heirs(index, dataflow, table, &uses);
        proof {
            assert forall|u: int| 0 <= u < heirs@.len() && (#[trigger] heirs@[u]) is Some implies unclaimed(table@[u]@) by {
                assert(now[u] == table@[u]@);
            }
        }
        let ghost before = table@;
        let changed = fill_rows(table, &heirs);
        proof {
            let next = one_round(index.plan, dataflow, now);
            assert forall|u: int| 0 <= u < now.len() implies #[trigger] owners_of(table@)[u] == next[u] by {
                assert(now[u] == before[u]@);
                assert(heirs@[u] == inherited(index.plan, dataflow, now, u));
                assert(owners_of(table@)[u] =~= next[u]);
            }
            assert(owners_of(table@) =~= next);
            assert forall|u: int| 0 <= u < phis.len() implies (#[trigger] next[u]).len() == phis[u].incoming@.len() by {
                assert(now[u].len() == phis[u].incoming@.len());
            }
        }
        if !changed {
            proof {
                rounds_settle(index.plan, dataflow, start, k as nat, n as nat);
            }
            return Ok(());
        }
        k = k + 1;
    }
    Ok(())
}

} // verus!
