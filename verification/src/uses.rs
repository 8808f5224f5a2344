//! Who reads which value: the sites and the phis of every definition and phi.

use vstd::prelude::*;

use crate::cfg::Cfg;
use crate::collapse::within;
use crate::dataflow::{DefId, InstrUseValues, PhiCandidate, PhiId, SsaValue, UseSite};
use crate::error::{Fault, StructureError};
use crate::ids::{BlockRef, InstrRef, Reg};
use crate::search::{first_some, first_some_empty, first_some_stable};

verus! {

/// `acc`, then the sites among the first `n` reads of instruction `i` that read `v`.
pub open spec fn sites_in(reads: Seq<(Reg, SsaValue)>, v: SsaValue, i: int, n: nat, acc: Seq<UseSite>) -> Seq<UseSite>
    decreases n,
{
    if n == 0 {
        acc
    } else {
        let rest = sites_in(reads, v, i, (n - 1) as nat, acc);
        if reads[n - 1].1 == v {
            rest.push(UseSite { instr: InstrRef(i as usize), reg: reads[n - 1].0 })
        } else {
            rest
        }
    }
}

/// The sites in the first `n` instructions that read `v`, in order.
pub open spec fn sites_of(uses: Seq<InstrUseValues>, v: SsaValue, n: nat) -> Seq<UseSite>
    decreases n,
{
    if n == 0 {
        Seq::empty()
    } else {
        let reads = uses[n - 1].fixed@;
        sites_in(reads, v, n - 1, reads.len(), sites_of(uses, v, (n - 1) as nat))
    }
}

/// `acc`, then the phi once for each of its first `n` incomings that is `v`; a phi is no user
/// of itself.
pub open spec fn users_in(phi: &PhiCandidate, v: SsaValue, n: nat, acc: Seq<PhiId>) -> Seq<PhiId>
    decreases n,
{
    if n == 0 {
        acc
    } else {
        let rest = users_in(phi, v, (n - 1) as nat, acc);
        if phi.incoming@[n - 1].value == v && v != SsaValue::Phi(phi.id) {
            rest.push(phi.id)
        } else {
            rest
        }
    }
}

/// The first `n` phis that take `v`, in order.
pub open spec fn users_of(phis: Seq<PhiCandidate>, v: SsaValue, n: nat) -> Seq<PhiId>
    decreases n,
{
    if n == 0 {
        Seq::empty()
    } else {
        let phi = &phis[n - 1];
        users_in(phi, v, phi.incoming@.len(), users_of(phis, v, (n - 1) as nat))
    }
}

/// The block of all the sites, when there are some and all lie in one.
pub open spec fn only_block(cfg: &Cfg, sites: Seq<UseSite>) -> Option<BlockRef> {
    if sites.len() > 0 && forall|k: int|
        0 <= k < sites.len() ==> cfg.instr_to_block@[(#[trigger] sites[k]).instr.0 as int] == cfg.instr_to_block@[sites[0].instr.0 as int] {
        Some(cfg.instr_to_block@[sites[0].instr.0 as int])
    } else {
        None
    }
}

/// The readers of every definition and every phi.
pub struct UseIndex {
    pub def_uses: Vec<Vec<UseSite>>,
    pub def_phi_uses: Vec<Vec<PhiId>>,
    pub phi_uses: Vec<Vec<UseSite>>,
    pub phi_phi_uses: Vec<Vec<PhiId>>,
    pub phi_use_blocks: Vec<Option<BlockRef>>,
}

impl UseIndex {
    pub open spec fn describes(
        &self,
        cfg: &Cfg,
        def_count: nat,
        phis: Seq<PhiCandidate>,
        uses: Seq<InstrUseValues>,
    ) -> bool {
        &&& self.def_uses@.len() == def_count
        &&& self.def_phi_uses@.len() == def_count
        &&& self.phi_uses@.len() == phis.len()
        &&& self.phi_phi_uses@.len() == phis.len()
        &&& self.phi_use_blocks@.len() == phis.len()
        &&& forall|d: int|
            0 <= d < def_count ==> (#[trigger] self.def_uses@[d])@ == sites_of(uses, SsaValue::Def(DefId(d as usize)), uses.len())
        &&& forall|d: int|
            0 <= d < def_count ==> (#[trigger] self.def_phi_uses@[d])@ == users_of(phis, SsaValue::Def(DefId(d as usize)), phis.len())
        &&& forall|p: int|
            0 <= p < phis.len() ==> (#[trigger] self.phi_uses@[p])@ == sites_of(uses, SsaValue::Phi(PhiId(p as usize)), uses.len())
        &&& forall|p: int|
            0 <= p < phis.len() ==> (#[trigger] self.phi_phi_uses@[p])@ == users_of(phis, SsaValue::Phi(PhiId(p as usize)), phis.len())
        &&& forall|p: int|
            0 <= p < phis.len() ==> #[trigger] self.phi_use_blocks@[p] == only_block(
                cfg,
                sites_of(uses, SsaValue::Phi(PhiId(p as usize)), uses.len()),
            )
    }
}

/// Every value that is read, or flows into a phi, is there.
pub open spec fn reads_within(uses: Seq<InstrUseValues>, phis: nat, defs: nat) -> bool {
    forall|i: int, k: int| 0 <= i < uses.len() && 0 <= k < uses[i].fixed@.len() ==> within((#[trigger] uses[i].fixed@[k]).1, phis, defs)
}

pub open spec fn incomings_within(phis: Seq<PhiCandidate>, defs: nat) -> bool {
    forall|p: int, k: int|
        0 <= p < phis.len() && 0 <= k < phis[p].incoming@.len() ==> within((#[trigger] phis[p].incoming@[k]).value, phis.len(), defs)
}

/// What flows into phis is there; a phi that flows into itself need not be.
pub open spec fn incomings_known(phis: Seq<PhiCandidate>, defs: nat) -> bool {
    forall|p: int, k: int|
        0 <= p < phis.len() && 0 <= k < phis[p].incoming@.len() ==> (#[trigger] phis[p].incoming@[k]).value == SsaValue::Phi(phis[p].id)
            || within(phis[p].incoming@[k].value, phis.len(), defs)
}

/// Read `k` of an instruction is of a definition or a phi that is not there.
pub open spec fn read_problem(reads: Seq<(Reg, SsaValue)>, phis: nat, defs: nat) -> spec_fn(int) -> Option<Fault> {
    |k: int|
        match reads[k].1 {
            SsaValue::Def(d) => if d.0 >= defs {
                Some(Fault::UseMissingDef(d))
            } else {
                None
            },
            SsaValue::Phi(p) => if p.0 >= phis {
                Some(Fault::UseMissingPhi(p))
            } else {
                None
            },
            SsaValue::Entry(_) => None,
        }
}

/// Instruction `i` is not there, or reads something that is not.
pub open spec fn instr_problem(cfg: &Cfg, uses: Seq<InstrUseValues>, phis: nat, defs: nat) -> spec_fn(int) -> Option<Fault> {
    |i: int|
        if i >= cfg.instr_to_block@.len() {
            Some(Fault::UseMissingInstr(i as usize))
        } else {
            first_some(uses[i].fixed@.len(), read_problem(uses[i].fixed@, phis, defs))
        }
}

/// Incoming `k` of a phi is a definition or another phi that is not there.
pub open spec fn source_problem(phi: &PhiCandidate, phis: nat, defs: nat) -> spec_fn(int) -> Option<Fault> {
    |k: int|
        match phi.incoming@[k].value {
            SsaValue::Def(d) => if d.0 >= defs {
                Some(Fault::SourceMissingDef(phi.id, d))
            } else {
                None
            },
            SsaValue::Phi(p) => if p != phi.id && p.0 >= phis {
                Some(Fault::SourceMissingPhi(phi.id, p))
            } else {
                None
            },
            SsaValue::Entry(_) => None,
        }
}

pub open spec fn phi_source_problem(phis: Seq<PhiCandidate>, defs: nat) -> spec_fn(int) -> Option<Fault> {
    |p: int| first_some(phis[p].incoming@.len(), source_problem(&phis[p], phis.len(), defs))
}

/// The first thing that is read, or flows into a phi, without being there.
pub open spec fn use_fault(cfg: &Cfg, defs: nat, phis: Seq<PhiCandidate>, uses: Seq<InstrUseValues>) -> Option<Fault> {
    match first_some(uses.len(), instr_problem(cfg, uses, phis.len(), defs)) {
        Some(f) => Some(f),
        None => first_some(phis.len(), phi_source_problem(phis, defs)),
    }
}

fn find_read_problem(reads: &InstrUseValues, phis: usize, defs: usize) -> (r: Option<Fault>)
    ensures
        r == first_some(reads.fixed@.len(), read_problem(reads.fixed@, phis as nat, defs as nat)),
{
    let n = reads.fixed.len();
    let ghost f = read_problem(reads.fixed@, phis as nat, defs as nat);
    let mut k: usize = 0;
    while k < n
        invariant
            n == reads.fixed@.len(),
            f == read_problem(reads.fixed@, phis as nat, defs as nat),
            k <= n,
            first_some(k as nat, f) is None,
        decreases n - k,
    {
        let fault = match reads.fixed.entry(k).1 {
            SsaValue::Def(d) => if d.0 >= defs {
                Some(Fault::UseMissingDef(d))
            } else {
                None
            },
            SsaValue::Phi(p) => if p.0 >= phis {
                Some(Fault::UseMissingPhi(p))
            } else {
                None
            },
            SsaValue::Entry(_) => None,
        };
        assert(fault == f(k as int));
        if fault.is_some() {
            proof {
                first_some_stable((k + 1) as nat, n as nat, f);
            }
            return fault;
        }
        k = k + 1;
    }
    None
}

fn find_source_problem(phi: &PhiCandidate, phis: usize, defs: usize) -> (r: Option<Fault>)
    ensures
        r == first_some(phi.incoming@.len(), source_problem(phi, phis as nat, defs as nat)),
{
    let n = phi.incoming.len();
    let ghost f = source_problem(phi, phis as nat, defs as nat);
    let mut k: usize = 0;
    while k < n
        invariant
            n == phi.incoming@.len(),
            f == source_problem(phi, phis as nat, defs as nat),
            k <= n,
            first_some(k as nat, f) is None,
        decreases n - k,
    {
        let fault = match phi.incoming[k].value {
            SsaValue::Def(d) => if d.0 >= defs {
                Some(Fault::SourceMissingDef(phi.id, d))
            } else {
                None
            },
            SsaValue::Phi(p) => if p != phi.id && p.0 >= phis {
                Some(Fault::SourceMissingPhi(phi.id, p))
            } else {
                None
            },
            SsaValue::Entry(_) => None,
        };
        assert(fault == f(k as int));
        if fault.is_some() {
            proof {
                first_some_stable((k + 1) as nat, n as nat, f);
            }
            return fault;
        }
        k = k + 1;
    }
    None
}

fn find_use_fault(cfg: &Cfg, defs: usize, phis: &Vec<PhiCandidate>, uses: &Vec<InstrUseValues>) -> (r: Option<Fault>)
    ensures
        r == use_fault(cfg, defs as nat, phis@, uses@),
{
    let count = phis.len();
    let n = uses.len();
    let ghost f = instr_problem(cfg, uses@, count as nat, defs as nat);
    let mut i: usize = 0;
    while i < n
        invariant
            n == uses@.len(),
            count == phis@.len(),
            f == instr_problem(cfg, uses@, count as nat, defs as nat),
            i <= n,
            first_some(i as nat, f) is None,
        decreases n - i,
    {
        let fault = if i >= cfg.instr_to_block.len() {
            Some(Fault::UseMissingInstr(i))
        } else {
            find_read_problem(&uses[i], count, defs)
        };
        assert(fault == f(i as int));
        if fault.is_some() {
            proof {
                first_some_stable((i + 1) as nat, n as nat, f);
            }
            return fault;
        }
        i = i + 1;
    }
    let ghost g = phi_source_problem(phis@, defs as nat);
    let mut p: usize = 0;
    while p < count
        invariant
            count == phis@.len(),
            first_some(uses@.len(), instr_problem(cfg, uses@, count as nat, defs as nat)) is None,
            g == phi_source_problem(phis@, defs as nat),
            p <= count,
            first_some(p as nat, g) is None,
        decreases count - p,
    {
        let fault = find_source_problem(&phis[p], count, defs);
        assert(fault == g(p as int));
        if fault.is_some() {
            proof {
                first_some_stable((p + 1) as nat, count as nat, g);
            }
            return fault;
        }
        p = p + 1;
    }
    None
}

/// Without such a fault everything is there.
proof fn all_is_there(cfg: &Cfg, defs: nat, phis: Seq<PhiCandidate>, uses: Seq<InstrUseValues>)
    requires
        use_fault(cfg, defs, phis, uses) is None,
    ensures
        uses.len() <= cfg.instr_to_block@.len(),
        reads_within(uses, phis.len(), defs),
        incomings_known(phis, defs),
{
    let f = instr_problem(cfg, uses, phis.len(), defs);
    first_some_empty(uses.len(), f);
    if uses.len() > 0 {
        assert(f(uses.len() - 1) is None);
    }
    assert forall|i: int, k: int| 0 <= i < uses.len() && 0 <= k < uses[i].fixed@.len() implies within(
        (#[trigger] uses[i].fixed@[k]).1,
        phis.len(),
        defs,
    ) by {
        assert(f(i) is None);
        let g = read_problem(uses[i].fixed@, phis.len(), defs);
        first_some_empty(uses[i].fixed@.len(), g);
        assert(g(k) is None);
    }
    let h = phi_source_problem(phis, defs);
    first_some_empty(phis.len(), h);
    assert forall|p: int, k: int| 0 <= p < phis.len() && 0 <= k < phis[p].incoming@.len() implies (
    #[trigger] phis[p].incoming@[k]).value == SsaValue::Phi(phis[p].id) || within(phis[p].incoming@[k].value, phis.len(), defs) by {
        assert(h(p) is None);
        let g = source_problem(&phis[p], phis.len(), defs);
        first_some_empty(phis[p].incoming@.len(), g);
        assert(g(k) is None);
    }
}

/// Where everything is there, there is no such fault.
pub proof fn nothing_is_missing(cfg: &Cfg, defs: nat, phis: Seq<PhiCandidate>, uses: Seq<InstrUseValues>)
    requires
        uses.len() <= cfg.instr_to_block@.len(),
        reads_within(uses, phis.len(), defs),
        incomings_within(phis, defs),
    ensures
        use_fault(cfg, defs, phis, uses) is None,
{
    let f = instr_problem(cfg, uses, phis.len(), defs);
    assert forall|i: int| 0 <= i < uses.len() implies (#[trigger] f(i)) is None by {
        let g = read_problem(uses[i].fixed@, phis.len(), defs);
        assert forall|k: int| 0 <= k < uses[i].fixed@.len() implies (#[trigger] g(k)) is None by {
            assert(within(uses[i].fixed@[k].1, phis.len(), defs));
        }
        first_some_empty(uses[i].fixed@.len(), g);
    }
    first_some_empty(uses.len(), f);
    let h = phi_source_problem(phis, defs);
    assert forall|p: int| 0 <= p < phis.len() implies (#[trigger] h(p)) is None by {
        let g = source_problem(&phis[p], phis.len(), defs);
        assert forall|k: int| 0 <= k < phis[p].incoming@.len() implies (#[trigger] g(k)) is None by {
            assert(within(phis[p].incoming@[k].value, phis.len(), defs));
        }
        first_some_empty(phis[p].incoming@.len(), g);
    }
    first_some_empty(phis.len(), h);
}

fn empty_sites(n: usize) -> (r: Vec<Vec<UseSite>>)
    ensures
        r@.len() == n,
        forall|k: int| 0 <= k < n ==> (#[trigger] r@[k])@ == Seq::<UseSite>::empty(),
{
    let mut r: Vec<Vec<UseSite>> = Vec::new();
    let mut k: usize = 0;
    while k < n
        invariant
            k <= n,
            r@.len() == k,
            forall|q: int| 0 <= q < k ==> (#[trigger] r@[q])@ == Seq::<UseSite>::empty(),
        decreases n - k,
    {
        r.push(Vec::new());
        k = k + 1;
    }
    r
}

fn empty_users(n: usize) -> (r: Vec<Vec<PhiId>>)
    ensures
        r@.len() == n,
        forall|k: int| 0 <= k < n ==> (#[trigger] r@[k])@ == Seq::<PhiId>::empty(),
{
    let mut r: Vec<Vec<PhiId>> = Vec::new();
    let mut k: usize = 0;
    while k < n
        invariant
            k <= n,
            r@.len() == k,
            forall|q: int| 0 <= q < k ==> (#[trigger] r@[q])@ == Seq::<PhiId>::empty(),
        decreases n - k,
    {
        r.push(Vec::new());
        k = k + 1;
    }
    r
}

/// The sites that read each definition and each phi.
fn index_sites(uses: &Vec<InstrUseValues>, def_count: usize, phi_count: usize) -> (r: (Vec<Vec<UseSite>>, Vec<Vec<UseSite>>))
    requires
        reads_within(uses@, phi_count as nat, def_count as nat),
    ensures
        (r.0)@.len() == def_count,
        (r.1)@.len() == phi_count,
        forall|d: int|
            0 <= d < def_count ==> (#[trigger] (r.0)@[d])@ == sites_of(uses@, SsaValue::Def(DefId(d as usize)), uses@.len()),
        forall|p: int|
            0 <= p < phi_count ==> (#[trigger] (r.1)@[p])@ == sites_of(uses@, SsaValue::Phi(PhiId(p as usize)), uses@.len()),
{
    let mut defs = empty_sites(def_count);
    let mut phis = empty_sites(phi_count);
    let n = uses.len();
    let mut i: usize = 0;
    while i < n
        invariant
            n == uses@.len(),
            reads_within(uses@, phi_count as nat, def_count as nat),
            i <= n,
            defs@.len() == def_count,
            phis@.len() == phi_count,
            forall|d: int| 0 <= d < def_count ==> (#[trigger] defs@[d])@ == sites_of(uses@, SsaValue::Def(DefId(d as usize)), i as nat),
            forall|p: int| 0 <= p < phi_count ==> (#[trigger] phis@[p])@ == sites_of(uses@, SsaValue::Phi(PhiId(p as usize)), i as nat),
        decreases n - i,
    {
        let m = uses[i].fixed.len();
        let ghost reads = uses@[i as int].fixed@;
        let mut k: usize = 0;
        while k < m
            invariant
                i < n,
                n == uses@.len(),
                reads_within(uses@, phi_count as nat, def_count as nat),
                reads == uses@[i as int].fixed@,
                m == reads.len(),
                k <= m,
                defs@.len() == def_count,
                phis@.len() == phi_count,
                forall|d: int|
                    0 <= d < def_count ==> (#[trigger] defs@[d])@ == sites_in(
                        reads,
                        SsaValue::Def(DefId(d as usize)),
                        i as int,
                        k as nat,
                        sites_of(uses@, SsaValue::Def(DefId(d as usize)), i as nat),
                    ),
                forall|p: int|
                    0 <= p < phi_count ==> (#[trigger] phis@[p])@ == sites_in(
                        reads,
                        SsaValue::Phi(PhiId(p as usize)),
                        i as int,
                        k as nat,
                        sites_of(uses@, SsaValue::Phi(PhiId(p as usize)), i as nat),
                    ),
            decreases m - k,
        {
            let (reg, value) = uses[i].fixed.entry(k);
            let site = UseSite { instr: InstrRef(i), reg };
            assert(within(uses@[i as int].fixed@[k as int].1, phi_count as nat, def_count as nat));
            match value {
                SsaValue::Entry(_) => {},
                SsaValue::Def(d) => {
                    defs[d.0].push(site);
                },
                SsaValue::Phi(p) => {
                    phis[p.0].push(site);
                },
            }
            k = k + 1;
        }
        i = i + 1;
    }
    (defs, phis)
}

/// The phis that take each definition and each phi.
fn index_users(phis: &Vec<PhiCandidate>, def_count: usize) -> (r: (Vec<Vec<PhiId>>, Vec<Vec<PhiId>>))
    requires
        incomings_known(phis@, def_count as nat),
    ensures
        (r.0)@.len() == def_count,
        (r.1)@.len() == phis@.len(),
        forall|d: int|
            0 <= d < def_count ==> (#[trigger] (r.0)@[d])@ == users_of(phis@, SsaValue::Def(DefId(d as usize)), phis@.len()),
        forall|p: int|
            0 <= p < phis@.len() ==> (#[trigger] (r.1)@[p])@ == users_of(phis@, SsaValue::Phi(PhiId(p as usize)), phis@.len()),
{
    let n = phis.len();
    let mut of_defs = empty_users(def_count);
    let mut of_phis = empty_users(n);
    let mut i: usize = 0;
    while i < n
        invariant
            n == phis@.len(),
            incomings_known(phis@, def_count as nat),
            i <= n,
            of_defs@.len() == def_count,
            of_phis@.len() == n,
            forall|d: int|
                0 <= d < def_count ==> (#[trigger] of_defs@[d])@ == users_of(phis@, SsaValue::Def(DefId(d as usize)), i as nat),
            forall|p: int| 0 <= p < n ==> (#[trigger] of_phis@[p])@ == users_of(phis@, SsaValue::Phi(PhiId(p as usize)), i as nat),
        decreases n - i,
    {
        let m = phis[i].incoming.len();
        let id = phis[i].id;
        let mut k: usize = 0;
        while k < m
            invariant
                i < n,
                n == phis@.len(),
                incomings_known(phis@, def_count as nat),
                id == phis@[i as int].id,
                m == phis@[i as int].incoming@.len(),
                k <= m,
                of_defs@.len() == def_count,
                of_phis@.len() == n,
                forall|d: int|
                    0 <= d < def_count ==> (#[trigger] of_defs@[d])@ == users_in(
                        &phis@[i as int],
                        SsaValue::Def(DefId(d as usize)),
                        k as nat,
                        users_of(phis@, SsaValue::Def(DefId(d as usize)), i as nat),
                    ),
                forall|p: int|
                    0 <= p < n ==> (#[trigger] of_phis@[p])@ == users_in(
                        &phis@[i as int],
                        SsaValue::Phi(PhiId(p as usize)),
                        k as nat,
                        users_of(phis@, SsaValue::Phi(PhiId(p as usize)), i as nat),
                    ),
            decreases m - k,
        {
            let value = phis[i].incoming[k].value;
            assert(phis@[i as int].incoming@[k as int].value == value);
            match value {
                SsaValue::Entry(_) => {},
                SsaValue::Def(d) => {
                    of_defs[d.0].push(id);
                },
                SsaValue::Phi(p) => {
                    if p != id {
                        of_phis[p.0].push(id);
                    }
                },
            }
            k = k + 1;
        }
        i = i + 1;
    }
    (of_defs, of_phis)
}

/// Every site lies at an instruction.
proof fn sites_placed(uses: Seq<InstrUseValues>, v: SsaValue, n: nat)
    requires
        n <= uses.len() <= usize::MAX,
    ensures
        forall|k: int| 0 <= k < sites_of(uses, v, n).len() ==> (#[trigger] sites_of(uses, v, n)[k]).instr.0 < n,
    decreases n,
{
    if n > 0 {
        sites_placed(uses, v, (n - 1) as nat);
        let reads = uses[n - 1].fixed@;
        sites_in_placed(reads, v, n - 1, reads.len(), sites_of(uses, v, (n - 1) as nat));
    }
}

proof fn sites_in_placed(reads: Seq<(Reg, SsaValue)>, v: SsaValue, i: int, n: nat, acc: Seq<UseSite>)
    requires
        0 <= i < usize::MAX,
        forall|k: int| 0 <= k < acc.len() ==> (#[trigger] acc[k]).instr.0 < i,
    ensures
        forall|k: int| 0 <= k < sites_in(reads, v, i, n, acc).len() ==> (#[trigger] sites_in(reads, v, i, n, acc)[k]).instr.0 < i + 1,
    decreases n,
{
    if n > 0 {
        sites_in_placed(reads, v, i, (n - 1) as nat, acc);
        let rest = sites_in(reads, v, i, (n - 1) as nat, acc);
        let all = sites_in(reads, v, i, n, acc);
        assert forall|k: int| 0 <= k < all.len() implies (#[trigger] all[k]).instr.0 < i + 1 by {
            if k < rest.len() {
                assert(all[k] == rest[k]);
            }
        }
    }
}

fn find_only_block(cfg: &Cfg, sites: &Vec<UseSite>) -> (r: Option<BlockRef>)
    requires
        forall|k: int| 0 <= k < sites@.len() ==> (#[trigger] sites@[k]).instr.0 < cfg.instr_to_block@.len(),
    ensures
        r == only_block(cfg, sites@),
{
    let n = sites.len();
    if n == 0 {
        return None;
    }
    let block = cfg.instr_to_block[sites[0].instr.0];
    let mut k: usize = 0;
    while k < n
        invariant
            n == sites@.len(),
            forall|q: int| 0 <= q < sites@.len() ==> (#[trigger] sites@[q]).instr.0 < cfg.instr_to_block@.len(),
            block == cfg.instr_to_block@[sites@[0].instr.0 as int],
            k <= n,
            forall|q: int| 0 <= q < k ==> cfg.instr_to_block@[(#[trigger] sites@[q]).instr.0 as int] == block,
        decreases n - k,
    {
        if cfg.instr_to_block[sites[k].instr.0] != block {
            assert(cfg.instr_to_block@[sites@[k as int].instr.0 as int] != block);
            return None;
        }
        k = k + 1;
    }
    Some(block)
}

/// Indexes the readers of every definition and every phi.
pub fn index_uses(cfg: &Cfg, def_count: usize, phis: &Vec<PhiCandidate>, uses: &Vec<InstrUseValues>) -> (r: Result<
    UseIndex,
    StructureError,
>)
    ensures
        match r {
            Ok(index) => use_fault(cfg, def_count as nat, phis@, uses@) is None && index.describes(
                cfg,
                def_count as nat,
                phis@,
                uses@,
            ),
            Err(e) => use_fault(cfg, def_count as nat, phis@, uses@) == Some(e.fault),
        },
{
    if let Some(f) = find_use_fault(cfg, def_count, phis, uses) {
        return Err(StructureError::invalid(f));
    }
    proof {
        all_is_there(cfg, def_count as nat, phis@, uses@);
    }
    let n = phis.len();
    let (def_uses, phi_uses) = index_sites(uses, def_count, n);
    let (def_phi_uses, phi_phi_uses) = index_users(phis, def_count);
    let mut phi_use_blocks: Vec<Option<BlockRef>> = Vec::new();
    let mut p: usize = 0;
    while p < n
        invariant
            n == phi_uses@.len(),
            uses@.len() <= cfg.instr_to_block@.len(),
            p <= n,
            forall|q: int|
                0 <= q < n ==> (#[trigger] phi_uses@[q])@ == sites_of(uses@, SsaValue::Phi(PhiId(q as usize)), uses@.len()),
            phi_use_blocks@.len() == p,
            forall|q: int|
                0 <= q < p ==> #[trigger] phi_use_blocks@[q] == only_block(
                    cfg,
                    sites_of(uses@, SsaValue::Phi(PhiId(q as usize)), uses@.len()),
                ),
        decreases n - p,
    {
        proof {
            assert(uses.len() <= usize::MAX);
            sites_placed(uses@, SsaValue::Phi(PhiId(p)), uses@.len());
        }
        phi_use_blocks.push(find_only_block(cfg, &phi_uses[p]));
        p = p + 1;
    }
    Ok(UseIndex { def_uses, def_phi_uses, phi_uses, phi_phi_uses, phi_use_blocks })
}

} // verus!
