//! Data-flow facts of one prototype and the queries over them.

use vstd::prelude::*;

use crate::cfg::Cfg;
use crate::dense::{adjacent, close, closes_to, flagged};
use crate::ids::{BlockRef, EdgeRef, InstrRef, Ranked, Reg};
use crate::idset::IdSet;
use crate::search::{first_where, first_where_stable};
use crate::walk::{
    closed_set_holds_reachable, reaches, reaches_first_step, reaches_monotone, reaches_self, reaches_then_step,
};

verus! {

/// A definition of a register.
#[derive(Debug, Clone, Copy, PartialEq, Eq, PartialOrd, Ord, Hash, Structural)]
pub struct DefId(pub usize);

impl DefId {
    pub fn index(self) -> (r: usize)
        ensures
            r == self.0,
    {
        self.0
    }
}

impl Ranked for DefId {
    open spec fn rank(self) -> (int, int) {
        (self.0 as int, 0)
    }

    fn before(self, other: Self) -> (r: bool) {
        self.0 < other.0
    }

    fn same(self, other: Self) -> (r: bool) {
        self.0 == other.0
    }

    proof fn rank_injective(a: Self, b: Self) {
    }
}

/// A definition of every register from one upwards.
#[derive(Debug, Clone, Copy, PartialEq, Eq, PartialOrd, Ord, Hash, Structural)]
pub struct OpenDefId(pub usize);

impl OpenDefId {
    pub fn index(self) -> (r: usize)
        ensures
            r == self.0,
    {
        self.0
    }
}

impl Ranked for OpenDefId {
    open spec fn rank(self) -> (int, int) {
        (self.0 as int, 0)
    }

    fn before(self, other: Self) -> (r: bool) {
        self.0 < other.0
    }

    fn same(self, other: Self) -> (r: bool) {
        self.0 == other.0
    }

    proof fn rank_injective(a: Self, b: Self) {
    }
}

/// A value merge at a block's entry.
#[derive(Debug, Clone, Copy, PartialEq, Eq, PartialOrd, Ord, Hash, Structural)]
pub struct PhiId(pub usize);

impl PhiId {
    pub fn index(self) -> (r: usize)
        ensures
            r == self.0,
    {
        self.0
    }
}

impl Ranked for PhiId {
    open spec fn rank(self) -> (int, int) {
        (self.0 as int, 0)
    }

    fn before(self, other: Self) -> (r: bool) {
        self.0 < other.0
    }

    fn same(self, other: Self) -> (r: bool) {
        self.0 == other.0
    }

    proof fn rank_injective(a: Self, b: Self) {
    }
}

/// Where a register's value comes from.
#[derive(Debug, Clone, Copy, PartialEq, Eq, PartialOrd, Ord, Hash, Structural)]
pub enum SsaValue {
    /// What the register held on entry.
    Entry(Reg),
    Def(DefId),
    Phi(PhiId),
}

impl Ranked for SsaValue {
    open spec fn rank(self) -> (int, int) {
        match self {
            SsaValue::Entry(r) => (0, r.0 as int),
            SsaValue::Def(d) => (1, d.0 as int),
            SsaValue::Phi(p) => (2, p.0 as int),
        }
    }

    fn before(self, other: Self) -> (r: bool) {
        match (self, other) {
            (SsaValue::Entry(a), SsaValue::Entry(b)) => a.0 < b.0,
            (SsaValue::Entry(_), _) => true,
            (SsaValue::Def(_), SsaValue::Entry(_)) => false,
            (SsaValue::Def(a), SsaValue::Def(b)) => a.0 < b.0,
            (SsaValue::Def(_), SsaValue::Phi(_)) => true,
            (SsaValue::Phi(a), SsaValue::Phi(b)) => a.0 < b.0,
            (SsaValue::Phi(_), _) => false,
        }
    }

    fn same(self, other: Self) -> (r: bool) {
        self == other
    }

    proof fn rank_injective(a: Self, b: Self) {
    }
}

/// Registers with their values, by ascending register.
#[derive(Debug)]
pub struct SsaRegMap {
    entries: Vec<(Reg, SsaValue)>,
}

pub open spec fn regs_ascend(entries: Seq<(Reg, SsaValue)>) -> bool {
    forall|i: int, j: int| 0 <= i < j < entries.len() ==> (#[trigger] entries[i]).0.0 < (#[trigger] entries[j]).0.0
}

pub open spec fn entry_for(entries: Seq<(Reg, SsaValue)>, reg: Reg) -> spec_fn(int) -> bool {
    |i: int| entries[i].0 == reg
}

impl View for SsaRegMap {
    type V = Seq<(Reg, SsaValue)>;

    closed spec fn view(&self) -> Seq<(Reg, SsaValue)> {
        self.entries@
    }
}

impl SsaRegMap {
    #[verifier::type_invariant]
    spec fn inv(&self) -> bool {
        regs_ascend(self.entries@)
    }

    /// The value recorded for a register.
    pub open spec fn value_of(&self, reg: Reg) -> Option<SsaValue> {
        match first_where(self@.len(), entry_for(self@, reg)) {
            Some(i) => Some(self@[i].1),
            None => None,
        }
    }

    pub fn from_sorted_entries(entries: Vec<(Reg, SsaValue)>) -> (r: Self)
        requires
            regs_ascend(entries@),
        ensures
            r@ == entries@,
    {
        SsaRegMap { entries }
    }

    pub fn get(&self, reg: Reg) -> (r: Option<SsaValue>)
        ensures
            r == self.value_of(reg),
    {
        let n = self.entries.len();
        let mut i: usize = 0;
        while i < n
            invariant
                n == self.entries@.len(),
                i <= n,
                first_where(i as nat, entry_for(self@, reg)) is None,
            decreases n - i,
        {
            if self.entries[i].0 == reg {
                proof {
                    assert(first_where((i + 1) as nat, entry_for(self@, reg)) == Some(i as int));
                    first_where_stable((i + 1) as nat, n as nat, entry_for(self@, reg));
                }
                return Some(self.entries[i].1);
            }
            i = i + 1;
        }
        None
    }

    pub fn len(&self) -> (r: usize)
        ensures
            r == self@.len(),
            regs_ascend(self@),
    {
        proof {
            use_type_invariant(self);
        }
        self.entries.len()
    }

    /// The entry at position `i`, by ascending register.
    pub fn entry(&self, i: usize) -> (r: (Reg, SsaValue))
        requires
            i < self@.len(),
        ensures
            r == self@[i as int],
    {
        self.entries[i]
    }

    /// The entries, by ascending register.
    pub fn iter(&self) -> (r: Vec<(Reg, SsaValue)>)
        ensures
            r@ == self@,
            regs_ascend(r@),
    {
        proof {
            use_type_invariant(self);
        }
        let n = self.entries.len();
        let mut r: Vec<(Reg, SsaValue)> = Vec::new();
        let mut i: usize = 0;
        while i < n
            invariant
                n == self.entries@.len(),
                i <= n,
                r@ =~= self.entries@.subrange(0, i as int),
            decreases n - i,
        {
            r.push(self.entries[i]);
            i = i + 1;
        }
        assert(r@ =~= self.entries@);
        r
    }

    /// The values, by ascending register.
    pub fn values(&self) -> (r: Vec<SsaValue>)
        ensures
            r@ == self@.map_values(|e: (Reg, SsaValue)| e.1),
    {
        let n = self.entries.len();
        let mut r: Vec<SsaValue> = Vec::new();
        let mut i: usize = 0;
        while i < n
            invariant
                n == self.entries@.len(),
                i <= n,
                r@ =~= self.entries@.subrange(0, i as int).map_values(|e: (Reg, SsaValue)| e.1),
            decreases n - i,
        {
            r.push(self.entries[i].1);
            i = i + 1;
        }
        assert(self.entries@.subrange(0, n as int) =~= self.entries@);
        r
    }
}

/// What one instruction reads and surely writes.
#[derive(Debug)]
pub struct InstrEffect {
    pub fixed_uses: IdSet<Reg>,
    pub fixed_must_defs: IdSet<Reg>,
    pub open_use: Option<Reg>,
    pub open_must_def: Option<Reg>,
}

impl InstrEffect {
    /// The instruction writes `reg` on every run.
    pub open spec fn defines(&self, reg: Reg) -> bool {
        self.fixed_must_defs@.contains(reg) || (self.open_must_def is Some && reg.0 >= (self.open_must_def->0).0)
    }

    pub fn must_define(&self, reg: Reg) -> (r: bool)
        ensures
            r == self.defines(reg),
    {
        self.fixed_must_defs.contains(reg) || match self.open_must_def {
            Some(start) => reg.0 >= start.0,
            None => false,
        }
    }
}

#[derive(Debug, Clone, Copy, PartialEq, Eq, PartialOrd, Ord, Hash, Structural)]
pub enum EffectTag {
    Alloc,
    ReadTable,
    WriteTable,
    ReadEnv,
    WriteEnv,
    ReadUpvalue,
    WriteUpvalue,
    Call,
    Close,
}

/// The side effects of one instruction.
#[derive(Debug)]
pub struct SideEffectSummary {
    pub tags: Vec<EffectTag>,
}

#[derive(Debug, Clone, Copy, PartialEq, Eq, Hash, Structural)]
pub struct Def {
    pub id: DefId,
    pub reg: Reg,
    pub instr: InstrRef,
    pub block: BlockRef,
}

#[derive(Debug, Clone, Copy, PartialEq, Eq, Hash, Structural)]
pub struct OpenDef {
    pub id: OpenDefId,
    pub start_reg: Reg,
    pub instr: InstrRef,
    pub block: BlockRef,
}

/// The open definitions that an open use can read, and whether it can read what was there
/// on entry.
#[derive(Debug)]
pub struct OpenUseSources {
    pub has_entry: bool,
    pub defs: IdSet<OpenDefId>,
}

impl OpenUseSources {
    pub fn new() -> (r: Self)
        ensures
            !r.has_entry,
            r.defs@ == Set::<OpenDefId>::empty(),
    {
        OpenUseSources { has_entry: false, defs: IdSet::new() }
    }

    pub fn has_entry(&self) -> (r: bool)
        ensures
            r == self.has_entry,
    {
        self.has_entry
    }

    pub fn defs(&self) -> (r: &IdSet<OpenDefId>)
        ensures
            *r == self.defs,
    {
        &self.defs
    }

    pub fn insert_entry(&mut self) -> (changed: bool)
        ensures
            changed == !old(self).has_entry,
            final(self).has_entry,
            final(self).defs == old(self).defs,
    {
        let changed = !self.has_entry;
        self.has_entry = true;
        changed
    }

    pub fn insert_def(&mut self, def: OpenDefId) -> (changed: bool)
        ensures
            changed == !old(self).defs@.contains(def),
            final(self).has_entry == old(self).has_entry,
            final(self).defs@ == old(self).defs@.insert(def),
    {
        self.defs.insert(def)
    }

    /// Adds the sources of `other`; true when something was added.
    pub fn merge(&mut self, other: &Self) -> (changed: bool)
        ensures
            final(self).has_entry == (old(self).has_entry || other.has_entry),
            final(self).defs@ == old(self).defs@.union(other.defs@),
            changed == ((other.has_entry && !old(self).has_entry) || !other.defs@.subset_of(old(self).defs@)),
    {
        let grows = !other.defs.is_subset(&self.defs);
        let entry_changed = other.has_entry && !self.has_entry;
        if other.has_entry {
            self.has_entry = true;
        }
        self.defs.extend(&other.defs);
        entry_changed || grows
    }
}

/// The values of the registers that one instruction reads.
#[derive(Debug)]
pub struct InstrUseValues {
    pub fixed: SsaRegMap,
}

#[derive(Debug, Clone, Copy, PartialEq, Eq, Hash, Structural)]
pub struct UseSite {
    pub instr: InstrRef,
    pub reg: Reg,
}

/// One value that flows into a phi; without an edge it is the value on entry.
#[derive(Debug, Clone, Copy, PartialEq, Eq, Hash, Structural)]
pub struct PhiIncoming {
    pub edge: Option<EdgeRef>,
    pub pred: Option<BlockRef>,
    pub value: SsaValue,
}

#[derive(Debug)]
pub struct PhiCandidate {
    pub id: PhiId,
    pub block: BlockRef,
    pub reg: Reg,
    pub incoming: Vec<PhiIncoming>,
}

/// The phis of one block: a run of the phi arena.
#[derive(Debug, Clone, Copy, PartialEq, Eq, Hash, Structural)]
pub struct PhiRange {
    pub start: usize,
    pub end: usize,
}

#[derive(Debug)]
pub struct DataflowFacts {
    pub instr_effects: Vec<InstrEffect>,
    pub effect_summaries: Vec<SideEffectSummary>,
    pub defs: Vec<Def>,
    pub open_defs: Vec<OpenDef>,
    pub instr_defs: Vec<Vec<DefId>>,
    pub block_entry_values: Vec<SsaRegMap>,
    pub block_exit_values: Vec<SsaRegMap>,
    pub use_values: Vec<InstrUseValues>,
    pub def_uses: Vec<Vec<UseSite>>,
    pub def_phi_uses: Vec<Vec<PhiId>>,
    pub phi_uses: Vec<Vec<UseSite>>,
    pub phi_phi_uses: Vec<Vec<PhiId>>,
    pub open_use_sources: Vec<OpenUseSources>,
    pub live_in: Vec<IdSet<Reg>>,
    pub live_out: Vec<IdSet<Reg>>,
    pub open_live_in: Vec<bool>,
    pub open_live_out: Vec<bool>,
    pub phi_candidates: Vec<PhiCandidate>,
    pub phi_block_ranges: Vec<PhiRange>,
    pub phi_use_blocks: Vec<Option<BlockRef>>,
    pub children: Vec<DataflowFacts>,
}

/// The value of a register in a map, or what it held on entry.
pub open spec fn value_or_entry(maps: Seq<SsaRegMap>, at: int, reg: Reg) -> SsaValue {
    if 0 <= at < maps.len() {
        match maps[at].value_of(reg) {
            Some(v) => v,
            None => SsaValue::Entry(reg),
        }
    } else {
        SsaValue::Entry(reg)
    }
}

fn map_value(maps: &Vec<SsaRegMap>, at: usize, reg: Reg) -> (r: SsaValue)
    ensures
        r == value_or_entry(maps@, at as int, reg),
{
    if at >= maps.len() {
        return SsaValue::Entry(reg);
    }
    match maps[at].get(reg) {
        Some(v) => v,
        None => SsaValue::Entry(reg),
    }
}

/// `value` is one of the values that flow into phi `p`.
pub open spec fn flows_in(phis: Seq<PhiCandidate>, p: usize, value: SsaValue) -> bool {
    p < phis.len() && exists|k: int| 0 <= k < phis[p as int].incoming@.len() && (#[trigger] phis[p as int].incoming@[k]).value == value
}

/// Phi `q` flows into phi `p`.
pub open spec fn upstream(phis: Seq<PhiCandidate>) -> spec_fn(usize, usize) -> bool {
    |p: usize, q: usize| flows_in(phis, p, SsaValue::Phi(PhiId(q)))
}

/// `target` is `root` or flows into it, directly or through other phis.
pub open spec fn carries(phis: Seq<PhiCandidate>, root: SsaValue, target: SsaValue) -> bool {
    root == target || match root {
        SsaValue::Phi(r) => exists|p: usize| #[trigger] reaches(upstream(phis), r.0, p) && flows_in(phis, p, target),
        _ => false,
    }
}

impl DataflowFacts {
    pub open spec fn entry_value(&self, block: BlockRef, reg: Reg) -> SsaValue {
        value_or_entry(self.block_entry_values@, block.0 as int, reg)
    }

    pub open spec fn exit_value(&self, block: BlockRef, reg: Reg) -> SsaValue {
        value_or_entry(self.block_exit_values@, block.0 as int, reg)
    }

    pub fn block_entry_value(&self, block: BlockRef, reg: Reg) -> (r: SsaValue)
        ensures
            r == self.entry_value(block, reg),
    {
        map_value(&self.block_entry_values, block.0, reg)
    }

    pub fn block_exit_value(&self, block: BlockRef, reg: Reg) -> (r: SsaValue)
        ensures
            r == self.exit_value(block, reg),
    {
        map_value(&self.block_exit_values, block.0, reg)
    }

    /// The value that `instr` reads from `reg`.
    pub open spec fn read_value(&self, instr: InstrRef, reg: Reg) -> SsaValue {
        if instr.0 < self.use_values@.len() {
            match self.use_values@[instr.0 as int].fixed.value_of(reg) {
                Some(v) => v,
                None => SsaValue::Entry(reg),
            }
        } else {
            SsaValue::Entry(reg)
        }
    }

    pub fn use_value(&self, instr: InstrRef, reg: Reg) -> (r: SsaValue)
        ensures
            r == self.read_value(instr, reg),
    {
        if instr.0 >= self.use_values.len() {
            return SsaValue::Entry(reg);
        }
        match self.use_values[instr.0].fixed.get(reg) {
            Some(v) => v,
            None => SsaValue::Entry(reg),
        }
    }

    pub fn use_values_at(&self, instr: InstrRef) -> (r: &SsaRegMap)
        requires
            instr.0 < self.use_values@.len(),
        ensures
            *r == self.use_values@[instr.0 as int].fixed,
    {
        &self.use_values[instr.0].fixed
    }

    pub fn open_use_sources_at(&self, instr: InstrRef) -> (r: &OpenUseSources)
        requires
            instr.0 < self.open_use_sources@.len(),
        ensures
            *r == self.open_use_sources@[instr.0 as int],
    {
        &self.open_use_sources[instr.0]
    }

    pub fn live_in_regs(&self, block: BlockRef) -> (r: &IdSet<Reg>)
        requires
            block.0 < self.live_in@.len(),
        ensures
            *r == self.live_in@[block.0 as int],
    {
        &self.live_in[block.0]
    }

    pub fn live_out_regs(&self, block: BlockRef) -> (r: &IdSet<Reg>)
        requires
            block.0 < self.live_out@.len(),
        ensures
            *r == self.live_out@[block.0 as int],
    {
        &self.live_out[block.0]
    }

    pub fn block_open_live_in(&self, block: BlockRef) -> (r: bool)
        requires
            block.0 < self.open_live_in@.len(),
        ensures
            r == self.open_live_in@[block.0 as int],
    {
        self.open_live_in[block.0]
    }

    pub fn block_open_live_out(&self, block: BlockRef) -> (r: bool)
        requires
            block.0 < self.open_live_out@.len(),
        ensures
            r == self.open_live_out@[block.0 as int],
    {
        self.open_live_out[block.0]
    }

    pub fn phi_candidate(&self, phi_id: PhiId) -> (r: Option<&PhiCandidate>)
        ensures
            match r {
                Some(p) => phi_id.0 < self.phi_candidates@.len() && *p == self.phi_candidates@[phi_id.0 as int],
                None => phi_id.0 >= self.phi_candidates@.len(),
            },
    {
        if phi_id.0 < self.phi_candidates.len() {
            Some(&self.phi_candidates[phi_id.0])
        } else {
            None
        }
    }

    /// The block ranges lie in the phi arena.
    pub open spec fn ranges_wf(&self) -> bool {
        forall|b: int| 0 <= b < self.phi_block_ranges@.len() ==> {
            let r = #[trigger] self.phi_block_ranges@[b];
            r.start <= r.end <= self.phi_candidates@.len()
        }
    }

    /// The range of one block lies in the phi arena.
    pub open spec fn range_fits(&self, block: BlockRef) -> bool {
        block.0 < self.phi_block_ranges@.len() ==> {
            let r = self.phi_block_ranges@[block.0 as int];
            r.start <= r.end <= self.phi_candidates@.len()
        }
    }

    /// The phis of a block.
    pub open spec fn phis_in(&self, block: BlockRef) -> Seq<PhiCandidate> {
        if block.0 < self.phi_block_ranges@.len() {
            let r = self.phi_block_ranges@[block.0 as int];
            self.phi_candidates@.subrange(r.start as int, r.end as int)
        } else {
            Seq::empty()
        }
    }

    pub fn phi_candidates_in_block(&self, block: BlockRef) -> (r: &[PhiCandidate])
        requires
            self.range_fits(block),
        ensures
            r@ == self.phis_in(block),
    {
        if block.0 >= self.phi_block_ranges.len() {
            let r = vstd::slice::slice_subrange(self.phi_candidates.as_slice(), 0, 0);
            assert(r@ =~= Seq::<PhiCandidate>::empty());
            return r;
        }
        let range = self.phi_block_ranges[block.0];
        vstd::slice::slice_subrange(self.phi_candidates.as_slice(), range.start, range.end)
    }

    pub open spec fn phi_for(phis: Seq<PhiCandidate>, reg: Reg) -> spec_fn(int) -> bool {
        |i: int| phis[i].reg == reg
    }

    pub fn phi_candidate_for_reg(&self, block: BlockRef, reg: Reg) -> (r: Option<&PhiCandidate>)
        requires
            self.range_fits(block),
        ensures
            match first_where(self.phis_in(block).len(), Self::phi_for(self.phis_in(block), reg)) {
                Some(i) => r is Some && *(r->0) == self.phis_in(block)[i],
                None => r is None,
            },
    {
        let phis = self.phi_candidates_in_block(block);
        let n = phis.len();
        let mut i: usize = 0;
        while i < n
            invariant
                phis@ == self.phis_in(block),
                n == phis@.len(),
                i <= n,
                first_where(i as nat, Self::phi_for(phis@, reg)) is None,
            decreases n - i,
        {
            if phis[i].reg == reg {
                proof {
                    assert(first_where((i + 1) as nat, Self::phi_for(phis@, reg)) == Some(i as int));
                    first_where_stable((i + 1) as nat, n as nat, Self::phi_for(phis@, reg));
                }
                return Some(&phis[i]);
            }
            i = i + 1;
        }
        None
    }

    pub open spec fn use_count_of(&self, phi: PhiId) -> nat {
        if phi.0 < self.phi_uses@.len() {
            self.phi_uses@[phi.0 as int]@.len()
        } else {
            0
        }
    }

    pub fn phi_use_count(&self, phi_id: PhiId) -> (r: usize)
        ensures
            r == self.use_count_of(phi_id),
    {
        if phi_id.0 < self.phi_uses.len() {
            self.phi_uses[phi_id.0].len()
        } else {
            0
        }
    }

    pub fn phi_consumer_ids(&self, phi_id: PhiId) -> (r: Vec<PhiId>)
        ensures
            r@ == (if phi_id.0 < self.phi_phi_uses@.len() {
                self.phi_phi_uses@[phi_id.0 as int]@
            } else {
                Seq::empty()
            }),
    {
        let mut r: Vec<PhiId> = Vec::new();
        if phi_id.0 >= self.phi_phi_uses.len() {
            return r;
        }
        let n = self.phi_phi_uses[phi_id.0].len();
        let ghost row = self.phi_phi_uses@[phi_id.0 as int]@;
        let mut i: usize = 0;
        while i < n
            invariant
                phi_id.0 < self.phi_phi_uses@.len(),
                row == self.phi_phi_uses@[phi_id.0 as int]@,
                n == row.len(),
                i <= n,
                r@ =~= row.subrange(0, i as int),
            decreases n - i,
        {
            r.push(self.phi_phi_uses[phi_id.0][i]);
            i = i + 1;
        }
        assert(row.subrange(0, n as int) =~= row);
        r
    }

    pub fn def_reg(&self, def_id: DefId) -> (r: Reg)
        requires
            def_id.0 < self.defs@.len(),
        ensures
            r == self.defs@[def_id.0 as int].reg,
    {
        self.defs[def_id.0].reg
    }

    pub fn def_block(&self, def_id: DefId) -> (r: BlockRef)
        requires
            def_id.0 < self.defs@.len(),
        ensures
            r == self.defs@[def_id.0 as int].block,
    {
        self.defs[def_id.0].block
    }

    pub fn def_instr(&self, def_id: DefId) -> (r: InstrRef)
        requires
            def_id.0 < self.defs@.len(),
        ensures
            r == self.defs@[def_id.0 as int].instr,
    {
        self.defs[def_id.0].instr
    }

    /// Position `i` of the instruction's definitions defines `reg`.
    pub open spec fn defines_reg(&self, instr: InstrRef, reg: Reg) -> spec_fn(int) -> bool {
        |i: int| self.defs@[self.instr_defs@[instr.0 as int]@[i].0 as int].reg == reg
    }

    /// The definition of a register that an instruction makes.
    pub open spec fn found_def(&self, instr: InstrRef, reg: Reg) -> Option<DefId> {
        if instr.0 < self.instr_defs@.len() {
            match first_where(self.instr_defs@[instr.0 as int]@.len(), self.defines_reg(instr, reg)) {
                Some(i) => Some(self.instr_defs@[instr.0 as int]@[i]),
                None => None,
            }
        } else {
            None
        }
    }

    pub fn instr_def_for_reg(&self, instr: InstrRef, reg: Reg) -> (r: Option<DefId>)
        requires
            instr.0 < self.instr_defs@.len() ==> forall|i: int|
                0 <= i < self.instr_defs@[instr.0 as int]@.len() ==> (#[trigger] self.instr_defs@[instr.0 as int]@[i]).0
                    < self.defs@.len(),
        ensures
            r == self.found_def(instr, reg),
    {
        if instr.0 >= self.instr_defs.len() {
            return None;
        }
        let n = self.instr_defs[instr.0].len();
        let ghost row = self.instr_defs@[instr.0 as int]@;
        let mut i: usize = 0;
        while i < n
            invariant
                instr.0 < self.instr_defs@.len(),
                row == self.instr_defs@[instr.0 as int]@,
                n == row.len(),
                i <= n,
                forall|i: int| 0 <= i < row.len() ==> (#[trigger] row[i]).0 < self.defs@.len(),
                first_where(i as nat, self.defines_reg(instr, reg)) is None,
            decreases n - i,
        {
            let d = self.instr_defs[instr.0][i];
            assert(row[i as int] == d);
            if self.def_reg(d) == reg {
                proof {
                    assert(first_where((i + 1) as nat, self.defines_reg(instr, reg)) == Some(i as int));
                    first_where_stable((i + 1) as nat, n as nat, self.defines_reg(instr, reg));
                }
                return Some(d);
            }
            i = i + 1;
        }
        None
    }

    pub fn phi_used_only_in_block(&self, phi_id: PhiId, block: BlockRef) -> (r: bool)
        ensures
            r == (self.use_count_of(phi_id) > 0 && phi_id.0 < self.phi_use_blocks@.len()
                && self.phi_use_blocks@[phi_id.0 as int] == Some(block)),
    {
        self.phi_use_count(phi_id) > 0 && phi_id.0 < self.phi_use_blocks.len() && match self.phi_use_blocks[phi_id.0] {
            Some(b) => b == block,
            None => false,
        }
    }

    /// The uses are exactly one, at `instr` from `reg`.
    pub open spec fn only_site(uses: Seq<Vec<UseSite>>, at: usize, instr: InstrRef, reg: Reg) -> bool {
        at < uses.len() && uses[at as int]@ == seq![UseSite { instr, reg }]
    }

    pub open spec fn unused_by_phis(uses: Seq<Vec<PhiId>>, at: usize) -> bool {
        at < uses.len() ==> uses[at as int]@.len() == 0
    }

    pub open spec fn used_only_by(&self, value: SsaValue, instr: InstrRef, reg: Reg) -> bool {
        match value {
            SsaValue::Def(d) => Self::only_site(self.def_uses@, d.0, instr, reg) && Self::unused_by_phis(
                self.def_phi_uses@,
                d.0,
            ),
            SsaValue::Phi(p) => Self::only_site(self.phi_uses@, p.0, instr, reg) && Self::unused_by_phis(
                self.phi_phi_uses@,
                p.0,
            ),
            SsaValue::Entry(_) => false,
        }
    }

    /// Whether the read of `reg` at `instr` is the only use of `value`.
    pub fn value_used_only_by(&self, value: SsaValue, instr: InstrRef, reg: Reg) -> (r: bool)
        ensures
            r == self.used_only_by(value, instr, reg),
    {
        match value {
            SsaValue::Def(d) => is_only_site(&self.def_uses, d.0, instr, reg) && (d.0 >= self.def_phi_uses.len()
                || self.def_phi_uses[d.0].len() == 0),
            SsaValue::Phi(p) => is_only_site(&self.phi_uses, p.0, instr, reg) && (p.0 >= self.phi_phi_uses.len()
                || self.phi_phi_uses[p.0].len() == 0),
            SsaValue::Entry(_) => false,
        }
    }
}

fn is_only_site(uses: &Vec<Vec<UseSite>>, at: usize, instr: InstrRef, reg: Reg) -> (r: bool)
    ensures
        r == DataflowFacts::only_site(uses@, at, instr, reg),
{
    if at >= uses.len() || uses[at].len() != 1 {
        return false;
    }
    let site = uses[at][0];
    let r = site.instr == instr && site.reg == reg;
    proof {
        if r {
            assert(uses@[at as int]@ =~= seq![UseSite { instr, reg }]);
        } else {
            assert(uses@[at as int]@[0] == site);
        }
    }
    r
}

/// The phis that flow into each phi, as far as they exist.
fn upstream_lists(phis: &Vec<PhiCandidate>) -> (adj: Vec<Vec<usize>>)
    ensures
        adj@.len() == phis@.len(),
        forall|p: usize, q: usize| p < phis@.len() ==> (#[trigger] adj@[p as int]@.contains(q) <==> q < phis@.len() && flows_in(
            phis@,
            p,
            SsaValue::Phi(PhiId(q)),
        )),
{
    let n = phis.len();
    let mut adj: Vec<Vec<usize>> = Vec::new();
    let mut p: usize = 0;
    while p < n
        invariant
            n == phis@.len(),
            p <= n,
            adj@.len() == p,
            forall|x: usize, q: usize| x < p ==> (#[trigger] adj@[x as int]@.contains(q) <==> q < n && flows_in(
                phis@,
                x,
                SsaValue::Phi(PhiId(q)),
            )),
        decreases n - p,
    {
        let mut row: Vec<usize> = Vec::new();
        let m = phis[p].incoming.len();
        let mut k: usize = 0;
        while k < m
            invariant
                n == phis@.len(),
                p < n,
                m == phis@[p as int].incoming@.len(),
                k <= m,
                forall|q: usize| #[trigger] row@.contains(q) <==> q < n && exists|j: int|
                    0 <= j < k && (#[trigger] phis@[p as int].incoming@[j]).value == SsaValue::Phi(PhiId(q)),
            decreases m - k,
        {
            let ghost before = row@;
            let v = phis[p].incoming[k].value;
            if let SsaValue::Phi(q) = v {
                if q.0 < n {
                    row.push(q.0);
                }
            }
            proof {
                assert(phis@[p as int].incoming@[k as int].value == v);
                assert forall|q: usize| #[trigger] row@.contains(q) <==> q < n && exists|j: int|
                    0 <= j < k + 1 && (#[trigger] phis@[p as int].incoming@[j]).value == SsaValue::Phi(PhiId(q)) by {
                    assert(before.contains(q) <==> q < n && exists|j: int|
                        0 <= j < k && (#[trigger] phis@[p as int].incoming@[j]).value == SsaValue::Phi(PhiId(q)));
                    if before.contains(q) {
                        let i = choose|i: int| 0 <= i < before.len() && before[i] == q;
                        assert(row@[i] == q);
                    }
                    if v == SsaValue::Phi(PhiId(q)) && q < n {
                        assert(row@[before.len() as int] == q);
                    }
                    if row@.contains(q) && !before.contains(q) {
                        let i = choose|i: int| 0 <= i < row@.len() && row@[i] == q;
                        if i < before.len() {
                            assert(before[i] == q);
                        }
                        assert(v == SsaValue::Phi(PhiId(q)));
                    }
                }
            }
            k = k + 1;
        }
        proof {
            assert forall|q: usize| #[trigger] row@.contains(q) <==> q < n && flows_in(phis@, p, SsaValue::Phi(PhiId(q))) by {}
        }
        adj.push(row);
        p = p + 1;
    }
    adj
}

/// Walks through existing phis are walks through the adjacency lists; what lies behind a
/// missing phi is nothing.
proof fn upstream_walk(phis: Seq<PhiCandidate>, adj: Seq<Vec<usize>>, r: usize, p: usize)
    requires
        adj.len() == phis.len(),
        forall|p: usize, q: usize| p < phis.len() ==> (#[trigger] adj[p as int]@.contains(q) <==> q < phis.len() && flows_in(
            phis,
            p,
            SsaValue::Phi(PhiId(q)),
        )),
        p < phis.len(),
    ensures
        reaches(upstream(phis), r, p) <==> reaches(adjacent(adj), r, p),
{
    let wide = upstream(phis);
    let narrow = adjacent(adj);
    if reaches(narrow, r, p) {
        assert forall|x: usize, y: usize| #[trigger] narrow(x, y) implies wide(x, y) by {
            assert(adj[x as int]@.contains(y));
        }
        reaches_monotone(narrow, wide, r, p);
    }
    if reaches(wide, r, p) {
        // Every node from which the walk goes on exists.
        let s = Set::new(|x: usize| x < phis.len() ==> reaches(narrow, r, x));
        reaches_self(narrow, r);
        assert forall|x: usize, y: usize| s.contains(x) && #[trigger] wide(x, y) implies s.contains(y) by {
            if y < phis.len() {
                assert(adj[x as int]@.contains(y));
                assert(narrow(x, y));
                reaches_then_step(narrow, r, x, y);
            }
        }
        closed_set_holds_reachable(wide, s, r, p);
    }
}

/// Some instruction reads phi `p`.
pub open spec fn is_read(uses: Seq<InstrUseValues>, p: usize) -> bool {
    exists|i: int, k: int|
        0 <= i < uses.len() && 0 <= k < uses[i].fixed@.len() && (#[trigger] uses[i].fixed@[k]).1 == SsaValue::Phi(PhiId(p))
}

/// Some read needs phi `p`, directly or through other phis.
pub open spec fn is_needed(uses: Seq<InstrUseValues>, phis: Seq<PhiCandidate>, p: usize) -> bool {
    exists|r: usize| is_read(uses, r) && #[trigger] reaches(upstream(phis), r, p)
}

/// One of the first `n` phis goes by `x`.
pub open spec fn names_phi(phis: Seq<PhiCandidate>, x: PhiId, n: nat) -> bool {
    exists|i: int| 0 <= i < n && (#[trigger] phis[i]).id == x
}

/// Where every phi stands at its number, the numbers below their count name them.
pub proof fn dense_names(phis: Seq<PhiCandidate>)
    requires
        forall|i: int| 0 <= i < phis.len() ==> (#[trigger] phis[i]).id.0 == i,
    ensures
        forall|x: PhiId| #[trigger] names_phi(phis, x, phis.len()) <==> x.0 < phis.len(),
{
    assert forall|x: PhiId| #[trigger] names_phi(phis, x, phis.len()) <==> x.0 < phis.len() by {
        if x.0 < phis.len() {
            assert(phis[x.0 as int].id == x);
        }
    }
}

/// The values that `def_has_use_outside` follows: phi `p` feeds phi `q`.
pub open spec fn feeds(uses: Seq<Vec<PhiId>>) -> spec_fn(usize, usize) -> bool {
    |p: usize, q: usize| p < uses.len() && uses[p as int]@.contains(PhiId(q))
}

/// Some use in row `at` stands in a block that is not allowed.
pub open spec fn used_outside(cfg: &Cfg, uses: Seq<Vec<UseSite>>, at: usize, allowed: Set<BlockRef>) -> bool {
    at < uses.len() && exists|k: int|
        0 <= k < uses[at as int]@.len() && !allowed.contains(
            cfg.instr_to_block@[(#[trigger] uses[at as int]@[k]).instr.0 as int],
        )
}

pub fn row_used_outside(cfg: &Cfg, uses: &Vec<Vec<UseSite>>, at: usize, allowed: &IdSet<BlockRef>) -> (r: bool)
    requires
        at < uses@.len() ==> forall|k: int|
            0 <= k < uses@[at as int]@.len() ==> (#[trigger] uses@[at as int]@[k]).instr.0 < cfg.instr_to_block@.len(),
    ensures
        r == used_outside(cfg, uses@, at, allowed@),
{
    if at >= uses.len() {
        return false;
    }
    let n = uses[at].len();
    let mut k: usize = 0;
    while k < n
        invariant
            at < uses@.len(),
            n == uses@[at as int]@.len(),
            k <= n,
            forall|k: int|
                0 <= k < uses@[at as int]@.len() ==> (#[trigger] uses@[at as int]@[k]).instr.0 < cfg.instr_to_block@.len(),
            forall|j: int| 0 <= j < k ==> allowed@.contains(
                cfg.instr_to_block@[(#[trigger] uses@[at as int]@[j]).instr.0 as int],
            ),
        decreases n - k,
    {
        let site = uses[at][k];
        assert(uses@[at as int]@[k as int] == site);
        if !allowed.contains(cfg.instr_to_block[site.instr.0]) {
            return true;
        }
        k = k + 1;
    }
    false
}

impl DataflowFacts {
    /// Every phi that flows into a phi or is read exists.
    pub open spec fn phis_closed(&self) -> bool {
        &&& forall|p: usize, q: usize| #[trigger] flows_in(self.phi_candidates@, p, SsaValue::Phi(PhiId(q))) ==> q < self.phi_candidates@.len()
        &&& forall|p: usize| #[trigger] is_read(self.use_values@, p) ==> p < self.phi_candidates@.len()
    }

    /// Every phi that a read needs, directly or through other phis, exists, if there are any.
    pub open spec fn needs_exist(&self) -> bool {
        self.phi_candidates@.len() > 0 ==> forall|x: usize| #[trigger]
            is_needed(self.use_values@, self.phi_candidates@, x) ==> x < self.phi_candidates@.len()
    }

    /// In facts that are closed in this way nothing is needed that does not exist.
    pub proof fn closed_needs_exist(&self)
        requires
            self.phis_closed(),
        ensures
            self.needs_exist(),
    {
        let phis = self.phi_candidates@;
        assert forall|x: usize| #[trigger] is_needed(self.use_values@, phis, x) implies x < phis.len() by {
            let q = choose|q: usize| is_read(self.use_values@, q) && #[trigger] reaches(upstream(phis), q, x);
            let known = Set::new(|y: usize| y < phis.len());
            assert forall|u: usize, v: usize| known.contains(u) && #[trigger] upstream(phis)(u, v) implies known.contains(v) by {
                assert(flows_in(phis, u, SsaValue::Phi(PhiId(v))));
            }
            closed_set_holds_reachable(upstream(phis), known, q, x);
        }
    }

    /// The flags of the phis that some start carries.
    fn phis_above(&self, starts: &Vec<usize>) -> (seen: Vec<bool>)
        requires
            forall|k: int| 0 <= k < starts@.len() ==> (#[trigger] starts@[k]) < self.phi_candidates@.len(),
        ensures
            seen@.len() == self.phi_candidates@.len(),
            forall|p: usize| p < seen@.len() ==> (#[trigger] seen@[p as int] <==> exists|k: int|
                0 <= k < starts@.len() && reaches(upstream(self.phi_candidates@), #[trigger] starts@[k], p)),
    {
        let adj = upstream_lists(&self.phi_candidates);
        proof {
            assert forall|a: int, k: int| 0 <= a < adj@.len() && 0 <= k < adj@[a]@.len() implies (#[trigger] adj@[a]@[k]) < adj@.len() by {
                let x = a as usize;
                assert(adj@[x as int]@.contains(adj@[a]@[k]));
            }
        }
        let seen = close(&adj, starts);
        proof {
            assert forall|p: usize| p < seen@.len() implies (#[trigger] seen@[p as int] <==> exists|k: int|
                0 <= k < starts@.len() && reaches(upstream(self.phi_candidates@), #[trigger] starts@[k], p)) by {
                assert(flagged(seen@).contains(p) <==> closes_to(adj@, starts@, p));
                if closes_to(adj@, starts@, p) {
                    let k = choose|k: int| 0 <= k < starts@.len() && reaches(adjacent(adj@), #[trigger] starts@[k], p);
                    upstream_walk(self.phi_candidates@, adj@, starts@[k], p);
                    assert(reaches(upstream(self.phi_candidates@), starts@[k], p));
                }
                if exists|k: int| 0 <= k < starts@.len() && reaches(upstream(self.phi_candidates@), #[trigger] starts@[k], p) {
                    let k = choose|k: int|
                        0 <= k < starts@.len() && reaches(upstream(self.phi_candidates@), #[trigger] starts@[k], p);
                    upstream_walk(self.phi_candidates@, adj@, starts@[k], p);
                    assert(reaches(adjacent(adj@), starts@[k], p));
                }
            }
        }
        seen
    }

    /// The flags of the phis that `root` carries, itself counted.
    fn phis_behind(&self, root: SsaValue) -> (seen: Vec<bool>)
        ensures
            seen@.len() == self.phi_candidates@.len(),
            forall|p: usize| p < seen@.len() ==> (#[trigger] seen@[p as int] <==> root is Phi && reaches(
                upstream(self.phi_candidates@),
                (root->Phi_0).0,
                p,
            )),
    {
        let mut starts: Vec<usize> = Vec::new();
        if let SsaValue::Phi(r) = root {
            if r.0 < self.phi_candidates.len() {
                starts.push(r.0);
            }
        }
        let seen = self.phis_above(&starts);
        proof {
            assert forall|p: usize| p < seen@.len() implies (#[trigger] seen@[p as int] <==> root is Phi && reaches(
                upstream(self.phi_candidates@),
                (root->Phi_0).0,
                p,
            )) by {
                if root is Phi {
                    let r = (root->Phi_0).0;
                    if r < self.phi_candidates@.len() {
                        assert(starts@[0] == r);
                    } else if reaches(upstream(self.phi_candidates@), r, p) {
                        // A missing phi leads nowhere.
                        let x = reaches_first_step(upstream(self.phi_candidates@), r, p);
                    }
                }
            }
        }
        seen
    }

    /// Whether `target` is `root` or flows into it through phis.
    pub fn value_contains(&self, root: SsaValue, target: SsaValue) -> (r: bool)
        ensures
            r == carries(self.phi_candidates@, root, target),
    {
        if root == target {
            return true;
        }
        let seen = self.phis_behind(root);
        let n = self.phi_candidates.len();
        let ghost phis = self.phi_candidates@;
        let mut p: usize = 0;
        while p < n
            invariant
                n == phis.len(),
                phis == self.phi_candidates@,
                seen@.len() == n,
                p <= n,
                forall|x: usize| x < p ==> !(seen@[x as int] && #[trigger] flows_in(phis, x, target)),
                forall|x: usize| x < seen@.len() ==> (#[trigger] seen@[x as int] <==> root is Phi && reaches(
                    upstream(phis),
                    (root->Phi_0).0,
                    x,
                )),
            decreases n - p,
        {
            if seen[p] && phi_has_value(&self.phi_candidates[p], target) {
                proof {
                    assert(flows_in(phis, p, target));
                    assert(reaches(upstream(phis), (root->Phi_0).0, p));
                }
                return true;
            }
            p = p + 1;
        }
        proof {
            if carries(phis, root, target) {
                let r = (root->Phi_0).0;
                let x = choose|x: usize| #[trigger] reaches(upstream(phis), r, x) && flows_in(phis, x, target);
                assert(seen@[x as int]);
            }
        }
        false
    }

    /// The definitions that `root` carries.
    pub fn leaf_defs(&self, root: SsaValue) -> (r: IdSet<DefId>)
        ensures
            forall|d: DefId| #[trigger] r@.contains(d) <==> carries(self.phi_candidates@, root, SsaValue::Def(d)),
    {
        let mut r: IdSet<DefId> = IdSet::new();
        if let SsaValue::Def(d) = root {
            r.insert(d);
            return r;
        }
        let seen = self.phis_behind(root);
        let n = self.phi_candidates.len();
        let ghost phis = self.phi_candidates@;
        let mut p: usize = 0;
        while p < n
            invariant
                n == phis.len(),
                phis == self.phi_candidates@,
                seen@.len() == n,
                p <= n,
                forall|d: DefId| #[trigger] r@.contains(d) ==> carries(phis, root, SsaValue::Def(d)),
                forall|x: usize, d: DefId| x < p && seen@[x as int] && #[trigger] flows_in(phis, x, SsaValue::Def(d)) ==> r@.contains(d),
                forall|x: usize| x < seen@.len() ==> (#[trigger] seen@[x as int] <==> root is Phi && reaches(
                    upstream(phis),
                    (root->Phi_0).0,
                    x,
                )),
            decreases n - p,
        {
            if seen[p] {
                let m = self.phi_candidates[p].incoming.len();
                let mut k: usize = 0;
                assert(reaches(upstream(phis), (root->Phi_0).0, p));
                while k < m
                    invariant
                        n == phis.len(),
                        phis == self.phi_candidates@,
                        p < n,
                        root is Phi,
                        reaches(upstream(phis), (root->Phi_0).0, p),
                        m == phis[p as int].incoming@.len(),
                        k <= m,
                        forall|d: DefId| #[trigger] r@.contains(d) ==> carries(phis, root, SsaValue::Def(d)),
                        forall|x: usize, d: DefId| x < p && seen@[x as int] && #[trigger] flows_in(phis, x, SsaValue::Def(d)) ==> r@.contains(d),
                        forall|j: int| 0 <= j < k ==> match (#[trigger] phis[p as int].incoming@[j]).value {
                            SsaValue::Def(d) => r@.contains(d),
                            _ => true,
                        },
                    decreases m - k,
                {
                    if let SsaValue::Def(d) = self.phi_candidates[p].incoming[k].value {
                        proof {
                            assert(phis[p as int].incoming@[k as int].value == SsaValue::Def(d));
                            assert(flows_in(phis, p, SsaValue::Def(d)));
                        }
                        r.insert(d);
                    }
                    k = k + 1;
                }
                proof {
                    assert forall|d: DefId| #[trigger] flows_in(phis, p, SsaValue::Def(d)) implies r@.contains(d) by {
                        let j = choose|j: int| 0 <= j < phis[p as int].incoming@.len() && (#[trigger] phis[p as int].incoming@[j]).value == SsaValue::Def(d);
                        assert(phis[p as int].incoming@[j].value == SsaValue::Def(d));
                    }
                }
            }
            p = p + 1;
        }
        proof {
            assert forall|d: DefId| carries(phis, root, SsaValue::Def(d)) implies #[trigger] r@.contains(d) by {
                let q = (root->Phi_0).0;
                let x = choose|x: usize| #[trigger] reaches(upstream(phis), q, x) && flows_in(phis, x, SsaValue::Def(d));
                assert(seen@[x as int]);
            }
        }
        r
    }

    /// The phis that no read needs, directly or through other phis.
    pub fn compute_truly_dead_phis(&self) -> (r: IdSet<PhiId>)
        requires
            self.needs_exist(),
        ensures
            forall|x: PhiId| #[trigger]
                r@.contains(x) <==> names_phi(self.phi_candidates@, x, self.phi_candidates@.len()) && !is_needed(
                    self.use_values@,
                    self.phi_candidates@,
                    x.0,
                ),
    {
        if self.phi_candidates.len() == 0 {
            return IdSet::new();
        }
        let ghost phis = self.phi_candidates@;
        let ghost uses = self.use_values@;
        let mut starts: Vec<usize> = Vec::new();
        let n = self.use_values.len();
        let mut i: usize = 0;
        while i < n
            invariant
                uses == self.use_values@,
                phis == self.phi_candidates@,
                n == uses.len(),
                forall|x: usize| #[trigger] is_needed(uses, phis, x) ==> x < phis.len(),
                i <= n,
                forall|j: int| 0 <= j < starts@.len() ==> (#[trigger] starts@[j]) < phis.len() && is_read(uses, starts@[j]),
                forall|q: int, k: int|
                    0 <= q < i && 0 <= k < uses[q].fixed@.len() ==> match (#[trigger] uses[q].fixed@[k]).1 {
                        SsaValue::Phi(p) => starts@.contains(p.0),
                        _ => true,
                    },
            decreases n - i,
        {
            let m = self.use_values[i].fixed.len();
            let mut k: usize = 0;
            while k < m
                invariant
                    uses == self.use_values@,
                    phis == self.phi_candidates@,
                    n == uses.len(),
                    forall|x: usize| #[trigger] is_needed(uses, phis, x) ==> x < phis.len(),
                    i < n,
                    m == uses[i as int].fixed@.len(),
                    k <= m,
                    forall|j: int| 0 <= j < starts@.len() ==> (#[trigger] starts@[j]) < phis.len() && is_read(uses, starts@[j]),
                    forall|q: int, k: int|
                    0 <= q < i && 0 <= k < uses[q].fixed@.len() ==> match (#[trigger] uses[q].fixed@[k]).1 {
                        SsaValue::Phi(p) => starts@.contains(p.0),
                        _ => true,
                    },
                    forall|j: int| 0 <= j < k ==> match (#[trigger] uses[i as int].fixed@[j]).1 {
                        SsaValue::Phi(p) => starts@.contains(p.0),
                        _ => true,
                    },
                decreases m - k,
            {
                let v = self.use_values[i].fixed.entry(k).1;
                assert(uses[i as int].fixed@[k as int].1 == v);
                let ghost before = starts@;
                if let SsaValue::Phi(p) = v {
                    proof {
                        assert(SsaValue::Phi(PhiId(p.0)) == v);
                        assert(is_read(uses, p.0));
                        reaches_self(upstream(phis), p.0);
                        assert(is_needed(uses, phis, p.0));
                    }
                    starts.push(p.0);
                }
                proof {
                    assert forall|p: usize| before.contains(p) implies #[trigger] starts@.contains(p) by {
                        let j = choose|j: int| 0 <= j < before.len() && before[j] == p;
                        assert(starts@[j] == p);
                    }
                    assert forall|j: int| 0 <= j < k + 1 implies match (#[trigger] uses[i as int].fixed@[j]).1 {
                        SsaValue::Phi(p) => starts@.contains(p.0),
                        _ => true,
                    } by {
                        if j == k {
                            if v is Phi {
                                assert(starts@[before.len() as int] == (v->Phi_0).0);
                            }
                        }
                    }
                }
                k = k + 1;
            }
            i = i + 1;
        }
        let alive = self.phis_above(&starts);
        let total = self.phi_candidates.len();
        proof {
            assert forall|x: usize| #[trigger] is_needed(uses, phis, x) <==> x < total && alive@[x as int] by {
                if x < total && alive@[x as int] {
                    let k = choose|k: int| 0 <= k < starts@.len() && reaches(upstream(phis), #[trigger] starts@[k], x);
                    assert(is_read(uses, starts@[k]));
                }
                if is_needed(uses, phis, x) {
                    let q = choose|q: usize| is_read(uses, q) && #[trigger] reaches(upstream(phis), q, x);
                    let (i, k) = choose|i: int, k: int|
                        0 <= i < uses.len() && 0 <= k < uses[i].fixed@.len() && (#[trigger] uses[i].fixed@[k]).1 == SsaValue::Phi(PhiId(q));
                    assert(starts@.contains(q));
                    let j = choose|j: int| 0 <= j < starts@.len() && starts@[j] == q;
                    assert(reaches(upstream(phis), starts@[j], x));
                }
            }
        }
        let mut r: IdSet<PhiId> = IdSet::new();
        let mut p: usize = 0;
        while p < total
            invariant
                total == phis.len(),
                phis == self.phi_candidates@,
                uses == self.use_values@,
                alive@.len() == total,
                p <= total,
                forall|x: usize| #[trigger] is_needed(uses, phis, x) <==> x < total && alive@[x as int],
                forall|x: PhiId| #[trigger] r@.contains(x) <==> names_phi(phis, x, p as nat) && !is_needed(uses, phis, x.0),
            decreases total - p,
        {
            let id = self.phi_candidates[p].id;
            let ghost before = r@;
            let needed = id.0 < total && alive[id.0];
            assert(needed == is_needed(uses, phis, id.0));
            if !needed {
                r.insert(id);
            }
            proof {
                assert forall|x: PhiId| #[trigger] r@.contains(x) <==> names_phi(phis, x, (p + 1) as nat) && !is_needed(
                    uses,
                    phis,
                    x.0,
                ) by {
                    assert(before.contains(x) <==> names_phi(phis, x, p as nat) && !is_needed(uses, phis, x.0));
                    assert(names_phi(phis, x, (p + 1) as nat) <==> names_phi(phis, x, p as nat) || x == id) by {
                        assert(phis[p as int].id == id);
                    }
                }
            }
            p = p + 1;
        }
        r
    }
}

fn phi_has_value(phi: &PhiCandidate, v: SsaValue) -> (r: bool)
    ensures
        r == exists|k: int| 0 <= k < phi.incoming@.len() && (#[trigger] phi.incoming@[k]).value == v,
{
    let n = phi.incoming.len();
    let mut k: usize = 0;
    while k < n
        invariant
            n == phi.incoming@.len(),
            k <= n,
            forall|j: int| 0 <= j < k ==> (#[trigger] phi.incoming@[j]).value != v,
        decreases n - k,
    {
        if phi.incoming[k].value == v {
            return true;
        }
        k = k + 1;
    }
    false
}

impl DataflowFacts {
    /// The use tables speak of phis and instructions that there are.
    pub open spec fn uses_known(&self, cfg: &Cfg) -> bool {
        &&& self.phi_uses@.len() == self.phi_phi_uses@.len()
        &&& forall|d: int, k: int|
            0 <= d < self.def_uses@.len() && 0 <= k < self.def_uses@[d]@.len() ==> (#[trigger] self.def_uses@[d]@[k]).instr.0
                < cfg.instr_to_block@.len()
        &&& forall|p: int, k: int|
            0 <= p < self.phi_uses@.len() && 0 <= k < self.phi_uses@[p]@.len() ==> (#[trigger] self.phi_uses@[p]@[k]).instr.0
                < cfg.instr_to_block@.len()
        &&& forall|d: int, k: int|
            0 <= d < self.def_phi_uses@.len() && 0 <= k < self.def_phi_uses@[d]@.len() ==> (#[trigger] self.def_phi_uses@[d]@[k]).0
                < self.phi_phi_uses@.len()
        &&& forall|p: int, k: int|
            0 <= p < self.phi_phi_uses@.len() && 0 <= k < self.phi_phi_uses@[p]@.len() ==> (#[trigger] self.phi_phi_uses@[p]@[k]).0
                < self.phi_phi_uses@.len()
    }

    /// Phi `q` gets the definition, directly or through other phis, and is read in a block
    /// that is not allowed.
    pub open spec fn escapes_through(&self, cfg: &Cfg, def: DefId, allowed: Set<BlockRef>, p: PhiId, q: usize) -> bool {
        def.0 < self.def_phi_uses@.len() && self.def_phi_uses@[def.0 as int]@.contains(p) && reaches(
            feeds(self.phi_phi_uses@),
            p.0,
            q,
        ) && used_outside(cfg, self.phi_uses@, q, allowed)
    }

    /// The definition is read in a block that is not allowed, directly or through phis.
    pub open spec fn has_use_outside(&self, cfg: &Cfg, def: DefId, allowed: Set<BlockRef>) -> bool {
        used_outside(cfg, self.def_uses@, def.0, allowed) || exists|p: PhiId, q: usize| #[trigger]
            self.escapes_through(cfg, def, allowed, p, q)
    }

    /// Every use in row `at` stands at an instruction.
    pub open spec fn row_placed(cfg: &Cfg, uses: Seq<Vec<UseSite>>, at: usize) -> bool {
        at < uses.len() ==> forall|k: int|
            0 <= k < uses[at as int]@.len() ==> (#[trigger] uses[at as int]@[k]).instr.0 < cfg.instr_to_block@.len()
    }

    /// Phi `q` gets the definition, directly or through other phis.
    pub open spec fn gets_def(&self, def: DefId, q: usize) -> bool {
        exists|p: PhiId|
            def.0 < self.def_phi_uses@.len() && self.def_phi_uses@[def.0 as int]@.contains(p) && #[trigger] reaches(
                feeds(self.phi_phi_uses@),
                p.0,
                q,
            )
    }

    /// The uses of the definition, and of the phis that get it, stand at instructions.
    pub open spec fn uses_placed(&self, cfg: &Cfg, def: DefId) -> bool {
        &&& Self::row_placed(cfg, self.def_uses@, def.0)
        &&& forall|q: usize| #[trigger] self.gets_def(def, q) ==> Self::row_placed(cfg, self.phi_uses@, q)
    }

    /// Notes the phis of a row as still to be looked at.
    fn note_phis(rows: &Vec<Vec<PhiId>>, at: usize, pending: &mut Vec<PhiId>)
        ensures
            old(pending)@.is_prefix_of(final(pending)@),
            forall|k: int|
                old(pending)@.len() <= k < final(pending)@.len() ==> at < rows@.len() && rows@[at as int]@.contains(
                    #[trigger] final(pending)@[k],
                ),
            at < rows@.len() ==> forall|p: PhiId| #[trigger] rows@[at as int]@.contains(p) ==> final(pending)@.contains(p),
    {
        if at >= rows.len() {
            return;
        }
        let n = rows[at].len();
        let ghost row = rows@[at as int]@;
        let ghost before = pending@;
        let mut k: usize = 0;
        while k < n
            invariant
                at < rows@.len(),
                row == rows@[at as int]@,
                n == row.len(),
                before == old(pending)@,
                k <= n,
                pending@ == before + row.subrange(0, k as int),
            decreases n - k,
        {
            pending.push(rows[at][k]);
            assert(pending@ =~= before + row.subrange(0, k + 1));
            k = k + 1;
        }
        proof {
            assert(row.subrange(0, n as int) =~= row);
            assert forall|q: int| before.len() <= q < pending@.len() implies row.contains(#[trigger] pending@[q]) by {
                assert(pending@[q] == row[q - before.len()]);
            }
            assert forall|p: PhiId| #[trigger] row.contains(p) implies pending@.contains(p) by {
                let q = row.index_of(p);
                assert(pending@[before.len() + q] == p);
            }
        }
    }

    pub fn def_has_use_outside(&self, cfg: &Cfg, def: DefId, allowed_blocks: &IdSet<BlockRef>) -> (r: bool)
        requires
            self.uses_placed(cfg, def),
        ensures
            r == self.has_use_outside(cfg, def, allowed_blocks@),
    {
        if row_used_outside(cfg, &self.def_uses, def.0, allowed_blocks) {
            return true;
        }
        let ghost allowed = allowed_blocks@;
        let ghost step = feeds(self.phi_phi_uses@);
        let mut seen: IdSet<PhiId> = IdSet::new();
        let mut pending: Vec<PhiId> = Vec::new();
        Self::note_phis(&self.def_phi_uses, def.0, &mut pending);
        let mut count = seen.len();
        proof {
            assert forall|k: int| 0 <= k < pending@.len() implies self.gets_def(def, (#[trigger] pending@[k]).0) by {
                reaches_self(step, pending@[k].0);
            }
        }
        while pending.len() > 0
            invariant
                self.uses_placed(cfg, def),
                !used_outside(cfg, self.def_uses@, def.0, allowed),
                allowed == allowed_blocks@,
                step == feeds(self.phi_phi_uses@),
                count == seen@.len(),
                seen@.finite(),
                forall|k: int| 0 <= k < pending@.len() ==> self.gets_def(def, (#[trigger] pending@[k]).0),
                forall|p: PhiId| #[trigger] seen@.contains(p) ==> !used_outside(cfg, self.phi_uses@, p.0, allowed),
                def.0 < self.def_phi_uses@.len() ==> forall|p: PhiId| #[trigger]
                    self.def_phi_uses@[def.0 as int]@.contains(p) ==> seen@.contains(p) || pending@.contains(p),
                forall|p: PhiId, q: usize|
                    #![trigger seen@.contains(p), step(p.0, q)]
                    seen@.contains(p) && step(p.0, q) ==> seen@.contains(PhiId(q)) || pending@.contains(PhiId(q)),
            decreases usize::MAX - count, pending@.len(),
        {
            let ghost all = pending@;
            let phi = pending[pending.len() - 1];
            pending.pop();
            proof {
                assert(all[all.len() - 1] == phi);
                assert forall|p: PhiId| #[trigger] all.contains(p) && p != phi implies pending@.contains(p) by {
                    let k = all.index_of(p);
                    assert(pending@[k] == p);
                }
                assert forall|k: int| 0 <= k < pending@.len() implies self.gets_def(def, (#[trigger] pending@[k]).0) by {
                    assert(pending@[k] == all[k]);
                }
            }
            if !seen.contains(phi) {
                let ghost before = seen@;
                let ghost rest = pending@;
                assert(self.gets_def(def, phi.0));
                if row_used_outside(cfg, &self.phi_uses, phi.0, allowed_blocks) {
                    proof {
                        let p = choose|p: PhiId|
                            def.0 < self.def_phi_uses@.len() && self.def_phi_uses@[def.0 as int]@.contains(p) && #[trigger] reaches(
                                step,
                                p.0,
                                phi.0,
                            );
                        assert(self.escapes_through(cfg, def, allowed, p, phi.0));
                    }
                    return true;
                }
                seen.insert(phi);
                count = seen.len();
                Self::note_phis(&self.phi_phi_uses, phi.0, &mut pending);
                proof {
                    assert forall|k: int| 0 <= k < pending@.len() implies self.gets_def(def, (#[trigger] pending@[k]).0) by {
                        if k < rest.len() {
                            assert(pending@[k] == rest[k]);
                        } else {
                            assert(step(phi.0, pending@[k].0));
                            let p = choose|p: PhiId|
                                def.0 < self.def_phi_uses@.len() && self.def_phi_uses@[def.0 as int]@.contains(p) && #[trigger] reaches(
                                    step,
                                    p.0,
                                    phi.0,
                                );
                            reaches_then_step(step, p.0, phi.0, pending@[k].0);
                        }
                    }
                    assert forall|p: PhiId| #[trigger] rest.contains(p) implies pending@.contains(p) by {
                        let k = rest.index_of(p);
                        assert(pending@[k] == p);
                    }
                    assert forall|p: PhiId, q: usize|
                        #![trigger seen@.contains(p), step(p.0, q)]
                        seen@.contains(p) && step(p.0, q) implies seen@.contains(PhiId(q)) || pending@.contains(PhiId(q)) by {
                        if p != phi {
                            assert(before.contains(p));
                            assert(before.contains(PhiId(q)) || all.contains(PhiId(q)));
                            if !before.contains(PhiId(q)) && PhiId(q) != phi {
                                assert(rest.contains(PhiId(q)));
                            }
                        }
                    }
                    if def.0 < self.def_phi_uses@.len() {
                        assert forall|p: PhiId| #[trigger] self.def_phi_uses@[def.0 as int]@.contains(p) implies seen@.contains(p)
                            || pending@.contains(p) by {
                            assert(before.contains(p) || all.contains(p));
                            if !before.contains(p) && p != phi {
                                assert(rest.contains(p));
                            }
                        }
                    }
                }
            }
        }
        proof {
            assert forall|p: PhiId, q: usize| !#[trigger] self.escapes_through(cfg, def, allowed, p, q) by {
                if self.escapes_through(cfg, def, allowed, p, q) {
                    assert(self.def_phi_uses@[def.0 as int]@.contains(p));
                    let met = Set::new(|x: usize| seen@.contains(PhiId(x)));
                    assert(met.contains(p.0));
                    assert forall|x: usize, y: usize| met.contains(x) && #[trigger] step(x, y) implies met.contains(y) by {
                        assert(seen@.contains(PhiId(x)));
                    }
                    closed_set_holds_reachable(step, met, p.0, q);
                    assert(seen@.contains(PhiId(q)));
                }
            }
        }
        false
    }
}

} // verus!
