//! Which value a source variable starts with.

use vstd::prelude::*;

use crate::cfg::Cfg;
use crate::dataflow::{DataflowFacts, DefId, SsaValue};
use crate::ids::{InstrRef, Reg};
use crate::idset::{ascending, IdSet};
use crate::search::{first_where, first_where_stable};
use crate::structure_plan::{DebugBindingConflict, DebugBindingFact, DebugBindingFacts};
use crate::tracks::analysable;

verus! {

/// A variable of the source: its register, and the instructions between which it lives.
#[derive(Debug, Clone, Copy, PartialEq, Eq, Structural)]
pub struct DebugLocal {
    pub reg: Reg,
    pub start_pc: u32,
    pub end_pc: u32,
    /// The variable was written in the source.
    pub is_source: bool,
}

/// The variables of a prototype, and for each instruction the raw ones that it stands for.
#[derive(Debug)]
pub struct DebugInfo {
    pub locals: Vec<DebugLocal>,
    pub pc_map: Vec<Vec<u32>>,
}

/// One of the raw instructions stands at `pc` or behind it.
pub open spec fn reaches_pc(row: Seq<u32>, pc: u32) -> bool {
    exists|k: int| 0 <= k < row.len() && #[trigger] row[k] >= pc
}

pub open spec fn at_or_after(map: Seq<Vec<u32>>, pc: u32) -> spec_fn(int) -> bool {
    |i: int| reaches_pc(map[i]@, pc)
}

pub fn low_instr_at_or_after_pc(info: &DebugInfo, pc: u32) -> (r: Option<InstrRef>)
    ensures
        match first_where(info.pc_map@.len(), at_or_after(info.pc_map@, pc)) {
            Some(i) => r is Some && (r->0).0 as int == i && (r->0).0 < info.pc_map@.len(),
            None => r is None,
        },
{
    let n = info.pc_map.len();
    let ghost p = at_or_after(info.pc_map@, pc);
    let mut i: usize = 0;
    while i < n
        invariant
            n == info.pc_map@.len(),
            p == at_or_after(info.pc_map@, pc),
            i <= n,
            first_where(i as nat, p) is None,
        decreases n - i,
    {
        if row_reaches(&info.pc_map[i], pc) {
            proof {
                assert(p(i as int));
                first_where_stable((i + 1) as nat, n as nat, p);
            }
            return Some(InstrRef(i));
        }
        assert(!p(i as int));
        i = i + 1;
    }
    None
}

fn row_reaches(row: &Vec<u32>, pc: u32) -> (r: bool)
    ensures
        r == reaches_pc(row@, pc),
{
    let n = row.len();
    let mut k: usize = 0;
    while k < n
        invariant
            n == row@.len(),
            k <= n,
            forall|q: int| 0 <= q < k ==> #[trigger] row@[q] < pc,
        decreases n - k,
    {
        if row[k] >= pc {
            assert(row@[k as int] >= pc);
            return true;
        }
        k = k + 1;
    }
    false
}

fn row_holds(row: &Vec<u32>, pc: u32) -> (r: bool)
    ensures
        r == row@.contains(pc),
{
    let n = row.len();
    let mut k: usize = 0;
    while k < n
        invariant
            n == row@.len(),
            k <= n,
            forall|q: int| 0 <= q < k ==> row@[q] != pc,
        decreases n - k,
    {
        if row[k] == pc {
            assert(row@[k as int] == pc);
            return true;
        }
        k = k + 1;
    }
    false
}

/// The definition of a register that instruction `i` makes: the first one noted for it.
pub open spec fn own_def(dataflow: &DataflowFacts, i: int, reg: Reg) -> Option<DefId> {
    match first_where(
        dataflow.instr_defs@[i]@.len(),
        dataflow.defines_reg(InstrRef(i as usize), reg),
    ) {
        Some(k) => Some(dataflow.instr_defs@[i]@[k]),
        None => None,
    }
}

/// The value of a register before instruction `i`, from what the block starts with.
pub open spec fn value_up_to(dataflow: &DataflowFacts, start: int, i: int, reg: Reg, first: SsaValue) -> SsaValue
    decreases i - start,
{
    if i <= start {
        first
    } else {
        match own_def(dataflow, i - 1, reg) {
            Some(d) => SsaValue::Def(d),
            None => value_up_to(dataflow, start, i - 1, reg, first),
        }
    }
}

/// The value with which a variable starts at instruction `i`: where its life begins with the
/// instruction itself, what that makes of it.
pub open spec fn value_at_start(
    cfg: &Cfg,
    dataflow: &DataflowFacts,
    map: Seq<Vec<u32>>,
    i: int,
    reg: Reg,
    pc: u32,
) -> SsaValue {
    let b = cfg.instr_to_block@[i];
    if map[i]@.contains(pc) && own_def(dataflow, i, reg) is Some {
        SsaValue::Def(own_def(dataflow, i, reg)->0)
    } else {
        value_up_to(dataflow, cfg.range(b).start.0 as int, i, reg, dataflow.entry_value(b, reg))
    }
}

/// Everything that is read belongs together.
pub open spec fn bindings_input(cfg: &Cfg, dataflow: &DataflowFacts, info: &DebugInfo) -> bool {
    &&& analysable(cfg)
    &&& info.pc_map@.len() <= cfg.instr_to_block@.len()
    &&& dataflow.instr_defs@.len() == cfg.instr_to_block@.len()
    &&& forall|i: int, k: int|
        0 <= i < dataflow.instr_defs@.len() && 0 <= k < dataflow.instr_defs@[i]@.len() ==> (#[trigger] dataflow.instr_defs@[i]@[k]).0
            < dataflow.defs@.len()
}

fn find_own_def(cfg: &Cfg, dataflow: &DataflowFacts, info: &DebugInfo, i: usize, reg: Reg) -> (r: Option<DefId>)
    requires
        bindings_input(cfg, dataflow, info),
        i < dataflow.instr_defs@.len(),
    ensures
        r == own_def(dataflow, i as int, reg),
{
    dataflow.instr_def_for_reg(InstrRef(i), reg)
}

pub fn ssa_value_at_debug_scope_entry(
    cfg: &Cfg,
    dataflow: &DataflowFacts,
    info: &DebugInfo,
    instr: InstrRef,
    reg: Reg,
    start_pc: u32,
) -> (r: SsaValue)
    requires
        bindings_input(cfg, dataflow, info),
        instr.0 < info.pc_map@.len(),
    ensures
        r == value_at_start(cfg, dataflow, info.pc_map@, instr.0 as int, reg, start_pc),
{
    let b = cfg.instr_to_block[instr.0];
    assert(cfg.has_block(cfg.instr_to_block@[instr.0 as int]));
    if row_holds(&info.pc_map[instr.0], start_pc) {
        if let Some(d) = find_own_def(cfg, dataflow, info, instr.0, reg) {
            return SsaValue::Def(d);
        }
    }
    let first = dataflow.block_entry_value(b, reg);
    let start = cfg.blocks[b.0].instrs.start.0;
    let mut value = first;
    let mut i: usize = start;
    while i < instr.0
        invariant
            bindings_input(cfg, dataflow, info),
            instr.0 < info.pc_map@.len(),
            start <= i,
            i <= instr.0 || i == start,
            value == value_up_to(dataflow, start as int, i as int, reg, first),
        decreases instr.0 - i,
    {
        if let Some(d) = find_own_def(cfg, dataflow, info, i, reg) {
            value = SsaValue::Def(d);
        }
        i = i + 1;
    }
    assert(cfg.range(b).start.0 <= instr.0);
    value
}

/// The value with which variable `s` starts; only variables of the source have one.
pub open spec fn start_value(cfg: &Cfg, dataflow: &DataflowFacts, info: &DebugInfo, s: int) -> Option<SsaValue> {
    let l = info.locals@[s];
    if l.is_source {
        match first_where(info.pc_map@.len(), at_or_after(info.pc_map@, l.start_pc)) {
            Some(i) => Some(value_at_start(cfg, dataflow, info.pc_map@, i, l.reg, l.start_pc)),
            None => None,
        }
    } else {
        None
    }
}

/// The first `n` variables that start with `v`.
pub open spec fn scopes_of(cfg: &Cfg, dataflow: &DataflowFacts, info: &DebugInfo, v: SsaValue, n: nat) -> Seq<usize>
    decreases n,
{
    if n == 0 {
        Seq::empty()
    } else {
        let rest = scopes_of(cfg, dataflow, info, v, (n - 1) as nat);
        if start_value(cfg, dataflow, info, n - 1) == Some(v) {
            rest.push((n - 1) as usize)
        } else {
            rest
        }
    }
}

pub open spec fn all_scopes(cfg: &Cfg, dataflow: &DataflowFacts, info: &DebugInfo, v: SsaValue) -> Seq<usize> {
    scopes_of(cfg, dataflow, info, v, info.locals@.len())
}

/// Some variable starts with `v`.
pub open spec fn is_started(cfg: &Cfg, dataflow: &DataflowFacts, info: &DebugInfo, v: SsaValue) -> bool {
    exists|s: int| 0 <= s < info.locals@.len() && #[trigger] start_value(cfg, dataflow, info, s) == Some(v)
}

/// The variables that alone start with one of the first `n` values.
pub open spec fn accepted_upto(
    cfg: &Cfg,
    dataflow: &DataflowFacts,
    info: &DebugInfo,
    values: Seq<SsaValue>,
    n: nat,
) -> Seq<DebugBindingFact>
    decreases n,
{
    if n == 0 {
        Seq::empty()
    } else {
        let rest = accepted_upto(cfg, dataflow, info, values, (n - 1) as nat);
        let v = values[n - 1];
        let scopes = all_scopes(cfg, dataflow, info, v);
        if scopes.len() == 1 {
            let l = info.locals@[scopes[0] as int];
            rest.push(DebugBindingFact { scope: scopes[0], reg: l.reg, start_pc: l.start_pc, end_pc: l.end_pc, value: v })
        } else {
            rest
        }
    }
}

/// Those of the first `n` values that several variables start with.
pub open spec fn disputed_upto(
    cfg: &Cfg,
    dataflow: &DataflowFacts,
    info: &DebugInfo,
    values: Seq<SsaValue>,
    n: nat,
) -> Seq<SsaValue>
    decreases n,
{
    if n == 0 {
        Seq::empty()
    } else {
        let rest = disputed_upto(cfg, dataflow, info, values, (n - 1) as nat);
        if all_scopes(cfg, dataflow, info, values[n - 1]).len() == 1 {
            rest
        } else {
            rest.push(values[n - 1])
        }
    }
}

/// The bindings follow from the values, which come in order.
pub open spec fn bindings_of(
    cfg: &Cfg,
    dataflow: &DataflowFacts,
    info: &DebugInfo,
    values: Seq<SsaValue>,
    r: &DebugBindingFacts,
) -> bool {
    let disputed = disputed_upto(cfg, dataflow, info, values, values.len());
    &&& ascending(values)
    &&& forall|v: SsaValue| #[trigger] values.contains(v) <==> is_started(cfg, dataflow, info, v)
    &&& r.accepted@ == accepted_upto(cfg, dataflow, info, values, values.len())
    &&& r.conflicts@.len() == disputed.len()
    &&& forall|i: int|
        0 <= i < disputed.len() ==> (#[trigger] r.conflicts@[i]).value == disputed[i] && r.conflicts@[i].scopes@ == all_scopes(
            cfg,
            dataflow,
            info,
            disputed[i],
        )
}

fn collect_scopes(
    starts: &Vec<Option<SsaValue>>,
    v: SsaValue,
    Ghost(cfg): Ghost<&Cfg>,
    Ghost(dataflow): Ghost<&DataflowFacts>,
    Ghost(info): Ghost<&DebugInfo>,
) -> (r: Vec<
    usize,
>)
    requires
        starts@.len() == info.locals@.len(),
        forall|s: int| 0 <= s < starts@.len() ==> #[trigger] starts@[s] == start_value(cfg, dataflow, info, s),
    ensures
        r@ == all_scopes(cfg, dataflow, info, v),
        forall|k: int| 0 <= k < r@.len() ==> (#[trigger] r@[k]) < info.locals@.len(),
{
    let n = starts.len();
    let mut r: Vec<usize> = Vec::new();
    let mut s: usize = 0;
    while s < n
        invariant
            n == info.locals@.len(),
            starts@.len() == n,
            forall|k: int| 0 <= k < starts@.len() ==> #[trigger] starts@[k] == start_value(cfg, dataflow, info, k),
            s <= n,
            r@ == scopes_of(cfg, dataflow, info, v, s as nat),
            forall|k: int| 0 <= k < r@.len() ==> (#[trigger] r@[k]) < s,
        decreases n - s,
    {
        assert(starts@[s as int] == start_value(cfg, dataflow, info, s as int));
        let here = match starts[s] {
            Some(w) => w == v,
            None => false,
        };
        if here {
            r.push(s);
        }
        s = s + 1;
    }
    r
}

/// Finds the value that each variable of the source starts with. Where several start with the
/// same, none of them is taken.
pub fn analyze_debug_bindings(cfg: &Cfg, dataflow: &DataflowFacts, info: &DebugInfo) -> (r: DebugBindingFacts)
    requires
        bindings_input(cfg, dataflow, info),
    ensures
        exists|values: Seq<SsaValue>| #[trigger] bindings_of(cfg, dataflow, info, values, &r),
{
    let n = info.locals.len();
    let mut starts: Vec<Option<SsaValue>> = Vec::new();
    let mut set: IdSet<SsaValue> = IdSet::new();
    let mut s: usize = 0;
    while s < n
        invariant
            bindings_input(cfg, dataflow, info),
            n == info.locals@.len(),
            s <= n,
            starts@.len() == s,
            forall|k: int| 0 <= k < s ==> #[trigger] starts@[k] == start_value(cfg, dataflow, info, k),
            forall|v: SsaValue| #[trigger] set@.contains(v) ==> is_started(cfg, dataflow, info, v),
            forall|k: int| 0 <= k < s && (#[trigger] starts@[k]) is Some ==> set@.contains(starts@[k]->0),
        decreases n - s,
    {
        let l = info.locals[s];
        let value = if l.is_source {
            match low_instr_at_or_after_pc(info, l.start_pc) {
                Some(i) => Some(ssa_value_at_debug_scope_entry(cfg, dataflow, info, i, l.reg, l.start_pc)),
                None => None,
            }
        } else {
            None
        };
        assert(value == start_value(cfg, dataflow, info, s as int));
        if let Some(v) = value {
            assert(is_started(cfg, dataflow, info, v));
            let _ = set.insert(v);
        }
        starts.push(value);
        s = s + 1;
    }
    let count = set.len();
    let ghost values = set.seq();
    proof {
        assert forall|v: SsaValue| #[trigger] values.contains(v) <==> is_started(cfg, dataflow, info, v) by {
            assert(values.contains(v) <==> set@.contains(v));
            if is_started(cfg, dataflow, info, v) {
                let k = choose|k: int| 0 <= k < info.locals@.len() && #[trigger] start_value(cfg, dataflow, info, k) == Some(v);
                assert(starts@[k] == Some(v));
            }
        }
    }
    let mut accepted: Vec<DebugBindingFact> = Vec::new();
    let mut conflicts: Vec<DebugBindingConflict> = Vec::new();
    let mut i: usize = 0;
    while i < count
        invariant
            n == info.locals@.len(),
            starts@.len() == n,
            forall|k: int| 0 <= k < n ==> #[trigger] starts@[k] == start_value(cfg, dataflow, info, k),
            values == set.seq(),
            count == values.len(),
            i <= count,
            accepted@ == accepted_upto(cfg, dataflow, info, values, i as nat),
            conflicts@.len() == disputed_upto(cfg, dataflow, info, values, i as nat).len(),
            forall|k: int|
                0 <= k < conflicts@.len() ==> (#[trigger] conflicts@[k]).value == disputed_upto(cfg, dataflow, info, values, i as nat)[k]
                    && conflicts@[k].scopes@ == all_scopes(
                    cfg,
                    dataflow,
                    info,
                    disputed_upto(cfg, dataflow, info, values, i as nat)[k],
                ),
        decreases count - i,
    {
        let v = set.at(i);
        let scopes = collect_scopes(&starts, v, Ghost(cfg), Ghost(dataflow), Ghost(info));
        if scopes.len() == 1 {
            let scope = scopes[0];
            let l = info.locals[scope];
            accepted.push(DebugBindingFact { scope, reg: l.reg, start_pc: l.start_pc, end_pc: l.end_pc, value: v });
        } else {
            let ghost before = conflicts@;
            let ghost rest = disputed_upto(cfg, dataflow, info, values, i as nat);
            conflicts.push(DebugBindingConflict { value: v, scopes });
            proof {
                assert forall|k: int| 0 <= k < conflicts@.len() implies (#[trigger] conflicts@[k]).value == rest.push(v)[k]
                    && conflicts@[k].scopes@ == all_scopes(cfg, dataflow, info, rest.push(v)[k]) by {
                    if k < before.len() {
                        assert(before[k].value == rest[k]);
                    }
                }
            }
        }
        i = i + 1;
    }
    let r = DebugBindingFacts { accepted, conflicts };
    assert(bindings_of(cfg, dataflow, info, values, &r));
    r
}

} // verus!
