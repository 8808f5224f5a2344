//! Which value a source variable starts with, and who may have it.

use vstd::prelude::*;

use crate::cfg::Cfg;
use crate::dataflow::{DataflowFacts, DefId, SsaValue};
use crate::debug_bindings::{
    accepted_upto, all_scopes, at_or_after, bindings_of, disputed_upto, own_def, scopes_of, start_value, value_at_start,
    value_up_to, DebugInfo,
};
use crate::ids::{InstrRef, Reg};
use crate::search::{first_where, first_where_least};
use crate::structure_plan::{DebugBindingFact, DebugBindingFacts};

verus! {

/// Instruction `i` defines `reg` by `d`.
pub open spec fn makes(dataflow: &DataflowFacts, i: int, reg: Reg, d: DefId) -> bool {
    exists|k: int|
        0 <= k < dataflow.instr_defs@[i]@.len() && #[trigger] dataflow.instr_defs@[i]@[k] == d && dataflow.defs@[d.0 as int].reg == reg
}

/// Instruction `i` does not define `reg`.
pub open spec fn leaves_alone(dataflow: &DataflowFacts, i: int, reg: Reg) -> bool {
    forall|k: int| 0 <= k < dataflow.instr_defs@[i]@.len() ==> dataflow.defs@[(#[trigger] dataflow.instr_defs@[i]@[k]).0 as int].reg != reg
}

proof fn own_defs_are_made(dataflow: &DataflowFacts, i: int, reg: Reg)
    requires
        0 <= i <= usize::MAX,
    ensures
        match own_def(dataflow, i, reg) {
            Some(d) => makes(dataflow, i, reg, d),
            None => leaves_alone(dataflow, i, reg),
        },
{
    let p = dataflow.defines_reg(InstrRef(i as usize), reg);
    let n = dataflow.instr_defs@[i]@.len();
    first_where_least(n, p);
    match first_where(n, p) {
        Some(k) => {
            assert(p(k));
            assert(dataflow.instr_defs@[i]@[k] == own_def(dataflow, i, reg)->0);
        },
        None => {
            assert forall|k: int| 0 <= k < n implies dataflow.defs@[(#[trigger] dataflow.instr_defs@[i]@[k]).0 as int].reg != reg by {
                assert(!p(k));
            }
        },
    }
}

/// The last definition of `reg` from instruction `start` up to `end` is `v`, or there is none
/// and `v` is what the register held first.
pub open spec fn was_made_last(dataflow: &DataflowFacts, start: int, end: int, reg: Reg, first: SsaValue, v: SsaValue) -> bool {
    ||| v == first && forall|i: int| start <= i < end ==> #[trigger] leaves_alone(dataflow, i, reg)
    ||| exists|j: int, d: DefId| {
        &&& start <= j < end
        &&& v == SsaValue::Def(d)
        &&& #[trigger] makes(dataflow, j, reg, d)
        &&& forall|i: int| j < i < end ==> #[trigger] leaves_alone(dataflow, i, reg)
    }
}

proof fn values_were_made_last(dataflow: &DataflowFacts, start: int, end: int, reg: Reg, first: SsaValue)
    requires
        0 <= start,
        end <= usize::MAX,
    ensures
        was_made_last(dataflow, start, end, reg, first, value_up_to(dataflow, start, end, reg, first)),
    decreases end - start,
{
    if start < end {
        let k = end - 1;
        values_were_made_last(dataflow, start, k, reg, first);
        own_defs_are_made(dataflow, k, reg);
        let v = value_up_to(dataflow, start, k, reg, first);
        match own_def(dataflow, k, reg) {
            Some(d) => {
                assert(makes(dataflow, k, reg, d));
            },
            None => {
                assert forall|i: int| start <= i < end && (i < k ==> leaves_alone(dataflow, i, reg)) implies #[trigger] leaves_alone(
                    dataflow,
                    i,
                    reg,
                ) by {}
                if !(v == first && forall|i: int| start <= i < k ==> #[trigger] leaves_alone(dataflow, i, reg)) {
                    let (j, d) = choose|j: int, d: DefId| {
                        &&& start <= j < k
                        &&& v == SsaValue::Def(d)
                        &&& #[trigger] makes(dataflow, j, reg, d)
                        &&& forall|i: int| j < i < k ==> #[trigger] leaves_alone(dataflow, i, reg)
                    };
                    assert(makes(dataflow, j, reg, d));
                }
            },
        }
    }
}

/// A variable starts with what its register holds where its life begins: what the instruction
/// there makes of it, if its life begins with that very instruction; otherwise what was made
/// of it last in the block before, or what the block started with.
pub proof fn variables_start_with_what_was_made_last(
    cfg: &Cfg,
    dataflow: &DataflowFacts,
    map: Seq<Vec<u32>>,
    i: int,
    reg: Reg,
    pc: u32,
)
    requires
        0 <= i <= usize::MAX,
        cfg.range(cfg.instr_to_block@[i]).start.0 <= i,
    ensures
        ({
            let b = cfg.instr_to_block@[i];
            let v = value_at_start(cfg, dataflow, map, i, reg, pc);
            ||| map[i]@.contains(pc) && exists|d: DefId| v == SsaValue::Def(d) && #[trigger] makes(dataflow, i, reg, d)
            ||| (!map[i]@.contains(pc) || leaves_alone(dataflow, i, reg)) && was_made_last(
                dataflow,
                cfg.range(b).start.0 as int,
                i,
                reg,
                dataflow.entry_value(b, reg),
                v,
            )
        }),
{
    let b = cfg.instr_to_block@[i];
    own_defs_are_made(dataflow, i, reg);
    values_were_made_last(dataflow, cfg.range(b).start.0 as int, i, reg, dataflow.entry_value(b, reg));
}

/// Only a variable of the source has a value to start with, and it has one just when some
/// instruction stands at its start or behind it: the first such instruction counts.
pub proof fn source_variables_start_somewhere(cfg: &Cfg, dataflow: &DataflowFacts, info: &DebugInfo, s: int)
    ensures
        match start_value(cfg, dataflow, info, s) {
            Some(v) => info.locals@[s].is_source && exists|i: int| {
                &&& 0 <= i < info.pc_map@.len()
                &&& exists|k: int| 0 <= k < info.pc_map@[i]@.len() && #[trigger] info.pc_map@[i]@[k] >= info.locals@[s].start_pc
                &&& forall|j: int, k: int|
                    0 <= j < i && 0 <= k < info.pc_map@[j]@.len() ==> #[trigger] info.pc_map@[j]@[k] < info.locals@[s].start_pc
                &&& v == #[trigger] value_at_start(
                    cfg,
                    dataflow,
                    info.pc_map@,
                    i,
                    info.locals@[s].reg,
                    info.locals@[s].start_pc,
                )
            },
            None => !info.locals@[s].is_source || forall|j: int, k: int|
                0 <= j < info.pc_map@.len() && 0 <= k < info.pc_map@[j]@.len() ==> #[trigger] info.pc_map@[j]@[k]
                    < info.locals@[s].start_pc,
        },
{
    let l = info.locals@[s];
    let p = at_or_after(info.pc_map@, l.start_pc);
    let n = info.pc_map@.len();
    first_where_least(n, p);
    match first_where(n, p) {
        Some(i) => {
            assert(p(i));
            assert forall|j: int, k: int| 0 <= j < i && 0 <= k < info.pc_map@[j]@.len() implies #[trigger] info.pc_map@[j]@[k]
                < l.start_pc by {
                assert(!p(j));
            }
            let v = value_at_start(cfg, dataflow, info.pc_map@, i, l.reg, l.start_pc);
        },
        None => {
            assert forall|j: int, k: int| 0 <= j < n && 0 <= k < info.pc_map@[j]@.len() implies #[trigger] info.pc_map@[j]@[k]
                < l.start_pc by {
                assert(!p(j));
            }
        },
    }
}

proof fn scopes_start_with(cfg: &Cfg, dataflow: &DataflowFacts, info: &DebugInfo, v: SsaValue, n: nat)
    requires
        n <= info.locals@.len(),
    ensures
        ({
            let r = scopes_of(cfg, dataflow, info, v, n);
            &&& forall|k: int| 0 <= k < r.len() ==> (#[trigger] r[k]) < n && start_value(cfg, dataflow, info, r[k] as int) == Some(v)
            &&& forall|j: int, k: int| 0 <= j < k < r.len() ==> (#[trigger] r[j]) < (#[trigger] r[k])
            &&& forall|s: int| 0 <= s < n && #[trigger] start_value(cfg, dataflow, info, s) == Some(v) ==> r.contains(s as usize)
        }),
    decreases n,
{
    assert(info.locals@.len() <= usize::MAX) by {
        let m = info.locals.len();
        assert(m == info.locals@.len());
    }
    if n > 0 {
        let m = (n - 1) as nat;
        scopes_start_with(cfg, dataflow, info, v, m);
        let before = scopes_of(cfg, dataflow, info, v, m);
        let r = scopes_of(cfg, dataflow, info, v, n);
        assert forall|s: int| 0 <= s < n && #[trigger] start_value(cfg, dataflow, info, s) == Some(v) implies r.contains(s as usize) by {
            if s < m {
                assert(before.contains(s as usize));
                let k = before.index_of(s as usize);
                assert(r[k] == s as usize);
            } else {
                assert(r[before.len() as int] == s as usize);
            }
        }
    }
}

/// Variable `s` starts with `v`, and no other variable does.
pub open spec fn starts_alone(cfg: &Cfg, dataflow: &DataflowFacts, info: &DebugInfo, s: int, v: SsaValue) -> bool {
    &&& 0 <= s < info.locals@.len() && start_value(cfg, dataflow, info, s) == Some(v)
    &&& forall|t: int| 0 <= t < info.locals@.len() && #[trigger] start_value(cfg, dataflow, info, t) == Some(v) ==> t == s
}

proof fn lone_scopes(cfg: &Cfg, dataflow: &DataflowFacts, info: &DebugInfo, v: SsaValue)
    ensures
        all_scopes(cfg, dataflow, info, v).len() == 1 ==> starts_alone(
            cfg,
            dataflow,
            info,
            all_scopes(cfg, dataflow, info, v)[0] as int,
            v,
        ),
        forall|s: int| #[trigger]
            starts_alone(cfg, dataflow, info, s, v) ==> all_scopes(cfg, dataflow, info, v) == seq![s as usize],
{
    let n = info.locals@.len();
    let r = all_scopes(cfg, dataflow, info, v);
    scopes_start_with(cfg, dataflow, info, v, n);
    assert(n <= usize::MAX) by {
        let m = info.locals.len();
        assert(m == n);
    }
    assert forall|s: int| #[trigger] starts_alone(cfg, dataflow, info, s, v) implies r == seq![s as usize] by {
        assert(r.contains(s as usize));
        if r.len() > 1 {
            assert(start_value(cfg, dataflow, info, r[0] as int) == Some(v));
            assert(start_value(cfg, dataflow, info, r[1] as int) == Some(v));
            assert(r[0] < r[1]);
        }
        assert(r =~= seq![s as usize]);
    }
    if r.len() == 1 {
        assert forall|t: int| 0 <= t < n && #[trigger] start_value(cfg, dataflow, info, t) == Some(v) implies t == r[0] by {
            assert(r.contains(t as usize));
        }
    }
}

proof fn accepted_start_alone(
    cfg: &Cfg,
    dataflow: &DataflowFacts,
    info: &DebugInfo,
    values: Seq<SsaValue>,
    n: nat,
)
    requires
        n <= values.len(),
    ensures
        ({
            let r = accepted_upto(cfg, dataflow, info, values, n);
            &&& forall|k: int| 0 <= k < r.len() ==> binds_alone(cfg, dataflow, info, #[trigger] r[k])
            &&& forall|s: int, j: int|
                #![trigger starts_alone(cfg, dataflow, info, s, values[j])]
                0 <= j < n && starts_alone(cfg, dataflow, info, s, values[j]) ==> exists|k: int|
                    0 <= k < r.len() && (#[trigger] r[k]).scope == s && r[k].value == values[j]
        }),
    decreases n,
{
    if n > 0 {
        let m = (n - 1) as nat;
        accepted_start_alone(cfg, dataflow, info, values, m);
        let v = values[m as int];
        lone_scopes(cfg, dataflow, info, v);
        let before = accepted_upto(cfg, dataflow, info, values, m);
        let r = accepted_upto(cfg, dataflow, info, values, n);
        if all_scopes(cfg, dataflow, info, v).len() == 1 {
            assert(binds_alone(cfg, dataflow, info, r[before.len() as int]));
        }
        assert forall|s: int, j: int|
            #![trigger starts_alone(cfg, dataflow, info, s, values[j])]
            0 <= j < n && starts_alone(cfg, dataflow, info, s, values[j]) implies exists|k: int|
            0 <= k < r.len() && (#[trigger] r[k]).scope == s && r[k].value == values[j] by {
            if j < m {
                let k = choose|k: int| 0 <= k < before.len() && (#[trigger] before[k]).scope == s && before[k].value == values[j];
                assert(r[k] == before[k]);
            } else {
                assert(info.locals@.len() <= usize::MAX) by {
                    let c = info.locals.len();
                    assert(c == info.locals@.len());
                }
                assert(r[before.len() as int].scope == s);
            }
        }
    }
}

/// The binding gives a variable, with its register and its life, the value that it alone
/// starts with.
pub open spec fn binds_alone(cfg: &Cfg, dataflow: &DataflowFacts, info: &DebugInfo, f: DebugBindingFact) -> bool {
    &&& starts_alone(cfg, dataflow, info, f.scope as int, f.value)
    &&& f.reg == info.locals@[f.scope as int].reg
    &&& f.start_pc == info.locals@[f.scope as int].start_pc
    &&& f.end_pc == info.locals@[f.scope as int].end_pc
}

/// A variable is bound to the value it starts with just when no other variable starts with
/// it; every value that several variables start with is listed as a conflict, with exactly
/// these variables.
pub proof fn bindings_are_undisputed(
    cfg: &Cfg,
    dataflow: &DataflowFacts,
    info: &DebugInfo,
    values: Seq<SsaValue>,
    r: &DebugBindingFacts,
)
    requires
        bindings_of(cfg, dataflow, info, values, r),
    ensures
        forall|k: int| 0 <= k < r.accepted@.len() ==> binds_alone(cfg, dataflow, info, #[trigger] r.accepted@[k]),
        forall|s: int, v: SsaValue| #[trigger]
            starts_alone(cfg, dataflow, info, s, v) ==> exists|k: int|
                0 <= k < r.accepted@.len() && (#[trigger] r.accepted@[k]).scope == s && r.accepted@[k].value == v,
        forall|k: int| #![trigger r.conflicts@[k]]
            0 <= k < r.conflicts@.len() ==> r.conflicts@[k].scopes@.len() >= 2 && forall|s: int|
                0 <= s < info.locals@.len() ==> (r.conflicts@[k].scopes@.contains(s as usize) <==> #[trigger] start_value(
                    cfg,
                    dataflow,
                    info,
                    s,
                ) == Some(r.conflicts@[k].value)),
{
    accepted_start_alone(cfg, dataflow, info, values, values.len());
    assert forall|s: int, v: SsaValue| #[trigger] starts_alone(cfg, dataflow, info, s, v) implies exists|k: int|
        0 <= k < r.accepted@.len() && (#[trigger] r.accepted@[k]).scope == s && r.accepted@[k].value == v by {
        assert(values.contains(v));
        let j = values.index_of(v);
        assert(starts_alone(cfg, dataflow, info, s, values[j]));
    }
    let disputed = disputed_upto(cfg, dataflow, info, values, values.len());
    assert forall|k: int| #![trigger r.conflicts@[k]] 0 <= k < r.conflicts@.len() implies r.conflicts@[k].scopes@.len() >= 2
        && forall|s: int|
        0 <= s < info.locals@.len() ==> (r.conflicts@[k].scopes@.contains(s as usize) <==> #[trigger] start_value(
            cfg,
            dataflow,
            info,
            s,
        ) == Some(r.conflicts@[k].value)) by {
        let v = disputed[k];
        disputed_are_shared(cfg, dataflow, info, values, values.len(), k);
        scopes_start_with(cfg, dataflow, info, v, info.locals@.len());
        let scopes = all_scopes(cfg, dataflow, info, v);
        let s = choose|s: int| 0 <= s < info.locals@.len() && #[trigger] start_value(cfg, dataflow, info, s) == Some(v);
        assert(scopes.contains(s as usize));
        assert forall|s: int| 0 <= s < info.locals@.len() implies (scopes.contains(s as usize) <==> #[trigger] start_value(
            cfg,
            dataflow,
            info,
            s,
        ) == Some(v)) by {
            assert(info.locals@.len() <= usize::MAX) by {
                let c = info.locals.len();
                assert(c == info.locals@.len());
            }
            if scopes.contains(s as usize) {
                let q = scopes.index_of(s as usize);
                assert(start_value(cfg, dataflow, info, scopes[q] as int) == Some(v));
            }
        }
    }
}

proof fn disputed_are_shared(
    cfg: &Cfg,
    dataflow: &DataflowFacts,
    info: &DebugInfo,
    values: Seq<SsaValue>,
    n: nat,
    k: int,
)
    requires
        n <= values.len(),
        0 <= k < disputed_upto(cfg, dataflow, info, values, n).len(),
    ensures
        all_scopes(cfg, dataflow, info, disputed_upto(cfg, dataflow, info, values, n)[k]).len() != 1,
        values.contains(disputed_upto(cfg, dataflow, info, values, n)[k]),
    decreases n,
{
    let m = (n - 1) as nat;
    if k < disputed_upto(cfg, dataflow, info, values, m).len() {
        disputed_are_shared(cfg, dataflow, info, values, m, k);
    } else {
        assert(values.contains(values[m as int]));
    }
}

} // verus!
