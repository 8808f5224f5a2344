//! Definitions, liveness and phis of the fixed registers.

use vstd::prelude::*;

use crate::cfg::Cfg;
use crate::dataflow::{Def, DefId, InstrEffect};
use crate::error::{Fault, StructureError};
use crate::ids::{BlockRef, InstrRef, Reg};
use crate::idset::IdSet;
use crate::search::{first_some, first_some_stable, first_where, first_where_stable};
use crate::tracks::{analysable, range_fits, Track, TrackModel};

verus! {

/// `acc`, then the definitions of the first `n` registers that instruction `i` writes.
pub open spec fn defs_of(regs: Seq<Reg>, b: BlockRef, i: int, n: nat, acc: Seq<Def>) -> Seq<Def>
    decreases n,
{
    if n == 0 {
        acc
    } else {
        let rest = defs_of(regs, b, i, (n - 1) as nat, acc);
        rest.push(Def { id: DefId(rest.len() as usize), reg: regs[n - 1], instr: InstrRef(i as usize), block: b })
    }
}

/// `acc`, then the definitions of the instructions from `start` on and before `i`.
pub open spec fn defs_in(effects: Seq<InstrEffect>, b: BlockRef, start: int, i: int, acc: Seq<Def>) -> Seq<Def>
    decreases i - start,
{
    if i <= start {
        acc
    } else {
        let regs = effects[i - 1].fixed_must_defs.seq();
        defs_of(regs, b, i - 1, regs.len(), defs_in(effects, b, start, i - 1, acc))
    }
}

/// The definitions in the first `k` blocks of the layout, in order.
pub open spec fn defs_upto(cfg: &Cfg, effects: Seq<InstrEffect>, k: nat) -> Seq<Def>
    decreases k,
{
    if k == 0 {
        Seq::empty()
    } else {
        let b = cfg.block_order@[k - 1];
        defs_in(
            effects,
            b,
            cfg.range(b).start.0 as int,
            cfg.range(b).end_at(),
            defs_upto(cfg, effects, (k - 1) as nat),
        )
    }
}

/// The identities of the first `n` definitions that instruction `i` makes.
pub open spec fn ids_at(defs: Seq<Def>, i: int, n: nat) -> Seq<DefId>
    decreases n,
{
    if n == 0 {
        Seq::empty()
    } else {
        let rest = ids_at(defs, i, (n - 1) as nat);
        if defs[n - 1].instr.0 == i {
            rest.push(DefId((n - 1) as usize))
        } else {
            rest
        }
    }
}

/// The last of the first `n` definitions that instruction `i` makes of a register.
pub open spec fn def_at(defs: Seq<Def>, reg: Reg, i: int, n: nat) -> Option<usize>
    decreases n,
{
    if n == 0 {
        None
    } else if defs[n - 1].instr.0 == i && defs[n - 1].reg == reg {
        Some((n - 1) as usize)
    } else {
        def_at(defs, reg, i, (n - 1) as nat)
    }
}

/// A register as a variable.
pub open spec fn reg_track(uses: Seq<IdSet<Reg>>, defs: Seq<Def>, reg: Reg) -> TrackModel {
    TrackModel {
        reads: Seq::new(uses.len(), |i: int| uses[i]@.contains(reg)),
        writes: Seq::new(uses.len(), |i: int| def_at(defs, reg, i, defs.len())),
    }
}

proof fn ids_at_before(a: Seq<Def>, d: Def, i: int, n: nat)
    requires
        n <= a.len(),
    ensures
        ids_at(a.push(d), i, n) == ids_at(a, i, n),
    decreases n,
{
    if n > 0 {
        assert(a.push(d)[n - 1] == a[n - 1]);
        ids_at_before(a, d, i, (n - 1) as nat);
    }
}

/// Every definition lies at an instruction.
pub open spec fn defs_placed(defs: Seq<Def>, total: nat) -> bool {
    forall|k: int| 0 <= k < defs.len() ==> (#[trigger] defs[k]).instr.0 < total
}

/// Lists the definitions, and those of each instruction.
pub fn collect_defs(cfg: &Cfg, effects: &Vec<InstrEffect>) -> (r: (Vec<Def>, Vec<Vec<DefId>>))
    requires
        analysable(cfg),
        effects@.len() == cfg.instr_to_block@.len(),
    ensures
        (r.0)@ == defs_upto(cfg, effects@, cfg.block_order@.len()),
        defs_placed((r.0)@, effects@.len()),
        (r.1)@.len() == effects@.len(),
        forall|i: int| 0 <= i < effects@.len() ==> (#[trigger] (r.1)@[i])@ == ids_at((r.0)@, i, (r.0)@.len()),
{
    let total = effects.len();
    let mut defs: Vec<Def> = Vec::new();
    let mut rows: Vec<Vec<DefId>> = Vec::new();
    let mut t: usize = 0;
    while t < total
        invariant
            t <= total,
            rows@.len() == t,
            forall|i: int| 0 <= i < t ==> (#[trigger] rows@[i])@ == Seq::<DefId>::empty(),
        decreases total - t,
    {
        rows.push(Vec::new());
        t = t + 1;
    }
    let n = cfg.block_order.len();
    let mut k: usize = 0;
    while k < n
        invariant
            analysable(cfg),
            total == effects@.len(),
            effects@.len() == cfg.instr_to_block@.len(),
            n == cfg.block_order@.len(),
            k <= n,
            defs@ == defs_upto(cfg, effects@, k as nat),
            defs_placed(defs@, total as nat),
            rows@.len() == total,
            forall|i: int| 0 <= i < total ==> (#[trigger] rows@[i])@ == ids_at(defs@, i, defs@.len()),
        decreases n - k,
    {
        let b = cfg.block_order[k];
        assert(cfg.has_block(cfg.block_order@[k as int]));
        proof {
            range_fits(cfg, b);
        }
        let range = cfg.blocks[b.0].instrs;
        let end = range.end();
        let ghost acc = defs@;
        let mut i: usize = range.start.0;
        while i < end
            invariant
                total == effects@.len(),
                range == cfg.range(b),
                end == range.end_at(),
                range.len > 0 ==> end <= total,
                range.start.0 <= i <= end,
                defs@ == defs_in(effects@, b, range.start.0 as int, i as int, acc),
                defs_placed(defs@, total as nat),
                rows@.len() == total,
                forall|q: int| 0 <= q < total ==> (#[trigger] rows@[q])@ == ids_at(defs@, q, defs@.len()),
            decreases end - i,
        {
            let ghost inner = defs@;
            let regs = &effects[i].fixed_must_defs;
            let m = regs.len();
            let mut j: usize = 0;
            while j < m
                invariant
                    i < total,
                    m == regs.seq().len(),
                    j <= m,
                    defs@ == defs_of(regs.seq(), b, i as int, j as nat, inner),
                    defs_placed(defs@, total as nat),
                    rows@.len() == total,
                    forall|q: int| 0 <= q < total ==> (#[trigger] rows@[q])@ == ids_at(defs@, q, defs@.len()),
                decreases m - j,
            {
                let at = defs.len();
                let ghost before = defs@;
                let ghost was = rows@;
                let d = Def { id: DefId(at), reg: regs.at(j), instr: InstrRef(i), block: b };
                defs.push(d);
                rows[i].push(DefId(at));
                proof {
                    assert forall|q: int| 0 <= q < total implies (#[trigger] rows@[q])@ == ids_at(defs@, q, defs@.len()) by {
                        ids_at_before(before, d, q, before.len());
                        assert(was[q]@ == ids_at(before, q, before.len()));
                        assert(defs@[before.len() as int] == d);
                    }
                }
                j = j + 1;
            }
            i = i + 1;
        }
        k = k + 1;
    }
    (defs, rows)
}

proof fn def_at_before(a: Seq<Def>, b: Seq<Def>, reg: Reg, i: int, n: nat)
    requires
        n <= a.len(),
        n <= b.len(),
        forall|k: int| 0 <= k < n ==> a[k] == b[k],
    ensures
        def_at(a, reg, i, n) == def_at(b, reg, i, n),
    decreases n,
{
    if n > 0 {
        def_at_before(a, b, reg, i, (n - 1) as nat);
    }
}

/// Builds the variable of a register.
pub fn track_register(uses: &Vec<IdSet<Reg>>, defs: &Vec<Def>, reg: Reg) -> (r: Track)
    requires
        defs_placed(defs@, uses@.len()),
    ensures
        r@ == reg_track(uses@, defs@, reg),
{
    let total = uses.len();
    let mut reads: Vec<bool> = Vec::new();
    let mut i: usize = 0;
    while i < total
        invariant
            total == uses@.len(),
            i <= total,
            reads@.len() == i,
            forall|k: int| 0 <= k < i ==> #[trigger] reads@[k] == uses@[k]@.contains(reg),
        decreases total - i,
    {
        reads.push(uses[i].contains(reg));
        i = i + 1;
    }
    let mut writes: Vec<Option<usize>> = vec![None; total];
    let n = defs.len();
    let mut k: usize = 0;
    while k < n
        invariant
            total == uses@.len(),
            n == defs@.len(),
            defs_placed(defs@, uses@.len()),
            k <= n,
            writes@.len() == total,
            forall|q: int| 0 <= q < total ==> #[trigger] writes@[q] == def_at(defs@, reg, q, k as nat),
        decreases n - k,
    {
        assert(defs@[k as int].instr.0 < total);
        if defs[k].reg == reg {
            let at = defs[k].instr.0;
            writes[at] = Some(k);
        }
        k = k + 1;
    }
    let r = Track { reads, writes };
    assert(r@.reads =~= reg_track(uses@, defs@, reg).reads);
    assert(r@.writes =~= reg_track(uses@, defs@, reg).writes);
    r
}

pub open spec fn beyond(regs: Seq<Reg>, count: usize) -> spec_fn(int) -> bool {
    |k: int| regs[k].0 >= count
}

/// The first of the registers that does not exist.
pub open spec fn first_beyond(regs: Seq<Reg>, count: usize) -> Option<Reg> {
    match first_where(regs.len(), beyond(regs, count)) {
        Some(k) => Some(regs[k]),
        None => None,
    }
}

/// The first register of an instruction that does not exist: what it reads comes first.
pub open spec fn bad_in_instr(effects: Seq<InstrEffect>, count: usize, i: int) -> Option<Reg> {
    match first_beyond(effects[i].fixed_uses.seq(), count) {
        Some(r) => Some(r),
        None => first_beyond(effects[i].fixed_must_defs.seq(), count),
    }
}

pub open spec fn bad_from(effects: Seq<InstrEffect>, count: usize, start: int) -> spec_fn(int) -> Option<Reg> {
    |k: int| bad_in_instr(effects, count, start + k)
}

pub open spec fn bad_in_block(cfg: &Cfg, effects: Seq<InstrEffect>, count: usize) -> spec_fn(int) -> Option<Reg> {
    |k: int|
        {
            let range = cfg.range(cfg.block_order@[k]);
            first_some(range.len as nat, bad_from(effects, count, range.start.0 as int))
        }
}

/// The first register in the layout that does not exist.
pub open spec fn bad_register(cfg: &Cfg, effects: Seq<InstrEffect>, count: usize) -> Option<Reg> {
    first_some(cfg.block_order@.len(), bad_in_block(cfg, effects, count))
}

fn find_beyond(regs: &IdSet<Reg>, count: usize) -> (r: Option<Reg>)
    ensures
        r == first_beyond(regs.seq(), count),
        r is None ==> forall|x: Reg| #[trigger] regs@.contains(x) ==> x.0 < count,
{
    let n = regs.len();
    let ghost p = beyond(regs.seq(), count);
    let mut k: usize = 0;
    while k < n
        invariant
            n == regs.seq().len(),
            p == beyond(regs.seq(), count),
            k <= n,
            first_where(k as nat, p) is None,
            forall|q: int| 0 <= q < k ==> (#[trigger] regs.seq()[q]).0 < count,
        decreases n - k,
    {
        let reg = regs.at(k);
        if reg.0 >= count {
            proof {
                assert(p(k as int));
                first_where_stable((k + 1) as nat, n as nat, p);
            }
            return Some(reg);
        }
        assert(!p(k as int));
        k = k + 1;
    }
    proof {
        assert forall|x: Reg| #[trigger] regs@.contains(x) implies x.0 < count by {
            assert(regs.seq().contains(x));
            assert(regs.seq()[regs.seq().index_of(x)] == x);
        }
    }
    None
}

/// Every register that instruction `i` names exists.
pub open spec fn instr_known(effects: Seq<InstrEffect>, count: usize, i: int) -> bool {
    &&& forall|x: Reg| #[trigger] effects[i].fixed_uses@.contains(x) ==> x.0 < count
    &&& forall|x: Reg| #[trigger] effects[i].fixed_must_defs@.contains(x) ==> x.0 < count
}

fn find_bad_register(cfg: &Cfg, effects: &Vec<InstrEffect>, count: usize) -> (r: Option<Reg>)
    requires
        analysable(cfg),
        effects@.len() == cfg.instr_to_block@.len(),
    ensures
        r == bad_register(cfg, effects@, count),
        r is None ==> forall|i: int| 0 <= i < effects@.len() ==> #[trigger] instr_known(effects@, count, i),
{
    let n = cfg.block_order.len();
    let ghost f = bad_in_block(cfg, effects@, count);
    let mut k: usize = 0;
    while k < n
        invariant
            analysable(cfg),
            effects@.len() == cfg.instr_to_block@.len(),
            n == cfg.block_order@.len(),
            f == bad_in_block(cfg, effects@, count),
            k <= n,
            first_some(k as nat, f) is None,
            forall|q: int, i: int|
                0 <= q < k && cfg.range(#[trigger] cfg.block_order@[q]).start.0 <= i < cfg.range(cfg.block_order@[q]).end_at()
                    ==> #[trigger] instr_known(effects@, count, i),
        decreases n - k,
    {
        let b = cfg.block_order[k];
        assert(cfg.has_block(cfg.block_order@[k as int]));
        proof {
            range_fits(cfg, b);
        }
        let range = cfg.blocks[b.0].instrs;
        let ghost g = bad_from(effects@, count, range.start.0 as int);
        let mut j: usize = 0;
        while j < range.len
            invariant
                    range == cfg.range(b),
                range.len > 0 ==> range.end_at() <= effects@.len(),
                range.end_at() <= usize::MAX,
                g == bad_from(effects@, count, range.start.0 as int),
                f == bad_in_block(cfg, effects@, count),
                k < n,
                n == cfg.block_order@.len(),
                b == cfg.block_order@[k as int],
                first_some(k as nat, f) is None,
                j <= range.len,
                first_some(j as nat, g) is None,
                forall|i: int| range.start.0 <= i < range.start.0 + j ==> #[trigger] instr_known(effects@, count, i),
            decreases range.len - j,
        {
            let i = range.start.0 + j;
            let found = match find_beyond(&effects[i].fixed_uses, count) {
                Some(x) => Some(x),
                None => find_beyond(&effects[i].fixed_must_defs, count),
            };
            assert(found == g(j as int));
            if found.is_some() {
                proof {
                    first_some_stable((j + 1) as nat, range.len as nat, g);
                    assert(f(k as int) == found);
                    first_some_stable((k + 1) as nat, n as nat, f);
                }
                return found;
            }
            j = j + 1;
        }
        assert(f(k as int) is None);
        k = k + 1;
    }
    proof {
        assert forall|i: int| 0 <= i < effects@.len() implies #[trigger] instr_known(effects@, count, i) by {
            let b = cfg.instr_to_block@[i];
            assert(cfg.has_block(b) && b != cfg.exit_block);
            assert(cfg.block_order@.contains(b));
            let q = cfg.block_order@.index_of(b);
            assert(cfg.block_order@[q] == b);
        }
    }
    None
}

/// The registers whose value may still be read, at the entry and at the end of each block.
pub struct BlockLiveness {
    pub live_in: Vec<IdSet<Reg>>,
    pub live_out: Vec<IdSet<Reg>>,
}

/// The registers below `count` that are live at the entry, or at the end, of a block.
pub open spec fn live_regs(
    cfg: &Cfg,
    uses: Seq<IdSet<Reg>>,
    defs: Seq<Def>,
    count: usize,
    b: BlockRef,
    at_end: bool,
) -> Set<Reg> {
    Set::new(
        |r: Reg|
            r.0 < count && (if at_end {
                reg_track(uses, defs, r).live_out(cfg, b)
            } else {
                reg_track(uses, defs, r).live_in(cfg, b)
            }),
    )
}

impl BlockLiveness {
    pub open spec fn describes(&self, cfg: &Cfg, uses: Seq<IdSet<Reg>>, defs: Seq<Def>, count: usize) -> bool {
        &&& self.live_in@.len() == cfg.blocks@.len()
        &&& self.live_out@.len() == cfg.blocks@.len()
        &&& forall|b: int|
            0 <= b < cfg.blocks@.len() ==> (#[trigger] self.live_in@[b])@ == live_regs(cfg, uses, defs, count, BlockRef(b as usize), false)
        &&& forall|b: int|
            0 <= b < cfg.blocks@.len() ==> (#[trigger] self.live_out@[b])@ == live_regs(cfg, uses, defs, count, BlockRef(b as usize), true)
    }
}

/// Adds `reg` to the sets whose flag is set.
fn add_where(sets: &mut Vec<IdSet<Reg>>, mask: &Vec<bool>, reg: Reg)
    requires
        old(sets)@.len() == mask@.len(),
    ensures
        final(sets)@.len() == old(sets)@.len(),
        forall|b: int|
            0 <= b < mask@.len() ==> (#[trigger] final(sets)@[b])@ == if mask@[b] {
                old(sets)@[b]@.insert(reg)
            } else {
                old(sets)@[b]@
            },
{
    let n = mask.len();
    let mut b: usize = 0;
    while b < n
        invariant
            n == mask@.len(),
            sets@.len() == n,
            old(sets)@.len() == n,
            b <= n,
            forall|k: int|
                0 <= k < b ==> (#[trigger] sets@[k])@ == if mask@[k] {
                    old(sets)@[k]@.insert(reg)
                } else {
                    old(sets)@[k]@
                },
            forall|k: int| b <= k < n ==> #[trigger] sets@[k] == old(sets)@[k],
        decreases n - b,
    {
        if mask[b] {
            let mut set = IdSet::new();
            std::mem::swap(&mut set, &mut sets[b]);
            let _ = set.insert(reg);
            std::mem::swap(&mut set, &mut sets[b]);
        }
        b = b + 1;
    }
}

fn empty_sets(n: usize) -> (r: Vec<IdSet<Reg>>)
    ensures
        r@.len() == n,
        forall|b: int| 0 <= b < n ==> (#[trigger] r@[b])@ == Set::<Reg>::empty(),
{
    let mut r: Vec<IdSet<Reg>> = Vec::new();
    let mut b: usize = 0;
    while b < n
        invariant
            b <= n,
            r@.len() == b,
            forall|k: int| 0 <= k < b ==> (#[trigger] r@[k])@ == Set::<Reg>::empty(),
        decreases n - b,
    {
        r.push(IdSet::new());
        b = b + 1;
    }
    r
}

/// The registers are those that the instruction reads, and others that exist.
pub open spec fn extends_uses(effect: &InstrEffect, regs: Set<Reg>, count: usize) -> bool {
    &&& effect.fixed_uses@.subset_of(regs)
    &&& forall|x: Reg| #[trigger] regs.contains(x) ==> effect.fixed_uses@.contains(x) || x.0 < count
}

/// Finds the live registers of every block. An instruction that names a register beyond the
/// last is refused.
pub fn solve_liveness(
    cfg: &Cfg,
    effects: &Vec<InstrEffect>,
    uses: &Vec<IdSet<Reg>>,
    defs: &Vec<Def>,
    reg_count: usize,
) -> (r: Result<BlockLiveness, StructureError>)
    requires
        analysable(cfg),
        effects@.len() == cfg.instr_to_block@.len(),
        uses@.len() == effects@.len(),
        defs_placed(defs@, effects@.len()),
        forall|i: int| 0 <= i < effects@.len() ==> extends_uses(&effects@[i], #[trigger] uses@[i]@, reg_count),
    ensures
        match r {
            Ok(l) => bad_register(cfg, effects@, reg_count) is None && l.describes(cfg, uses@, defs@, reg_count) && (forall|i: int|
                0 <= i < effects@.len() ==> #[trigger] instr_known(effects@, reg_count, i)),
            Err(e) => bad_register(cfg, effects@, reg_count) is Some && e.fault == Fault::LivenessRegister(
                bad_register(cfg, effects@, reg_count)->0,
                reg_count,
            ),
        },
{
    if let Some(reg) = find_bad_register(cfg, effects, reg_count) {
        return Err(StructureError::invalid(Fault::LivenessRegister(reg, reg_count)));
    }
    let n = cfg.blocks.len();
    let mut live_in = empty_sets(n);
    let mut live_out = empty_sets(n);
    proof {
        assert forall|b: int| 0 <= b < n implies (#[trigger] live_in@[b])@ == live_regs(cfg, uses@, defs@, 0, BlockRef(b as usize), false) by {
            assert(live_in@[b]@ =~= live_regs(cfg, uses@, defs@, 0, BlockRef(b as usize), false));
        }
        assert forall|b: int| 0 <= b < n implies (#[trigger] live_out@[b])@ == live_regs(cfg, uses@, defs@, 0, BlockRef(b as usize), true) by {
            assert(live_out@[b]@ =~= live_regs(cfg, uses@, defs@, 0, BlockRef(b as usize), true));
        }
    }
    let mut r: usize = 0;
    while r < reg_count
        invariant
            analysable(cfg),
            effects@.len() == cfg.instr_to_block@.len(),
            uses@.len() == effects@.len(),
            defs_placed(defs@, effects@.len()),
            n == cfg.blocks@.len(),
            r <= reg_count,
            live_in@.len() == n,
            live_out@.len() == n,
            forall|b: int| 0 <= b < n ==> (#[trigger] live_in@[b])@ == live_regs(cfg, uses@, defs@, r, BlockRef(b as usize), false),
            forall|b: int| 0 <= b < n ==> (#[trigger] live_out@[b])@ == live_regs(cfg, uses@, defs@, r, BlockRef(b as usize), true),
        decreases reg_count - r,
    {
        let track = track_register(uses, defs, Reg(r));
        let (at_entry, at_end) = track.solve_liveness(cfg);
        let ghost was_in = live_in@;
        let ghost was_out = live_out@;
        add_where(&mut live_in, &at_entry, Reg(r));
        add_where(&mut live_out, &at_end, Reg(r));
        proof {
            let next = (r + 1) as usize;
            assert forall|b: int| 0 <= b < n implies (#[trigger] live_in@[b])@ == live_regs(cfg, uses@, defs@, next, BlockRef(b as usize), false) by {
                assert(was_in[b]@ == live_regs(cfg, uses@, defs@, r, BlockRef(b as usize), false));
                assert forall|x: Reg| live_in@[b]@.contains(x) <==> live_regs(cfg, uses@, defs@, next, BlockRef(b as usize), false).contains(x) by {
                    assert(x.0 == r ==> x == Reg(r));
                    assert(at_entry@[b] == track@.live_in(cfg, BlockRef(b as usize)));
                }
                assert(live_in@[b]@ =~= live_regs(cfg, uses@, defs@, next, BlockRef(b as usize), false));
            }
            assert forall|b: int| 0 <= b < n implies (#[trigger] live_out@[b])@ == live_regs(cfg, uses@, defs@, next, BlockRef(b as usize), true) by {
                assert(was_out[b]@ == live_regs(cfg, uses@, defs@, r, BlockRef(b as usize), true));
                assert forall|x: Reg| live_out@[b]@.contains(x) <==> live_regs(cfg, uses@, defs@, next, BlockRef(b as usize), true).contains(x) by {
                    assert(x.0 == r ==> x == Reg(r));
                    assert(at_end@[b] == track@.live_out(cfg, BlockRef(b as usize)));
                }
                assert(live_out@[b]@ =~= live_regs(cfg, uses@, defs@, next, BlockRef(b as usize), true));
            }
        }
        r = r + 1;
    }
    Ok(BlockLiveness { live_in, live_out })
}

} // verus!
