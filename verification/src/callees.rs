//! Which values a condition may hand on without working them out again.

use vstd::prelude::*;

use crate::cfg::Cfg;
use crate::dataflow::{DataflowFacts, Def, DefId, PhiId, SsaValue, UseSite};
use crate::evidence::ShortCircuitValueIncoming;
use crate::ids::{BlockRef, InstrRef, Reg};
use crate::idset::{ascending, ascending_unique, IdSet};
use crate::lir::{BranchInstr, BranchSubject, CondOperand, LowInstr, LoweredProto};
use crate::plan::{ConditionArcPlan, ConditionNodePlan};

verus! {

/// The definition is a plain move of `value` into `reg`.
pub open spec fn moves_value(proto: &LoweredProto, dataflow: &DataflowFacts, d: DefId, reg: Reg, value: SsaValue) -> bool {
    let at = dataflow.defs@[d.0 as int].instr;
    at.0 < proto.instrs@.len() && match proto.instrs@[at.0 as int] {
        LowInstr::Move(m) => m.dst == reg && dataflow.read_value(at, m.src) == value,
        _ => false,
    }
}

/// The leaf holds the very value that the condition tests, itself or moved once.
pub open spec fn leaf_is_tested(
    proto: &LoweredProto,
    dataflow: &DataflowFacts,
    predicate_ref: InstrRef,
    predicate: &BranchInstr,
    result_reg: Reg,
    leaf_value: SsaValue,
    latest_local_def: Option<DefId>,
) -> bool {
    match predicate.cond.subject {
        BranchSubject::Truthy(CondOperand::Reg(subject)) => {
            let tested = dataflow.read_value(predicate_ref, subject);
            leaf_value == tested || match latest_local_def {
                Some(d) => leaf_value == SsaValue::Def(d) && dataflow.defs@[d.0 as int].reg == result_reg && moves_value(
                    proto,
                    dataflow,
                    d,
                    result_reg,
                    tested,
                ),
                None => false,
            }
        },
        _ => false,
    }
}

/// Whether the value of a leaf is the one that the condition has just tested.
pub fn value_leaf_is_current(
    proto: &LoweredProto,
    dataflow: &DataflowFacts,
    predicate_ref: InstrRef,
    predicate: &BranchInstr,
    result_reg: Reg,
    leaf_value: SsaValue,
    latest_local_def: Option<DefId>,
) -> (r: bool)
    requires
        latest_local_def is Some ==> (latest_local_def->0).0 < dataflow.defs@.len(),
    ensures
        r == leaf_is_tested(proto, dataflow, predicate_ref, predicate, result_reg, leaf_value, latest_local_def),
{
    let subject = match predicate.cond.subject {
        BranchSubject::Truthy(CondOperand::Reg(reg)) => reg,
        _ => {
            return false;
        },
    };
    let tested = dataflow.use_value(predicate_ref, subject);
    if leaf_value == tested {
        return true;
    }
    let d = match latest_local_def {
        Some(d) => d,
        None => {
            return false;
        },
    };
    if leaf_value != SsaValue::Def(d) || dataflow.def_reg(d) != result_reg {
        return false;
    }
    let at = dataflow.defs[d.0].instr;
    if at.0 >= proto.instrs.len() {
        return false;
    }
    match proto.instrs[at.0] {
        LowInstr::Move(m) => m.dst == result_reg && dataflow.use_value(at, m.src) == tested,
        _ => false,
    }
}

/// The blocks of a node: its own and those on its two arcs.
pub open spec fn node_blocks(node: &ConditionNodePlan) -> Set<BlockRef> {
    node.arcs@[0].connector_blocks@.to_set().union(node.arcs@[1].connector_blocks@.to_set()).insert(node.block)
}

/// The use stands outside of the blocks.
pub open spec fn stands_outside(cfg: &Cfg, owned: Set<BlockRef>, site: UseSite) -> bool {
    site.instr.0 >= cfg.instr_to_block@.len() || !owned.contains(cfg.instr_to_block@[site.instr.0 as int])
}

/// The first `n` uses, those outside of the blocks only.
pub open spec fn uses_outside(cfg: &Cfg, owned: Set<BlockRef>, list: Seq<UseSite>, n: nat) -> Seq<UseSite>
    decreases n,
{
    if n == 0 {
        Seq::empty()
    } else {
        let rest = uses_outside(cfg, owned, list, (n - 1) as nat);
        if stands_outside(cfg, owned, list[n - 1]) {
            rest.push(list[n - 1])
        } else {
            rest
        }
    }
}

/// What becomes of a definition that a node makes.
#[derive(Debug, Clone, Copy, PartialEq, Eq, Structural)]
pub enum DefRole {
    /// Nothing outside depends on it.
    Inner,
    /// The call that uses the value of the node calls it.
    Callee,
    /// It is needed elsewhere.
    Escaping,
}

/// The register that the using instruction calls.
pub open spec fn called_reg(proto: &LoweredProto, use_instr: InstrRef) -> Option<Reg> {
    match proto.instrs@[use_instr.0 as int] {
        LowInstr::Call(call) => Some(call.callee),
        _ => None,
    }
}

/// The called value, if the node makes it.
pub open spec fn callee_def(
    proto: &LoweredProto,
    dataflow: &DataflowFacts,
    owned: Set<BlockRef>,
    use_instr: InstrRef,
) -> Option<DefId> {
    match called_reg(proto, use_instr) {
        Some(reg) => match dataflow.read_value(use_instr, reg) {
            SsaValue::Def(d) => if owned.contains(dataflow.defs@[d.0 as int].block) {
                Some(d)
            } else {
                None
            },
            _ => None,
        },
        None => None,
    }
}

pub open spec fn is_plain_read(i: LowInstr) -> bool {
    i is GetUpvalue || i is GetTable || i is Move
}

/// The setting in which the definitions of a node are judged.
#[derive(Clone, Copy)]
pub struct CalleeContext<'a> {
    pub proto: &'a LoweredProto,
    pub cfg: &'a Cfg,
    pub dataflow: &'a DataflowFacts,
    pub home: BlockRef,
    pub value_phi: PhiId,
    pub use_instr: InstrRef,
    pub prefix_emitted: bool,
}

impl<'a> CalleeContext<'a> {
    /// The one outside use is the call that takes the value of the node.
    pub open spec fn is_callee_use(&self, owned: Set<BlockRef>, def: Def, site: UseSite) -> bool {
        &&& callee_def(self.proto, self.dataflow, owned, self.use_instr) == Some(def.id)
        &&& site.instr == self.use_instr
        &&& called_reg(self.proto, self.use_instr) == Some(site.reg)
        &&& self.dataflow.read_value(self.use_instr, site.reg) == SsaValue::Def(def.id)
        &&& def.instr.0 < self.proto.instrs@.len()
        &&& is_plain_read(self.proto.instrs@[def.instr.0 as int])
    }

    pub open spec fn feeds_other_phi(&self, def: Def) -> bool {
        exists|k: int|
            0 <= k < self.dataflow.def_phi_uses@[def.id.0 as int]@.len() && #[trigger] self.dataflow.def_phi_uses@[def.id.0 as int]@[k]
                != self.value_phi
    }

    pub open spec fn role_of(&self, owned: Set<BlockRef>, d: DefId) -> DefRole {
        if d.0 >= self.dataflow.defs@.len() {
            DefRole::Escaping
        } else {
            let def = self.dataflow.defs@[d.0 as int];
            if def.id.0 >= self.dataflow.def_uses@.len() || def.id.0 >= self.dataflow.def_phi_uses@.len() || self.feeds_other_phi(def) {
                DefRole::Escaping
            } else {
                let list = self.dataflow.def_uses@[def.id.0 as int]@;
                let outside = uses_outside(self.cfg, owned, list, list.len());
                if outside.len() == 0 || (self.prefix_emitted && def.block == self.home) {
                    DefRole::Inner
                } else if outside.len() == 1 && self.is_callee_use(owned, def, outside[0]) {
                    DefRole::Callee
                } else {
                    DefRole::Escaping
                }
            }
        }
    }

    /// The callee after the first `n` definitions of a list; nothing if one of them
    /// escapes or there is a second callee.
    pub open spec fn callee_in_list(
        &self,
        owned: Set<BlockRef>,
        list: Seq<DefId>,
        n: nat,
        acc: Option<DefId>,
    ) -> Option<Option<DefId>>
        decreases n,
    {
        if n == 0 {
            Some(acc)
        } else {
            match self.callee_in_list(owned, list, (n - 1) as nat, acc) {
                None => None,
                Some(found) => match self.role_of(owned, list[n - 1]) {
                    DefRole::Inner => Some(found),
                    DefRole::Escaping => None,
                    DefRole::Callee => if found is Some {
                        None
                    } else {
                        Some(Some(self.dataflow.defs@[list[n - 1].0 as int].id))
                    },
                },
            }
        }
    }

    /// The callee after `n` instructions from `start` on.
    pub open spec fn callee_in_range(
        &self,
        owned: Set<BlockRef>,
        start: nat,
        n: nat,
        acc: Option<DefId>,
    ) -> Option<Option<DefId>>
        decreases n,
    {
        if n == 0 {
            Some(acc)
        } else {
            match self.callee_in_range(owned, start, (n - 1) as nat, acc) {
                None => None,
                Some(found) => {
                    let i = start + n - 1;
                    if i >= self.dataflow.instr_defs@.len() {
                        None
                    } else {
                        let list = self.dataflow.instr_defs@[i]@;
                        self.callee_in_list(owned, list, list.len(), found)
                    }
                },
            }
        }
    }

    /// The callee after the first `n` blocks.
    pub open spec fn callee_in_blocks(&self, owned: Set<BlockRef>, blocks: Seq<BlockRef>, n: nat) -> Option<Option<DefId>>
        decreases n,
    {
        if n == 0 {
            Some(None)
        } else {
            match self.callee_in_blocks(owned, blocks, (n - 1) as nat) {
                None => None,
                Some(found) => if blocks[n - 1].0 >= self.cfg.blocks@.len() {
                    None
                } else {
                    let range = self.cfg.blocks@[blocks[n - 1].0 as int].instrs;
                    self.callee_in_range(owned, range.start.0 as nat, range.len as nat, found)
                },
            }
        }
    }

    proof fn list_stops(&self, owned: Set<BlockRef>, list: Seq<DefId>, m: nat, n: nat, acc: Option<DefId>)
        requires
            m <= n,
            self.callee_in_list(owned, list, m, acc) is None,
        ensures
            self.callee_in_list(owned, list, n, acc) is None,
        decreases n,
    {
        if m < n {
            self.list_stops(owned, list, m, (n - 1) as nat, acc);
        }
    }

    proof fn range_stops(&self, owned: Set<BlockRef>, start: nat, m: nat, n: nat, acc: Option<DefId>)
        requires
            m <= n,
            self.callee_in_range(owned, start, m, acc) is None,
        ensures
            self.callee_in_range(owned, start, n, acc) is None,
        decreases n,
    {
        if m < n {
            self.range_stops(owned, start, m, (n - 1) as nat, acc);
        }
    }

    proof fn blocks_stop(&self, owned: Set<BlockRef>, blocks: Seq<BlockRef>, m: nat, n: nat)
        requires
            m <= n,
            self.callee_in_blocks(owned, blocks, m) is None,
        ensures
            self.callee_in_blocks(owned, blocks, n) is None,
        decreases n,
    {
        if m < n {
            self.blocks_stop(owned, blocks, m, (n - 1) as nat);
        }
    }

    fn find_called_reg(&self) -> (r: Option<Reg>)
        requires
            self.use_instr.0 < self.proto.instrs@.len(),
        ensures
            r == called_reg(self.proto, self.use_instr),
    {
        match self.proto.instrs[self.use_instr.0] {
            LowInstr::Call(call) => Some(call.callee),
            _ => None,
        }
    }

    /// What the using instruction calls is a definition there is.
    pub open spec fn callee_known(&self) -> bool {
        self.use_instr.0 < self.proto.instrs@.len() ==> match called_reg(self.proto, self.use_instr) {
            Some(reg) => match self.dataflow.read_value(self.use_instr, reg) {
                SsaValue::Def(d) => d.0 < self.dataflow.defs@.len(),
                _ => true,
            },
            None => true,
        }
    }

    fn find_callee_def(&self, owned: &IdSet<BlockRef>) -> (r: Option<DefId>)
        requires
            self.use_instr.0 < self.proto.instrs@.len(),
            self.callee_known(),
        ensures
            r == callee_def(self.proto, self.dataflow, owned@, self.use_instr),
    {
        match self.find_called_reg() {
            Some(reg) => match self.dataflow.use_value(self.use_instr, reg) {
                SsaValue::Def(d) => if owned.contains(self.dataflow.def_block(d)) {
                    Some(d)
                } else {
                    None
                },
                _ => None,
            },
            None => None,
        }
    }

    fn collect_outside(&self, owned: &IdSet<BlockRef>, list: &Vec<UseSite>) -> (r: Vec<UseSite>)
        ensures
            r@ == uses_outside(self.cfg, owned@, list@, list@.len()),
    {
        let n = list.len();
        let mut r: Vec<UseSite> = Vec::new();
        let mut k: usize = 0;
        while k < n
            invariant
                n == list@.len(),
                k <= n,
                r@ == uses_outside(self.cfg, owned@, list@, k as nat),
            decreases n - k,
        {
            let site = list[k];
            if site.instr.0 >= self.cfg.instr_to_block.len() || !owned.contains(self.cfg.instr_to_block[site.instr.0]) {
                r.push(site);
            }
            k = k + 1;
        }
        r
    }

    fn check_feeds_other_phi(&self, def: &Def) -> (r: bool)
        requires
            def.id.0 < self.dataflow.def_phi_uses@.len(),
        ensures
            r == self.feeds_other_phi(*def),
    {
        let n = self.dataflow.def_phi_uses[def.id.0].len();
        let mut k: usize = 0;
        while k < n
            invariant
                def.id.0 < self.dataflow.def_phi_uses@.len(),
                n == self.dataflow.def_phi_uses@[def.id.0 as int]@.len(),
                k <= n,
                forall|q: int| 0 <= q < k ==> #[trigger] self.dataflow.def_phi_uses@[def.id.0 as int]@[q] == self.value_phi,
            decreases n - k,
        {
            if self.dataflow.def_phi_uses[def.id.0][k] != self.value_phi {
                assert(self.dataflow.def_phi_uses@[def.id.0 as int]@[k as int] != self.value_phi);
                return true;
            }
            k = k + 1;
        }
        false
    }

    fn find_role(&self, owned: &IdSet<BlockRef>, callee: Option<DefId>, called: Option<Reg>, d: DefId) -> (r: DefRole)
        requires
            callee == callee_def(self.proto, self.dataflow, owned@, self.use_instr),
            called == called_reg(self.proto, self.use_instr),
        ensures
            r == self.role_of(owned@, d),
    {
        if d.0 >= self.dataflow.defs.len() {
            return DefRole::Escaping;
        }
        let def = &self.dataflow.defs[d.0];
        if def.id.0 >= self.dataflow.def_uses.len() || def.id.0 >= self.dataflow.def_phi_uses.len() || self.check_feeds_other_phi(def) {
            return DefRole::Escaping;
        }
        let outside = self.collect_outside(owned, &self.dataflow.def_uses[def.id.0]);
        if outside.len() == 0 || (self.prefix_emitted && def.block == self.home) {
            return DefRole::Inner;
        }
        if outside.len() != 1 {
            return DefRole::Escaping;
        }
        let site = outside[0];
        let chosen = match callee {
            Some(c) => c == def.id,
            None => false,
        };
        let by_name = match called {
            Some(reg) => reg == site.reg,
            None => false,
        };
        let plain = def.instr.0 < self.proto.instrs.len() && match self.proto.instrs[def.instr.0] {
            LowInstr::GetUpvalue(_) | LowInstr::GetTable(_) | LowInstr::Move(_) => true,
            _ => false,
        };
        if chosen && site.instr == self.use_instr && by_name && self.dataflow.use_value(self.use_instr, site.reg) == SsaValue::Def(def.id)
            && plain {
            DefRole::Callee
        } else {
            DefRole::Escaping
        }
    }

    fn search_list(
        &self,
        owned: &IdSet<BlockRef>,
        callee: Option<DefId>,
        called: Option<Reg>,
        list: &Vec<DefId>,
        start: Option<DefId>,
    ) -> (r: Option<
        Option<DefId>,
    >)
        requires
            callee == callee_def(self.proto, self.dataflow, owned@, self.use_instr),
            called == called_reg(self.proto, self.use_instr),
        ensures
            r == self.callee_in_list(owned@, list@, list@.len(), start),
    {
        let n = list.len();
        let mut found = start;
        let mut k: usize = 0;
        while k < n
            invariant
                callee == callee_def(self.proto, self.dataflow, owned@, self.use_instr),
                called == called_reg(self.proto, self.use_instr),
                n == list@.len(),
                k <= n,
                self.callee_in_list(owned@, list@, k as nat, start) == Some(found),
            decreases n - k,
        {
            let role = self.find_role(owned, callee, called, list[k]);
            let refused = match role {
                DefRole::Inner => false,
                DefRole::Escaping => true,
                DefRole::Callee => found.is_some(),
            };
            if refused {
                proof {
                    self.list_stops(owned@, list@, (k + 1) as nat, n as nat, start);
                }
                return None;
            }
            if let DefRole::Callee = role {
                found = Some(self.dataflow.defs[list[k].0].id);
            }
            k = k + 1;
        }
        Some(found)
    }

    fn search_range(
        &self,
        owned: &IdSet<BlockRef>,
        callee: Option<DefId>,
        called: Option<Reg>,
        first: usize,
        len: usize,
        start: Option<DefId>,
    ) -> (r: Option<
        Option<DefId>,
    >)
        requires
            callee == callee_def(self.proto, self.dataflow, owned@, self.use_instr),
            called == called_reg(self.proto, self.use_instr),
            first + len <= usize::MAX,
        ensures
            r == self.callee_in_range(owned@, first as nat, len as nat, start),
    {
        let mut found = start;
        let mut k: usize = 0;
        while k < len
            invariant
                callee == callee_def(self.proto, self.dataflow, owned@, self.use_instr),
                called == called_reg(self.proto, self.use_instr),
                first + len <= usize::MAX,
                k <= len,
                self.callee_in_range(owned@, first as nat, k as nat, start) == Some(found),
            decreases len - k,
        {
            let i = first + k;
            let next = if i >= self.dataflow.instr_defs.len() {
                None
            } else {
                self.search_list(owned, callee, called, &self.dataflow.instr_defs[i], found)
            };
            match next {
                Some(f) => {
                    found = f;
                },
                None => {
                    proof {
                        self.range_stops(owned@, first as nat, (k + 1) as nat, len as nat, start);
                    }
                    return None;
                },
            }
            k = k + 1;
        }
        Some(found)
    }

    fn search_blocks(&self, owned: &IdSet<BlockRef>) -> (r: Option<Option<DefId>>)
        requires
            self.use_instr.0 < self.proto.instrs@.len(),
            self.callee_known(),
            ranges_end(self.cfg),
        ensures
            r == self.callee_in_blocks(owned@, owned.seq(), owned.seq().len()),
    {
        let callee = self.find_callee_def(owned);
        let called = self.find_called_reg();
        let n = owned.len();
        let mut found: Option<DefId> = None;
        let mut k: usize = 0;
        while k < n
            invariant
                callee == callee_def(self.proto, self.dataflow, owned@, self.use_instr),
                called == called_reg(self.proto, self.use_instr),
                ranges_end(self.cfg),
                n == owned.seq().len(),
                k <= n,
                self.callee_in_blocks(owned@, owned.seq(), k as nat) == Some(found),
            decreases n - k,
        {
            let b = owned.at(k);
            let next = if b.0 >= self.cfg.blocks.len() {
                None
            } else {
                let range = self.cfg.blocks[b.0].instrs;
                assert(self.cfg.blocks@[b.0 as int].instrs.end_at() <= usize::MAX);
                self.search_range(owned, callee, called, range.start.0, range.len, found)
            };
            match next {
                Some(f) => {
                    found = f;
                },
                None => {
                    proof {
                        self.blocks_stop(owned@, owned.seq(), (k + 1) as nat, n as nat);
                    }
                    return None;
                },
            }
            k = k + 1;
        }
        Some(found)
    }
}

/// Every block ends at an index.
pub open spec fn ranges_end(cfg: &Cfg) -> bool {
    forall|b: int| 0 <= b < cfg.blocks@.len() ==> (#[trigger] cfg.blocks@[b]).instrs.end_at() <= usize::MAX
}

fn add_connectors(arc: &ConditionArcPlan, owned: &mut IdSet<BlockRef>)
    ensures
        final(owned)@ == old(owned)@.union(arc.connector_blocks@.to_set()),
{
    let n = arc.connector_blocks.len();
    let ghost list = arc.connector_blocks@;
    let ghost before = owned@;
    let mut k: usize = 0;
    while k < n
        invariant
            list == arc.connector_blocks@,
            n == list.len(),
            k <= n,
            owned@ == before.union(list.subrange(0, k as int).to_set()),
        decreases n - k,
    {
        owned.insert(arc.connector_blocks[k]);
        proof {
            let a = list.subrange(0, k as int);
            let b = list.subrange(0, k + 1);
            assert(b =~= a.push(list[k as int]));
            assert forall|x: BlockRef| b.to_set().contains(x) <==> a.to_set().contains(x) || x == list[k as int] by {
                if a.contains(x) {
                    let j = a.index_of(x);
                    assert(b[j] == x);
                }
                assert(b[k as int] == list[k as int]);
                if b.contains(x) {
                    let j = b.index_of(x);
                    if j < k {
                        assert(a[j] == x);
                    }
                }
            }
            assert(owned@ =~= before.union(b.to_set()));
        }
        k = k + 1;
    }
    assert(list.subrange(0, n as int) =~= list);
}

/// The called value that a node hands on to the call that uses the node's own value;
/// nothing if the node makes something else that is needed elsewhere.
pub fn condition_forwarded_callee(
    proto: &LoweredProto,
    cfg: &Cfg,
    dataflow: &DataflowFacts,
    node: &ConditionNodePlan,
    value_phi: PhiId,
    use_instr: InstrRef,
    prefix_emitted: bool,
) -> (r: Option<Option<DefId>>)
    requires
        ranges_end(cfg),
        (CalleeContext { proto, cfg, dataflow, home: node.block, value_phi, use_instr, prefix_emitted }).callee_known(),
    ensures
        use_instr.0 >= proto.instrs@.len() ==> r is None,
        use_instr.0 < proto.instrs@.len() ==> forall|blocks: Seq<BlockRef>|
            ascending(blocks) && #[trigger] blocks.to_set() == node_blocks(node) ==> r == (CalleeContext {
                proto,
                cfg,
                dataflow,
                home: node.block,
                value_phi,
                use_instr,
                prefix_emitted,
            }).callee_in_blocks(node_blocks(node), blocks, blocks.len()),
{
    if use_instr.0 >= proto.instrs.len() {
        return None;
    }
    let mut owned: IdSet<BlockRef> = IdSet::new();
    add_connectors(&node.arcs[0], &mut owned);
    add_connectors(&node.arcs[1], &mut owned);
    owned.insert(node.block);
    assert(owned@ =~= node_blocks(node));
    let context = CalleeContext { proto, cfg, dataflow, home: node.block, value_phi, use_instr, prefix_emitted };
    let r = context.search_blocks(&owned);
    let count = owned.len();
    proof {
        assert forall|blocks: Seq<BlockRef>| ascending(blocks) && #[trigger] blocks.to_set() == node_blocks(node) implies r
            == context.callee_in_blocks(node_blocks(node), blocks, blocks.len()) by {
            assert forall|b: BlockRef| blocks.contains(b) <==> owned.seq().contains(b) by {
                assert(blocks.to_set().contains(b) == blocks.contains(b));
                assert(owned@.contains(b) == owned.seq().contains(b));
            }
            ascending_unique(blocks, owned.seq());
        }
    }
    r
}

/// What flows into the result of an expression, leaf by leaf.
#[derive(Debug)]
pub struct ShortCircuitPhiFacts {
    pub entry_value: SsaValue,
    pub value_incomings: Vec<ShortCircuitValueIncoming>,
}

/// What block `pred` leaves in the register.
pub open spec fn leaf_incoming(dataflow: &DataflowFacts, reg: Reg, pred: BlockRef) -> ShortCircuitValueIncoming {
    let value = dataflow.exit_value(pred, reg);
    ShortCircuitValueIncoming {
        pred,
        value,
        latest_local_def: match value {
            SsaValue::Def(d) => if dataflow.defs@[d.0 as int].block == pred {
                Some(d)
            } else {
                None
            },
            _ => None,
        },
    }
}

/// The value on entry to an expression, and those that its leaves leave.
pub fn short_circuit_phi_facts(
    dataflow: &DataflowFacts,
    header: BlockRef,
    reg: Reg,
    value_leaves: &IdSet<BlockRef>,
) -> (r: ShortCircuitPhiFacts)
    requires
        forall|b: BlockRef| #[trigger] value_leaves@.contains(b) ==> match dataflow.exit_value(b, reg) {
            SsaValue::Def(d) => d.0 < dataflow.defs@.len(),
            _ => true,
        },
    ensures
        r.entry_value == dataflow.exit_value(header, reg),
        r.value_incomings@ == value_leaves.seq().map_values(|b: BlockRef| leaf_incoming(dataflow, reg, b)),
{
    let n = value_leaves.len();
    let ghost leaf = |b: BlockRef| leaf_incoming(dataflow, reg, b);
    let mut value_incomings: Vec<ShortCircuitValueIncoming> = Vec::new();
    let mut k: usize = 0;
    while k < n
        invariant
            forall|b: BlockRef| #[trigger] value_leaves@.contains(b) ==> match dataflow.exit_value(b, reg) {
                SsaValue::Def(d) => d.0 < dataflow.defs@.len(),
                _ => true,
            },
            n == value_leaves.seq().len(),
            k <= n,
            value_incomings@.len() == k,
            forall|i: int| 0 <= i < k ==> #[trigger] value_incomings@[i] == leaf_incoming(dataflow, reg, value_leaves.seq()[i]),
        decreases n - k,
    {
        let pred = value_leaves.at(k);
        let value = dataflow.block_exit_value(pred, reg);
        let latest_local_def = match value {
            SsaValue::Def(d) => if dataflow.def_block(d) == pred {
                Some(d)
            } else {
                None
            },
            _ => None,
        };
        value_incomings.push(ShortCircuitValueIncoming { pred, value, latest_local_def });
        k = k + 1;
    }
    assert(value_incomings@ =~= value_leaves.seq().map_values(leaf));
    ShortCircuitPhiFacts { entry_value: dataflow.block_exit_value(header, reg), value_incomings }
}

} // verus!
