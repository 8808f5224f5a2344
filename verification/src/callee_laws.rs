//! What a condition may hand on to a call, and what has to be worked out where it is needed.

use vstd::prelude::*;

use crate::callees::{leaf_incoming, leaf_is_tested, node_blocks, uses_outside, CalleeContext, DefRole};
use crate::cfg::Cfg;
use crate::dataflow::{DataflowFacts, DefId, SsaValue, UseSite};
use crate::ids::{BlockRef, InstrRef, Reg};
use crate::lir::{BranchInstr, BranchSubject, CondOperand, LowInstr, LoweredProto};
use crate::plan::ConditionNodePlan;

verus! {

/// The use stands in one of the blocks.
pub open spec fn used_within(cfg: &Cfg, blocks: Set<BlockRef>, site: UseSite) -> bool {
    site.instr.0 < cfg.instr_to_block@.len() && blocks.contains(cfg.instr_to_block@[site.instr.0 as int])
}

/// Every use of the definition stands in one of the blocks.
pub open spec fn stays_within(context: &CalleeContext, blocks: Set<BlockRef>, id: DefId) -> bool {
    forall|k: int|
        0 <= k < context.dataflow.def_uses@[id.0 as int]@.len() ==> used_within(
            context.cfg,
            blocks,
            #[trigger] context.dataflow.def_uses@[id.0 as int]@[k],
        )
}

/// The definition flows into no phi but that of the value.
pub open spec fn flows_into_the_value_only(context: &CalleeContext, id: DefId) -> bool {
    forall|k: int|
        0 <= k < context.dataflow.def_phi_uses@[id.0 as int]@.len()
            ==> #[trigger] context.dataflow.def_phi_uses@[id.0 as int]@[k] == context.value_phi
}

/// Use `k` of the definition is the call, and the only use that stands in none of the blocks.
pub open spec fn called_at(context: &CalleeContext, blocks: Set<BlockRef>, id: DefId, k: int) -> bool {
    let uses = context.dataflow.def_uses@[id.0 as int]@;
    &&& 0 <= k < uses.len()
    &&& !used_within(context.cfg, blocks, uses[k])
    &&& uses[k].instr == context.use_instr
    &&& context.proto.instrs@[context.use_instr.0 as int] is Call
    &&& context.proto.instrs@[context.use_instr.0 as int]->Call_0.callee == uses[k].reg
    &&& context.dataflow.read_value(context.use_instr, uses[k].reg) == SsaValue::Def(id)
    &&& forall|j: int| 0 <= j < uses.len() && j != k ==> used_within(context.cfg, blocks, #[trigger] uses[j])
}

proof fn none_outside(cfg: &Cfg, blocks: Set<BlockRef>, list: Seq<UseSite>, n: nat)
    requires
        n <= list.len(),
    ensures
        uses_outside(cfg, blocks, list, n).len() == 0 <==> forall|k: int|
            0 <= k < n ==> used_within(cfg, blocks, #[trigger] list[k]),
    decreases n,
{
    if n > 0 {
        none_outside(cfg, blocks, list, (n - 1) as nat);
        if !used_within(cfg, blocks, list[n - 1]) {
            assert(uses_outside(cfg, blocks, list, n).len() > 0);
        }
    }
}

proof fn one_outside(cfg: &Cfg, blocks: Set<BlockRef>, list: Seq<UseSite>, n: nat) -> (k: int)
    requires
        n <= list.len(),
        uses_outside(cfg, blocks, list, n).len() == 1,
    ensures
        0 <= k < n,
        uses_outside(cfg, blocks, list, n)[0] == list[k],
        !used_within(cfg, blocks, list[k]),
        forall|j: int| 0 <= j < n && j != k ==> used_within(cfg, blocks, #[trigger] list[j]),
    decreases n,
{
    none_outside(cfg, blocks, list, (n - 1) as nat);
    if used_within(cfg, blocks, list[n - 1]) {
        one_outside(cfg, blocks, list, (n - 1) as nat)
    } else {
        n - 1
    }
}

/// What is taken for inner is needed by nothing outside of the node's blocks, and flows into
/// no phi but that of the node's value; what the node's own block has put out already may be
/// needed by instructions elsewhere. Whatever nothing else needs is taken for inner.
pub proof fn inner_values_are_needed_inside_only(context: &CalleeContext, owned: Set<BlockRef>, d: DefId)
    requires
        d.0 < context.dataflow.defs@.len(),
        context.dataflow.defs@[d.0 as int].id.0 < context.dataflow.def_uses@.len(),
        context.dataflow.defs@[d.0 as int].id.0 < context.dataflow.def_phi_uses@.len(),
    ensures
        ({
            let def = context.dataflow.defs@[d.0 as int];
            context.role_of(owned, d) == DefRole::Inner <==> flows_into_the_value_only(context, def.id) && (stays_within(
                context,
                owned,
                def.id,
            ) || context.prefix_emitted && def.block == context.home)
        }),
{
    let def = context.dataflow.defs@[d.0 as int];
    let list = context.dataflow.def_uses@[def.id.0 as int]@;
    none_outside(context.cfg, owned, list, list.len());
}

/// A callee is read by the one call outside of the node's blocks, as what it calls, and by
/// nothing else outside. One of the node's blocks makes it, and only reads it from an upvalue,
/// a table or a register.
pub proof fn callees_are_needed_by_their_call_only(context: &CalleeContext, owned: Set<BlockRef>, d: DefId)
    requires
        context.role_of(owned, d) == DefRole::Callee,
    ensures
        ({
            let def = context.dataflow.defs@[d.0 as int];
            &&& d.0 < context.dataflow.defs@.len()
            &&& flows_into_the_value_only(context, def.id)
            &&& exists|k: int| #[trigger] called_at(context, owned, def.id, k)
            &&& owned.contains(context.dataflow.defs@[def.id.0 as int].block)
            &&& match context.proto.instrs@[def.instr.0 as int] {
                LowInstr::GetUpvalue(_) | LowInstr::GetTable(_) | LowInstr::Move(_) => true,
                _ => false,
            }
        }),
{
    let def = context.dataflow.defs@[d.0 as int];
    let list = context.dataflow.def_uses@[def.id.0 as int]@;
    let k = one_outside(context.cfg, owned, list, list.len());
    assert(called_at(context, owned, def.id, k));
}

/// A value with two uses outside of the node's blocks, or with one that is not the call,
/// escapes, unless the node's own block has put it out already.
pub proof fn values_needed_elsewhere_escape(context: &CalleeContext, owned: Set<BlockRef>, d: DefId, j: int, k: int)
    requires
        d.0 < context.dataflow.defs@.len(),
        !(context.prefix_emitted && context.dataflow.defs@[d.0 as int].block == context.home),
        ({
            let uses = context.dataflow.def_uses@[context.dataflow.defs@[d.0 as int].id.0 as int]@;
            &&& 0 <= j < uses.len() && !used_within(context.cfg, owned, uses[j])
            &&& 0 <= k < uses.len() && !used_within(context.cfg, owned, uses[k])
            &&& j != k || uses[k].instr != context.use_instr
        }),
    ensures
        context.role_of(owned, d) == DefRole::Escaping,
{
    let def = context.dataflow.defs@[d.0 as int];
    let list = context.dataflow.def_uses@[def.id.0 as int]@;
    none_outside(context.cfg, owned, list, list.len());
    if uses_outside(context.cfg, owned, list, list.len()).len() == 1 {
        let i = one_outside(context.cfg, owned, list, list.len());
        assert(i == j && i == k);
    }
}

/// Instruction `i` of block `b` makes definition `d`.
pub open spec fn makes(context: &CalleeContext, b: BlockRef, i: int, d: DefId) -> bool {
    let range = context.cfg.blocks@[b.0 as int].instrs;
    range.start.0 <= i < range.start.0 + range.len && context.dataflow.instr_defs@[i]@.contains(d)
}

/// What is found among definitions: none of them escapes, and `found` is the only callee.
spec fn settles(context: &CalleeContext, owned: Set<BlockRef>, made: Set<DefId>, found: Option<DefId>) -> bool {
    &&& forall|d: DefId| #[trigger] made.contains(d) ==> match context.role_of(owned, d) {
        DefRole::Escaping => false,
        DefRole::Inner => true,
        DefRole::Callee => found == Some(context.dataflow.defs@[d.0 as int].id),
    }
    &&& found is Some ==> exists|d: DefId| #[trigger]
        made.contains(d) && context.role_of(owned, d) == DefRole::Callee && context.dataflow.defs@[d.0 as int].id == found->0
}

proof fn list_settles(
    context: &CalleeContext,
    owned: Set<BlockRef>,
    before: Set<DefId>,
    list: Seq<DefId>,
    n: nat,
    acc: Option<DefId>,
)
    requires
        n <= list.len(),
        settles(context, owned, before, acc),
        context.callee_in_list(owned, list, n, acc) is Some,
    ensures
        settles(
            context,
            owned,
            before.union(list.take(n as int).to_set()),
            context.callee_in_list(owned, list, n, acc)->0,
        ),
    decreases n,
{
    let now = before.union(list.take(n as int).to_set());
    if n == 0 {
        assert(now =~= before);
    } else {
        list_settles(context, owned, before, list, (n - 1) as nat, acc);
        let last = before.union(list.take(n - 1).to_set());
        let a = list.take(n - 1);
        let b = list.take(n as int);
        assert(b =~= a.push(list[n - 1]));
        assert forall|d: DefId| #[trigger] now.contains(d) <==> last.contains(d) || d == list[n - 1] by {
            if a.contains(d) {
                let j = a.index_of(d);
                assert(b[j] == d);
            }
            assert(b[n - 1] == list[n - 1]);
            if b.contains(d) {
                let j = b.index_of(d);
                if j < n - 1 {
                    assert(a[j] == d);
                }
            }
        }
        let found = context.callee_in_list(owned, list, n, acc)->0;
        if found is Some && context.role_of(owned, list[n - 1]) != DefRole::Callee {
            let d = choose|d: DefId| #[trigger]
                last.contains(d) && context.role_of(owned, d) == DefRole::Callee && context.dataflow.defs@[d.0 as int].id
                    == found->0;
            assert(now.contains(d));
        } else if found is Some {
            assert(now.contains(list[n - 1]));
        }
    }
}

/// The definitions that `n` instructions from `start` on make.
spec fn made_in_range(context: &CalleeContext, start: nat, n: nat) -> Set<DefId> {
    Set::new(|d: DefId| exists|i: int| start <= i < start + n && (#[trigger] context.dataflow.instr_defs@[i])@.contains(d))
}

proof fn range_settles(
    context: &CalleeContext,
    owned: Set<BlockRef>,
    before: Set<DefId>,
    start: nat,
    n: nat,
    acc: Option<DefId>,
)
    requires
        settles(context, owned, before, acc),
        context.callee_in_range(owned, start, n, acc) is Some,
    ensures
        settles(
            context,
            owned,
            before.union(made_in_range(context, start, n)),
            context.callee_in_range(owned, start, n, acc)->0,
        ),
    decreases n,
{
    let now = before.union(made_in_range(context, start, n));
    if n == 0 {
        assert(now =~= before);
    } else {
        range_settles(context, owned, before, start, (n - 1) as nat, acc);
        let last = before.union(made_in_range(context, start, (n - 1) as nat));
        let found = context.callee_in_range(owned, start, (n - 1) as nat, acc)->0;
        let list = context.dataflow.instr_defs@[start + n - 1]@;
        list_settles(context, owned, last, list, list.len(), found);
        assert(list.take(list.len() as int) =~= list);
        assert(now =~= last.union(list.to_set()));
    }
}

/// The definitions that the first `n` blocks make.
spec fn made_in_blocks(context: &CalleeContext, blocks: Seq<BlockRef>, n: nat) -> Set<DefId> {
    Set::new(|d: DefId| exists|j: int, i: int| 0 <= j < n && #[trigger] makes(context, blocks[j], i, d))
}

proof fn blocks_settle(context: &CalleeContext, owned: Set<BlockRef>, blocks: Seq<BlockRef>, n: nat)
    requires
        n <= blocks.len(),
        context.callee_in_blocks(owned, blocks, n) is Some,
    ensures
        settles(
            context,
            owned,
            made_in_blocks(context, blocks, n),
            context.callee_in_blocks(owned, blocks, n)->0,
        ),
    decreases n,
{
    let now = made_in_blocks(context, blocks, n);
    if n > 0 {
        blocks_settle(context, owned, blocks, (n - 1) as nat);
        let last = made_in_blocks(context, blocks, (n - 1) as nat);
        let found = context.callee_in_blocks(owned, blocks, (n - 1) as nat)->0;
        let range = context.cfg.blocks@[blocks[n - 1].0 as int].instrs;
        let made = made_in_range(context, range.start.0 as nat, range.len as nat);
        range_settles(context, owned, last, range.start.0 as nat, range.len as nat, found);
        assert forall|d: DefId| now.contains(d) <==> last.contains(d) || made.contains(d) by {
            if now.contains(d) {
                let (j, i) = choose|j: int, i: int| 0 <= j < n && #[trigger] makes(context, blocks[j], i, d);
                if j < n - 1 {
                    assert(makes(context, blocks[j], i, d));
                } else {
                    assert(context.dataflow.instr_defs@[i]@.contains(d));
                }
            }
            if last.contains(d) {
                let (j, i) = choose|j: int, i: int| 0 <= j < n - 1 && #[trigger] makes(context, blocks[j], i, d);
                assert(makes(context, blocks[j], i, d));
            }
            if made.contains(d) {
                let i = choose|i: int|
                    range.start.0 <= i < range.start.0 + range.len && (#[trigger] context.dataflow.instr_defs@[i])@.contains(d);
                assert(makes(context, blocks[n - 1], i, d));
            }
        }
        assert(now =~= last.union(made));
    }
}

/// A node hands its value on only where nothing that its blocks make escapes, and at most one
/// of these is a callee: the one that is found.
pub proof fn nodes_hand_on_one_callee(
    context: &CalleeContext,
    owned: Set<BlockRef>,
    blocks: Seq<BlockRef>,
    j: int,
    i: int,
    d: DefId,
)
    requires
        context.callee_in_blocks(owned, blocks, blocks.len()) is Some,
        0 <= j < blocks.len(),
        makes(context, blocks[j], i, d),
    ensures
        context.role_of(owned, d) != DefRole::Escaping,
        context.role_of(owned, d) == DefRole::Callee ==> context.callee_in_blocks(owned, blocks, blocks.len())->0 == Some(
            context.dataflow.defs@[d.0 as int].id,
        ),
{
    blocks_settle(context, owned, blocks, blocks.len());
    assert(made_in_blocks(context, blocks, blocks.len()).contains(d));
}

/// A callee that a node hands on is made by one of its blocks.
pub proof fn handed_on_callees_are_made(context: &CalleeContext, owned: Set<BlockRef>, blocks: Seq<BlockRef>)
    requires
        context.callee_in_blocks(owned, blocks, blocks.len()) is Some,
        context.callee_in_blocks(owned, blocks, blocks.len())->0 is Some,
    ensures
        exists|j: int, i: int, d: DefId|
            0 <= j < blocks.len() && #[trigger] makes(context, blocks[j], i, d) && context.role_of(owned, d)
                == DefRole::Callee && context.callee_in_blocks(owned, blocks, blocks.len()) == Some(
                Some(context.dataflow.defs@[d.0 as int].id),
            ),
{
    blocks_settle(context, owned, blocks, blocks.len());
    let found = context.callee_in_blocks(owned, blocks, blocks.len())->0;
    let made = made_in_blocks(context, blocks, blocks.len());
    let d = choose|d: DefId| #[trigger]
        made.contains(d) && context.role_of(owned, d) == DefRole::Callee && context.dataflow.defs@[d.0 as int].id == found->0;
    let (j, i) = choose|j: int, i: int| 0 <= j < blocks.len() && #[trigger] makes(context, blocks[j], i, d);
    assert(makes(context, blocks[j], i, d));
}

/// A leaf passes for the tested value just when the branch asks whether a register is true and
/// the leaf is what it reads there, or the last definition before it, a move of that to the
/// register of the result.
pub proof fn current_leaves_are_what_was_asked_for(
    proto: &LoweredProto,
    dataflow: &DataflowFacts,
    at: InstrRef,
    branch: &BranchInstr,
    result: Reg,
    leaf: SsaValue,
    last: Option<DefId>,
)
    ensures
        leaf_is_tested(proto, dataflow, at, branch, result, leaf, last) <==> exists|asked: Reg| {
            &&& branch.cond.subject == BranchSubject::Truthy(CondOperand::Reg(asked))
            &&& leaf == #[trigger] dataflow.read_value(at, asked) || last is Some && leaf == SsaValue::Def(last->0) && copies(
                proto,
                dataflow,
                last->0,
                dataflow.read_value(at, asked),
                result,
            )
        },
{
    if let BranchSubject::Truthy(CondOperand::Reg(asked)) = branch.cond.subject {
        let v = dataflow.read_value(at, asked);
        assert(leaf == v || leaf != v);
    }
}

/// Definition `d` of register `reg` is a move of `v` into it.
pub open spec fn copies(proto: &LoweredProto, dataflow: &DataflowFacts, d: DefId, v: SsaValue, reg: Reg) -> bool {
    let def = dataflow.defs@[d.0 as int];
    &&& def.reg == reg
    &&& def.instr.0 < proto.instrs@.len()
    &&& proto.instrs@[def.instr.0 as int] is Move
    &&& proto.instrs@[def.instr.0 as int]->Move_0.dst == reg
    &&& dataflow.read_value(def.instr, proto.instrs@[def.instr.0 as int]->Move_0.src) == v
}

/// The blocks of a node are its own block and those that its two arcs pass.
pub proof fn nodes_own_what_their_arcs_pass(node: &ConditionNodePlan, b: BlockRef)
    ensures
        node_blocks(node).contains(b) <==> b == node.block || node.arcs@[0].connector_blocks@.contains(b)
            || node.arcs@[1].connector_blocks@.contains(b),
{
}

/// What a leaf brings is what its block leaves in the register, and it names the definition
/// just when the block itself makes it.
pub proof fn leaves_bring_what_their_block_leaves(dataflow: &DataflowFacts, reg: Reg, pred: BlockRef, d: DefId)
    ensures
        ({
            let leaf = leaf_incoming(dataflow, reg, pred);
            &&& leaf.pred == pred && leaf.value == dataflow.exit_value(pred, reg)
            &&& leaf.latest_local_def == Some(d) <==> leaf.value == SsaValue::Def(d) && dataflow.defs@[d.0 as int].block
                == pred
        }),
{
}

} // verus!
