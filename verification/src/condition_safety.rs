//! How far a condition may reach: up to the first block whose work cannot become part of an
//! expression.

use vstd::prelude::*;

use crate::cfg::Cfg;
use crate::collapse::within;
use crate::condition_arcs::ShortModel;
use crate::dataflow::{DataflowFacts, DefId, PhiId, SsaValue};
use crate::dense::{adjacent, close, closes_to, flagged};
use crate::evidence::{
    ShortCircuitCandidate, ShortCircuitExit, ShortCircuitNode, ShortCircuitNodeRef, ShortCircuitTarget,
};
use crate::ids::BlockRef;
use crate::idset::IdSet;
use crate::repeats::short_known;
use crate::search::{first_where, first_where_stable};
use crate::short_order::copy_short;
use crate::tracks::{analysable, range_fits};
use crate::uses::{incomings_within, reads_within};
use crate::walk::{reaches, reaches_first_step, reaches_mapped};

verus! {

/// The facts name only definitions, phis and instructions that there are.
pub open spec fn values_known(cfg: &Cfg, dataflow: &DataflowFacts) -> bool {
    &&& analysable(cfg)
    &&& dataflow.use_values@.len() == cfg.instr_to_block@.len()
    &&& dataflow.effect_summaries@.len() == cfg.instr_to_block@.len()
    &&& dataflow.instr_defs@.len() == cfg.instr_to_block@.len()
    &&& reads_within(dataflow.use_values@, dataflow.phi_candidates@.len(), dataflow.defs@.len())
    &&& incomings_within(dataflow.phi_candidates@, dataflow.defs@.len())
    &&& forall|d: int| 0 <= d < dataflow.defs@.len() ==> (#[trigger] dataflow.defs@[d]).instr.0 < dataflow.use_values@.len()
    &&& dataflow.uses_known(cfg)
}

/// Instruction `i` reads `v`.
pub open spec fn reads_value(dataflow: &DataflowFacts, i: int, v: SsaValue) -> bool {
    exists|k: int| 0 <= k < dataflow.use_values@[i].fixed@.len() && (#[trigger] dataflow.use_values@[i].fixed@[k]).1 == v
}

/// `v` is made from `w`: its instruction reads it, or it flows into the phi.
pub open spec fn made_from(dataflow: &DataflowFacts) -> spec_fn(SsaValue, SsaValue) -> bool {
    |v: SsaValue, w: SsaValue|
        !(w is Entry) && match v {
            SsaValue::Def(d) => d.0 < dataflow.defs@.len() && reads_value(
                dataflow,
                dataflow.defs@[d.0 as int].instr.0 as int,
                w,
            ),
            SsaValue::Phi(p) => p.0 < dataflow.phi_candidates@.len() && exists|k: int|
                0 <= k < dataflow.phi_candidates@[p.0 as int].incoming@.len() && (
                #[trigger] dataflow.phi_candidates@[p.0 as int].incoming@[k]).value == w,
            SsaValue::Entry(_) => false,
        }
}

/// What instruction `q` reads is made, step by step, from definition `d`.
pub open spec fn builds_on(dataflow: &DataflowFacts, q: int, root: SsaValue, d: DefId) -> bool {
    reads_value(dataflow, q, root) && reaches(made_from(dataflow), root, SsaValue::Def(d))
}

/// What instruction `q` reads is made, step by step, from what instruction `i` defines.
pub open spec fn needs_instr(dataflow: &DataflowFacts, q: int, i: int) -> bool {
    exists|root: SsaValue, d: DefId|
        d.0 < dataflow.defs@.len() && dataflow.defs@[d.0 as int].instr.0 == i && #[trigger] builds_on(dataflow, q, root, d)
}

/// Before its condition the block has an effect that the condition does not need.
pub open spec fn has_unabsorbed(cfg: &Cfg, dataflow: &DataflowFacts, b: BlockRef) -> bool {
    let range = cfg.range(b);
    range.len == 0 || exists|i: int|
        range.start.0 <= i < range.end_at() - 1 && (#[trigger] dataflow.effect_summaries@[i]).tags@.len() > 0 && !needs_instr(
            dataflow,
            range.end_at() - 1,
            i,
        )
}

/// Instruction `i` makes definition `k` of its own, and that is used outside of `allowed`.
pub open spec fn lets_escape(cfg: &Cfg, dataflow: &DataflowFacts, allowed: Set<BlockRef>, i: int, k: int) -> bool {
    0 <= k < dataflow.instr_defs@[i]@.len() && dataflow.has_use_outside(cfg, dataflow.instr_defs@[i]@[k], allowed)
}

/// The block makes a definition that is used outside of `allowed`.
pub open spec fn has_escaping(cfg: &Cfg, dataflow: &DataflowFacts, allowed: Set<BlockRef>, b: BlockRef) -> bool {
    exists|i: int, k: int|
        cfg.range(b).start.0 <= i < cfg.range(b).end_at() && #[trigger] lets_escape(cfg, dataflow, allowed, i, k)
}

/// Node `k + 1` cannot be part of the expression.
pub open spec fn cuts(cfg: &Cfg, dataflow: &DataflowFacts, s: ShortModel) -> spec_fn(int) -> bool {
    |k: int|
        has_escaping(cfg, dataflow, s.blocks, s.nodes[k + 1].header) || has_unabsorbed(cfg, dataflow, s.nodes[k + 1].header)
}

pub open spec fn cut_target(t: ShortCircuitTarget, cut: usize) -> Option<ShortCircuitTarget> {
    match t {
        ShortCircuitTarget::TruthyExit => None,
        ShortCircuitTarget::Node(n) => if n.0 == cut {
            Some(ShortCircuitTarget::TruthyExit)
        } else if n.0 > cut {
            None
        } else {
            Some(t)
        },
        _ => Some(t),
    }
}

/// The node with the cut as its true exit; none when it leads elsewhere behind the cut.
pub open spec fn cut_node(n: ShortCircuitNode, cut: usize) -> Option<ShortCircuitNode> {
    match (cut_target(n.truthy, cut), cut_target(n.falsy, cut)) {
        (Some(a), Some(b)) => Some(ShortCircuitNode { truthy: a, falsy: b, ..n }),
        _ => None,
    }
}

pub open spec fn leads_to_cut(n: ShortCircuitNode, cut: usize) -> bool {
    n.truthy == ShortCircuitTarget::Node(ShortCircuitNodeRef(cut)) || n.falsy == ShortCircuitTarget::Node(
        ShortCircuitNodeRef(cut),
    )
}

/// The first `n` nodes, cut.
pub open spec fn cut_nodes(nodes: Seq<ShortCircuitNode>, cut: usize, n: nat) -> Option<Seq<ShortCircuitNode>>
    decreases n,
{
    if n == 0 {
        Some(Seq::empty())
    } else {
        match (cut_nodes(nodes, cut, (n - 1) as nat), cut_node(nodes[n - 1], cut)) {
            (Some(rest), Some(node)) => Some(rest.push(node)),
            _ => None,
        }
    }
}

pub open spec fn headers_in(nodes: Seq<ShortCircuitNode>) -> Set<BlockRef> {
    Set::new(|b: BlockRef| exists|i: int| 0 <= i < nodes.len() && (#[trigger] nodes[i]).header == b)
}

/// The condition up to a node: reaching that node is its true exit.
pub open spec fn truncated(s: ShortModel, cut: usize) -> Option<ShortModel> {
    match s.exit {
        ShortCircuitExit::BranchExit { falsy, .. } => match cut_nodes(s.nodes, cut, cut as nat) {
            Some(nodes) => if exists|i: int| 0 <= i < cut && leads_to_cut(#[trigger] s.nodes[i], cut) {
                Some(
                    ShortModel {
                        header: s.header,
                        blocks: headers_in(nodes),
                        entry: s.entry,
                        nodes,
                        exit: ShortCircuitExit::BranchExit { truthy: s.nodes[cut as int].header, falsy },
                        result_reg: None,
                        result_phi_id: None,
                        entry_value: None,
                        value_incomings: Seq::empty(),
                        reducible: true,
                    },
                )
            } else {
                None
            },
            None => None,
        },
        ShortCircuitExit::ValueMerge(_) => None,
    }
}

/// The condition as far as it is safe: up to the first node behind the first that cannot be
/// part of it.
pub open spec fn safe_part(cfg: &Cfg, dataflow: &DataflowFacts, s: ShortModel) -> Option<ShortModel> {
    let n = if s.nodes.len() == 0 {
        0
    } else {
        (s.nodes.len() - 1) as nat
    };
    match first_where(n, cuts(cfg, dataflow, s)) {
        Some(k) => truncated(s, (k + 1) as usize),
        None => Some(s),
    }
}

/// The number of a value: definitions first, then phis.
pub open spec fn value_node(v: SsaValue, defs: nat) -> usize {
    match v {
        SsaValue::Def(d) => d.0,
        SsaValue::Phi(p) => (defs + p.0) as usize,
        SsaValue::Entry(_) => 0,
    }
}

pub open spec fn node_value(n: usize, defs: nat) -> SsaValue {
    if n < defs {
        SsaValue::Def(DefId(n))
    } else {
        SsaValue::Phi(PhiId((n - defs) as usize))
    }
}

/// From which values each value is made, by number.
pub struct ConditionSafetyWorkspace {
    rows: Vec<Vec<usize>>,
}

impl ConditionSafetyWorkspace {
    pub closed spec fn describes(&self, dataflow: &DataflowFacts) -> bool {
        let defs = dataflow.defs@.len();
        &&& defs + dataflow.phi_candidates@.len() <= usize::MAX
        &&& self.rows@.len() == defs + dataflow.phi_candidates@.len()
        &&& forall|a: int, k: int| 0 <= a < self.rows@.len() && 0 <= k < self.rows@[a]@.len() ==> (#[trigger] self.rows@[a]@[k]) < self.rows@.len()
        &&& forall|a: usize, b: usize|
            a < self.rows@.len() ==> (#[trigger] self.rows@[a as int]@.contains(b) <==> b < self.rows@.len() && made_from(dataflow)(
                node_value(a, defs),
                node_value(b, defs),
            ))
    }

    pub fn new(cfg: &Cfg, dataflow: &DataflowFacts) -> (r: Self)
        requires
            values_known(cfg, dataflow),
            dataflow.defs@.len() + dataflow.phi_candidates@.len() <= usize::MAX,
        ensures
            r.describes(dataflow),
    {
        let defs = dataflow.defs.len();
        let phis = dataflow.phi_candidates.len();
        let total = defs + phis;
        let mut rows: Vec<Vec<usize>> = Vec::new();
        let mut a: usize = 0;
        while a < total
            invariant
                values_known(cfg, dataflow),
                defs == dataflow.defs@.len(),
                phis == dataflow.phi_candidates@.len(),
                total == defs + phis,
                a <= total,
                rows@.len() == a,
                forall|x: int, k: int| 0 <= x < a && 0 <= k < rows@[x]@.len() ==> (#[trigger] rows@[x]@[k]) < total,
                forall|x: usize, y: usize|
                    x < a ==> (#[trigger] rows@[x as int]@.contains(y) <==> y < total && made_from(dataflow)(
                        node_value(x, defs as nat),
                        node_value(y, defs as nat),
                    )),
            decreases total - a,
        {
            let row = if a < defs {
                let at = dataflow.defs[a].instr.0;
                assert(dataflow.defs@[a as int].instr.0 < dataflow.use_values@.len());
                read_nodes(cfg, dataflow, at)
            } else {
                incoming_nodes(cfg, dataflow, a - defs)
            };
            let ghost before = rows@;
            rows.push(row);
            proof {
                assert forall|x: usize, y: usize| x < a + 1 implies (#[trigger] rows@[x as int]@.contains(y) <==> y < total && made_from(
                    dataflow,
                )(node_value(x, defs as nat), node_value(y, defs as nat))) by {
                    if x < a {
                        assert(before[x as int]@.contains(y) <==> y < total && made_from(dataflow)(
                            node_value(x, defs as nat),
                            node_value(y, defs as nat),
                        ));
                    }
                }
            }
            a = a + 1;
        }
        ConditionSafetyWorkspace { rows }
    }

    /// The instructions from whose definitions what instruction `q` reads is made.
    fn needed(&self, cfg: &Cfg, dataflow: &DataflowFacts, q: usize) -> (r: Vec<bool>)
        requires
            values_known(cfg, dataflow),
            self.describes(dataflow),
            q < dataflow.use_values@.len(),
        ensures
            r@.len() == dataflow.use_values@.len(),
            forall|i: int| 0 <= i < r@.len() ==> #[trigger] r@[i] == needs_instr(dataflow, q as int, i),
    {
        let ghost defs = dataflow.defs@.len();
        let starts = read_nodes(cfg, dataflow, q);
        let seen = close(&self.rows, &starts);
        let total = dataflow.use_values.len();
        let mut r: Vec<bool> = vec![false; total];
        let n = dataflow.defs.len();
        let mut d: usize = 0;
        while d < n
            invariant
                values_known(cfg, dataflow),
                n == dataflow.defs@.len(),
                n <= seen@.len(),
                total == dataflow.use_values@.len(),
                r@.len() == total,
                d <= n,
                forall|i: int| 0 <= i < total && #[trigger] r@[i] ==> marked(dataflow, seen@, d as int, i),
                forall|k: int| 0 <= k < d && seen@[k] ==> r@[(#[trigger] dataflow.defs@[k]).instr.0 as int],
            decreases n - d,
        {
            let at = dataflow.defs[d].instr.0;
            assert(dataflow.defs@[d as int].instr.0 < total);
            let ghost before = r@;
            if seen[d] {
                r[at] = true;
            }
            proof {
                assert forall|i: int| 0 <= i < total && #[trigger] r@[i] implies marked(dataflow, seen@, d as int + 1, i) by {
                    if before[i] {
                        assert(marked(dataflow, seen@, d as int, i));
                        let k = choose|k: int| 0 <= k < d && seen@[k] && (#[trigger] dataflow.defs@[k]).instr.0 == i;
                        assert(0 <= k < d + 1 && seen@[k] && dataflow.defs@[k].instr.0 == i);
                    } else {
                        assert(seen@[d as int] && dataflow.defs@[d as int].instr.0 == i);
                    }
                }
            }
            d = d + 1;
        }
        proof {
            assert forall|i: int| 0 <= i < total implies #[trigger] r@[i] == needs_instr(dataflow, q as int, i) by {
                if r@[i] {
                    assert(marked(dataflow, seen@, n as int, i));
                    let k = choose|k: int| 0 <= k < n && seen@[k] && (#[trigger] dataflow.defs@[k]).instr.0 == i;
                    self.seen_is_built_on(cfg, dataflow, q as int, starts@, seen@, k as usize);
                    let root = choose|root: SsaValue| #[trigger] builds_on(dataflow, q as int, root, DefId(k as usize));
                    assert(builds_on(dataflow, q as int, root, DefId(k as usize)));
                }
                if needs_instr(dataflow, q as int, i) {
                    let (root, d) = choose|root: SsaValue, d: DefId|
                        d.0 < dataflow.defs@.len() && dataflow.defs@[d.0 as int].instr.0 == i && #[trigger] builds_on(
                            dataflow,
                            q as int,
                            root,
                            d,
                        );
                    assert(d == DefId(d.0));
                    self.seen_is_built_on(cfg, dataflow, q as int, starts@, seen@, d.0);
                    assert(seen@[d.0 as int]);
                    assert(r@[dataflow.defs@[d.0 as int].instr.0 as int]);
                }
            }
        }
        r
    }

    proof fn seen_is_built_on(
        &self,
        cfg: &Cfg,
        dataflow: &DataflowFacts,
        q: int,
        starts: Seq<usize>,
        seen: Seq<bool>,
        d: usize,
    )
        requires
            values_known(cfg, dataflow),
            self.describes(dataflow),
            0 <= q < dataflow.use_values@.len(),
            d < dataflow.defs@.len(),
            seen.len() == self.rows@.len(),
            forall|b: usize| #[trigger] flagged(seen).contains(b) <==> closes_to(self.rows@, starts, b),
            forall|b: usize| #[trigger] starts.contains(b) <==> b < self.rows@.len() && reads_value(
                dataflow,
                q,
                node_value(b, dataflow.defs@.len()),
            ),
        ensures
            seen[d as int] <==> exists|root: SsaValue| #[trigger] builds_on(dataflow, q, root, DefId(d)),
    {
        let defs = dataflow.defs@.len();
        let step = made_from(dataflow);
        let adj = adjacent(self.rows@);
        let to_value = |n: usize| node_value(n, defs);
        let to_node = |v: SsaValue| value_node(v, defs);
        assert(flagged(seen).contains(d) == seen[d as int]);
        assert forall|x: usize, y: usize| #[trigger] adj(x, y) implies step(to_value(x), to_value(y)) by {
            assert(self.rows@[x as int]@.contains(y));
        }
        assert forall|v: SsaValue, w: SsaValue| #[trigger] step(v, w) implies adj(to_node(v), to_node(w)) by {
            made_from_known(cfg, dataflow, v, w);
            assert(node_value(to_node(v), defs) == v);
            assert(node_value(to_node(w), defs) == w);
            assert(self.rows@[to_node(v) as int]@.contains(to_node(w)));
        }
        if seen[d as int] {
            let k = choose|k: int| 0 <= k < starts.len() && reaches(adj, #[trigger] starts[k], d);
            assert(starts.contains(starts[k]));
            reaches_mapped(adj, step, to_value, starts[k], d);
            assert(builds_on(dataflow, q, node_value(starts[k], defs), DefId(d)));
        }
        if exists|root: SsaValue| #[trigger] builds_on(dataflow, q, root, DefId(d)) {
            let root = choose|root: SsaValue| #[trigger] builds_on(dataflow, q, root, DefId(d));
            reaches_mapped(step, adj, to_node, root, SsaValue::Def(DefId(d)));
            if root is Entry {
                if root != SsaValue::Def(DefId(d)) {
                    let x = reaches_first_step(step, root, SsaValue::Def(DefId(d)));
                    assert(step(root, x));
                }
            } else {
                read_known(cfg, dataflow, q, root);
                assert(node_value(to_node(root), defs) == root);
                assert(starts.contains(to_node(root)));
                let k = starts.index_of(to_node(root));
                assert(starts[k] == to_node(root));
            }
        }
    }

    /// Whether the block has an effect before its condition that the condition does not need.
    pub fn block_has_unabsorbed_effects(&self, cfg: &Cfg, dataflow: &DataflowFacts, block: BlockRef) -> (r: bool)
        requires
            values_known(cfg, dataflow),
            self.describes(dataflow),
            cfg.has_block(block),
        ensures
            r == has_unabsorbed(cfg, dataflow, block),
    {
        proof {
            range_fits(cfg, block);
        }
        let range = cfg.blocks[block.0].instrs;
        if range.len == 0 {
            return true;
        }
        let last = range.end() - 1;
        let needed = self.needed(cfg, dataflow, last);
        let mut i: usize = range.start.0;
        while i < last
            invariant
                values_known(cfg, dataflow),
                range == cfg.range(block),
                range.len > 0,
                last == range.end_at() - 1,
                range.end_at() <= dataflow.use_values@.len(),
                needed@.len() == dataflow.use_values@.len(),
                forall|k: int| 0 <= k < needed@.len() ==> #[trigger] needed@[k] == needs_instr(dataflow, last as int, k),
                range.start.0 <= i <= last,
                forall|k: int|
                    range.start.0 <= k < i && (#[trigger] dataflow.effect_summaries@[k]).tags@.len() > 0 ==> needs_instr(
                        dataflow,
                        last as int,
                        k,
                    ),
            decreases last - i,
        {
            if dataflow.effect_summaries[i].tags.len() > 0 && !needed[i] {
                assert(dataflow.effect_summaries@[i as int].tags@.len() > 0);
                return true;
            }
            i = i + 1;
        }
        false
    }

    /// The condition as far as it is safe.
    pub fn safe_condition_candidate(
        &self,
        cfg: &Cfg,
        dataflow: &DataflowFacts,
        candidate: &ShortCircuitCandidate,
    ) -> (r: Option<
        ShortCircuitCandidate,
    >)
        requires
            values_known(cfg, dataflow),
            self.describes(dataflow),
            short_known(cfg, candidate),
        ensures
            match safe_part(cfg, dataflow, candidate@) {
                Some(s) => r is Some && (r->0)@ == s,
                None => r is None,
            },
            r is Some ==> short_known(cfg, &(r->0)),
    {
        let n = candidate.nodes.len();
        if n == 0 {
            return Some(copy_short(candidate));
        }
        let ghost f = cuts(cfg, dataflow, candidate@);
        let mut k: usize = 0;
        while k < n - 1
            invariant
                values_known(cfg, dataflow),
                self.describes(dataflow),
                short_known(cfg, candidate),
                n == candidate.nodes@.len(),
                n > 0,
                f == cuts(cfg, dataflow, candidate@),
                k <= n - 1,
                first_where(k as nat, f) is None,
            decreases n - k,
        {
            let header = candidate.nodes[k + 1].header;
            assert(cfg.has_block(candidate.nodes@[k + 1].header));
            if block_has_escaping_defs(cfg, dataflow, &candidate.blocks, header) || self.block_has_unabsorbed_effects(
                cfg,
                dataflow,
                header,
            ) {
                proof {
                    assert(f(k as int));
                    first_where_stable((k + 1) as nat, (n - 1) as nat, f);
                }
                return truncate_condition_at(cfg, candidate, k + 1);
            }
            assert(!f(k as int));
            k = k + 1;
        }
        Some(copy_short(candidate))
    }
}

spec fn marked(dataflow: &DataflowFacts, seen: Seq<bool>, n: int, i: int) -> bool {
    exists|k: int| 0 <= k < n && seen[k] && (#[trigger] dataflow.defs@[k]).instr.0 == i
}

pub proof fn read_known(cfg: &Cfg, dataflow: &DataflowFacts, i: int, v: SsaValue)
    requires
        values_known(cfg, dataflow),
        0 <= i < dataflow.use_values@.len(),
        reads_value(dataflow, i, v),
    ensures
        within(v, dataflow.phi_candidates@.len(), dataflow.defs@.len()),
{
    let k = choose|k: int| 0 <= k < dataflow.use_values@[i].fixed@.len() && (#[trigger] dataflow.use_values@[i].fixed@[k]).1 == v;
    assert(within(dataflow.use_values@[i].fixed@[k].1, dataflow.phi_candidates@.len(), dataflow.defs@.len()));
}

pub proof fn made_from_known(cfg: &Cfg, dataflow: &DataflowFacts, v: SsaValue, w: SsaValue)
    requires
        values_known(cfg, dataflow),
        made_from(dataflow)(v, w),
    ensures
        within(v, dataflow.phi_candidates@.len(), dataflow.defs@.len()),
        within(w, dataflow.phi_candidates@.len(), dataflow.defs@.len()),
        !(v is Entry),
        !(w is Entry),
{
    match v {
        SsaValue::Def(d) => {
            assert(dataflow.defs@[d.0 as int].instr.0 < dataflow.use_values@.len());
            read_known(cfg, dataflow, dataflow.defs@[d.0 as int].instr.0 as int, w);
        },
        SsaValue::Phi(p) => {
            let k = choose|k: int|
                0 <= k < dataflow.phi_candidates@[p.0 as int].incoming@.len() && (
                #[trigger] dataflow.phi_candidates@[p.0 as int].incoming@[k]).value == w;
            assert(within(
                dataflow.phi_candidates@[p.0 as int].incoming@[k].value,
                dataflow.phi_candidates@.len(),
                dataflow.defs@.len(),
            ));
        },
        SsaValue::Entry(_) => {},
    }
}

/// The numbers of the values that instruction `i` reads.
pub fn read_nodes(cfg: &Cfg, dataflow: &DataflowFacts, i: usize) -> (row: Vec<usize>)
    requires
        values_known(cfg, dataflow),
        dataflow.defs@.len() + dataflow.phi_candidates@.len() <= usize::MAX,
        i < dataflow.use_values@.len(),
    ensures
        forall|b: usize| #[trigger] row@.contains(b) <==> b < dataflow.defs@.len() + dataflow.phi_candidates@.len() && reads_value(
            dataflow,
            i as int,
            node_value(b, dataflow.defs@.len()),
        ),
        forall|k: int| 0 <= k < row@.len() ==> (#[trigger] row@[k]) < dataflow.defs@.len() + dataflow.phi_candidates@.len(),
{
    let defs = dataflow.defs.len();
    let ghost phis = dataflow.phi_candidates@.len();
    let n = dataflow.use_values[i].fixed.len();
    let ghost reads = dataflow.use_values@[i as int].fixed@;
    let mut row: Vec<usize> = Vec::new();
    let mut k: usize = 0;
    while k < n
        invariant
            values_known(cfg, dataflow),
            defs == dataflow.defs@.len(),
            phis == dataflow.phi_candidates@.len(),
            defs + phis <= usize::MAX,
            i < dataflow.use_values@.len(),
            reads == dataflow.use_values@[i as int].fixed@,
            n == reads.len(),
            k <= n,
            forall|q: int| 0 <= q < row@.len() ==> (#[trigger] row@[q]) < defs + phis && reads_value(
                dataflow,
                i as int,
                node_value(row@[q], defs as nat),
            ),
            forall|q: int| 0 <= q < k && !((#[trigger] reads[q]).1 is Entry) ==> row@.contains(value_node(reads[q].1, defs as nat)),
        decreases n - k,
    {
        let (_, v) = dataflow.use_values[i].fixed.entry(k);
        assert(within(dataflow.use_values@[i as int].fixed@[k as int].1, phis, defs as nat));
        let ghost had = row@;
        match v {
            SsaValue::Entry(_) => {},
            SsaValue::Def(d) => {
                row.push(d.0);
                assert(node_value(d.0, defs as nat) == v);
            },
            SsaValue::Phi(p) => {
                row.push(defs + p.0);
                assert(node_value((defs + p.0) as usize, defs as nat) == v);
            },
        }
        proof {
            assert(reads_value(dataflow, i as int, v));
            assert forall|q: int| 0 <= q < k + 1 && !((#[trigger] reads[q]).1 is Entry) implies row@.contains(
                value_node(reads[q].1, defs as nat),
            ) by {
                let x = value_node(reads[q].1, defs as nat);
                if q < k {
                    assert(had.contains(x));
                    assert(row@[had.index_of(x)] == x);
                } else {
                    assert(row@[row@.len() - 1] == x);
                }
            }
        }
        k = k + 1;
    }
    proof {
        assert forall|b: usize| #[trigger] row@.contains(b) <==> b < defs + phis && reads_value(
            dataflow,
            i as int,
            node_value(b, defs as nat),
        ) by {
            if b < defs + phis && reads_value(dataflow, i as int, node_value(b, defs as nat)) {
                let q = choose|q: int| 0 <= q < reads.len() && (#[trigger] reads[q]).1 == node_value(b, defs as nat);
                assert(value_node(reads[q].1, defs as nat) == b);
            }
        }
    }
    row
}

/// The numbers of the values that flow into phi `p`.
pub fn incoming_nodes(cfg: &Cfg, dataflow: &DataflowFacts, p: usize) -> (row: Vec<usize>)
    requires
        values_known(cfg, dataflow),
        dataflow.defs@.len() + dataflow.phi_candidates@.len() <= usize::MAX,
        p < dataflow.phi_candidates@.len(),
    ensures
        forall|b: usize| #[trigger] row@.contains(b) <==> b < dataflow.defs@.len() + dataflow.phi_candidates@.len() && made_from(dataflow)(
            SsaValue::Phi(PhiId(p)),
            node_value(b, dataflow.defs@.len()),
        ),
        forall|k: int| 0 <= k < row@.len() ==> (#[trigger] row@[k]) < dataflow.defs@.len() + dataflow.phi_candidates@.len(),
{
    let defs = dataflow.defs.len();
    let ghost phis = dataflow.phi_candidates@.len();
    let n = dataflow.phi_candidates[p].incoming.len();
    let ghost list = dataflow.phi_candidates@[p as int].incoming@;
    let ghost own = SsaValue::Phi(PhiId(p));
    let mut row: Vec<usize> = Vec::new();
    let mut k: usize = 0;
    while k < n
        invariant
            values_known(cfg, dataflow),
            defs == dataflow.defs@.len(),
            phis == dataflow.phi_candidates@.len(),
            defs + phis <= usize::MAX,
            p < phis,
            own == SsaValue::Phi(PhiId(p)),
            list == dataflow.phi_candidates@[p as int].incoming@,
            n == list.len(),
            k <= n,
            forall|q: int| 0 <= q < row@.len() ==> (#[trigger] row@[q]) < defs + phis && made_from(dataflow)(
                own,
                node_value(row@[q], defs as nat),
            ),
            forall|q: int|
                0 <= q < k && !((#[trigger] list[q]).value is Entry) ==> row@.contains(value_node(list[q].value, defs as nat)),
        decreases n - k,
    {
        let v = dataflow.phi_candidates[p].incoming[k].value;
        assert(within(dataflow.phi_candidates@[p as int].incoming@[k as int].value, phis, defs as nat));
        let ghost had = row@;
        match v {
            SsaValue::Entry(_) => {},
            SsaValue::Def(d) => {
                row.push(d.0);
                assert(node_value(d.0, defs as nat) == v);
            },
            SsaValue::Phi(x) => {
                row.push(defs + x.0);
                assert(node_value((defs + x.0) as usize, defs as nat) == v);
            },
        }
        proof {
            assert(list[k as int].value == v);
            if !(v is Entry) {
                assert(made_from(dataflow)(own, v));
            }
            assert forall|q: int| 0 <= q < k + 1 && !((#[trigger] list[q]).value is Entry) implies row@.contains(
                value_node(list[q].value, defs as nat),
            ) by {
                let x = value_node(list[q].value, defs as nat);
                if q < k {
                    assert(had.contains(x));
                    assert(row@[had.index_of(x)] == x);
                } else {
                    assert(row@[row@.len() - 1] == x);
                }
            }
        }
        k = k + 1;
    }
    proof {
        assert forall|b: usize| #[trigger] row@.contains(b) <==> b < defs + phis && made_from(dataflow)(
            own,
            node_value(b, defs as nat),
        ) by {
            if b < defs + phis && made_from(dataflow)(own, node_value(b, defs as nat)) {
                let q = choose|q: int| 0 <= q < list.len() && (#[trigger] list[q]).value == node_value(b, defs as nat);
                assert(value_node(list[q].value, defs as nat) == b);
            }
        }
    }
    row
}

/// Whether the block makes a definition that is used outside of the expression.
pub fn block_has_escaping_defs(cfg: &Cfg, dataflow: &DataflowFacts, allowed: &IdSet<BlockRef>, block: BlockRef) -> (r: bool)
    requires
        values_known(cfg, dataflow),
        cfg.has_block(block),
    ensures
        r == has_escaping(cfg, dataflow, allowed@, block),
{
    proof {
        range_fits(cfg, block);
    }
    let range = cfg.blocks[block.0].instrs;
    let end = range.end();
    let mut i: usize = range.start.0;
    while i < end
        invariant
            values_known(cfg, dataflow),
            range == cfg.range(block),
            end == range.end_at(),
            range.len > 0 ==> end <= dataflow.instr_defs@.len(),
            range.start.0 <= i <= end,
            forall|q: int, k: int|
                range.start.0 <= q < i ==> !#[trigger] lets_escape(cfg, dataflow, allowed@, q, k),
        decreases end - i,
    {
        let n = dataflow.instr_defs[i].len();
        let mut k: usize = 0;
        while k < n
            invariant
                values_known(cfg, dataflow),
                i < dataflow.instr_defs@.len(),
                range == cfg.range(block),
                range.start.0 <= i < range.end_at(),
                n == dataflow.instr_defs@[i as int]@.len(),
                k <= n,
                forall|q: int| 0 <= q < k ==> !#[trigger] lets_escape(cfg, dataflow, allowed@, i as int, q),
            decreases n - k,
        {
            if dataflow.def_has_use_outside(cfg, dataflow.instr_defs[i][k], allowed) {
                assert(lets_escape(cfg, dataflow, allowed@, i as int, k as int));
                return true;
            }
            k = k + 1;
        }
        i = i + 1;
    }
    false
}

fn cut_one(t: ShortCircuitTarget, cut: usize) -> (r: Option<ShortCircuitTarget>)
    ensures
        r == cut_target(t, cut),
{
    match t {
        ShortCircuitTarget::TruthyExit => None,
        ShortCircuitTarget::Node(n) => if n.0 == cut {
            Some(ShortCircuitTarget::TruthyExit)
        } else if n.0 > cut {
            None
        } else {
            Some(t)
        },
        _ => Some(t),
    }
}

/// Cuts a condition off at a node.
pub fn truncate_condition_at(
    cfg: &Cfg,
    condition: &ShortCircuitCandidate,
    cut_index: usize,
) -> (r: Option<ShortCircuitCandidate>)
    requires
        cut_index < condition.nodes@.len(),
        short_known(cfg, condition),
    ensures
        match truncated(condition@, cut_index) {
            Some(s) => r is Some && (r->0)@ == s,
            None => r is None,
        },
        r is Some ==> short_known(cfg, &(r->0)),
{
    let falsy = match condition.exit {
        ShortCircuitExit::BranchExit { falsy, .. } => falsy,
        ShortCircuitExit::ValueMerge(_) => {
            return None;
        },
    };
    let cut_header = condition.nodes[cut_index].header;
    let mut nodes: Vec<ShortCircuitNode> = Vec::new();
    let mut blocks: IdSet<BlockRef> = IdSet::new();
    let mut replaced = false;
    let mut i: usize = 0;
    assert(blocks@ =~= headers_in(nodes@));
    while i < cut_index
        invariant
            cut_index < condition.nodes@.len(),
            short_known(cfg, condition),
            condition.exit is BranchExit,
            i <= cut_index,
            cut_nodes(condition.nodes@, cut_index, i as nat) == Some(nodes@),
            nodes@.len() == i,
            forall|k: int| 0 <= k < i ==> cfg.has_block((#[trigger] nodes@[k]).header),
            blocks@ =~= headers_in(nodes@),
            replaced == exists|k: int| 0 <= k < i && leads_to_cut(#[trigger] condition.nodes@[k], cut_index),
        decreases cut_index - i,
    {
        let node = condition.nodes[i];
        assert(cfg.has_block(condition.nodes@[i as int].header));
        let ghost before = nodes@;
        let ghost had = blocks@;
        match (cut_one(node.truthy, cut_index), cut_one(node.falsy, cut_index)) {
            (Some(truthy), Some(falsy)) => {
                let target = ShortCircuitTarget::Node(ShortCircuitNodeRef(cut_index));
                if node.truthy == target || node.falsy == target {
                    assert(leads_to_cut(condition.nodes@[i as int], cut_index));
                    replaced = true;
                }
                nodes.push(ShortCircuitNode { id: node.id, header: node.header, truthy, falsy });
                let _ = blocks.insert(node.header);
                proof {
                    assert forall|b: BlockRef| #[trigger] blocks@.contains(b) <==> headers_in(nodes@).contains(b) by {
                        assert(had.contains(b) <==> headers_in(before).contains(b));
                        if headers_in(before).contains(b) {
                            let k = choose|k: int| 0 <= k < before.len() && (#[trigger] before[k]).header == b;
                            assert(nodes@[k].header == b);
                        }
                        if b == node.header {
                            assert(nodes@[i as int].header == b);
                        }
                        if headers_in(nodes@).contains(b) {
                            let k = choose|k: int| 0 <= k < nodes@.len() && (#[trigger] nodes@[k]).header == b;
                            if k < i {
                                assert(before[k].header == b);
                            }
                        }
                    }
                }
            },
            _ => {
                proof {
                    assert(cut_nodes(condition.nodes@, cut_index, (i + 1) as nat) is None);
                    cut_stops(condition.nodes@, cut_index, (i + 1) as nat, cut_index as nat);
                }
                return None;
            },
        }
        i = i + 1;
    }
    if !replaced {
        return None;
    }
    let r = ShortCircuitCandidate {
        header: condition.header,
        blocks,
        entry: condition.entry,
        nodes,
        exit: ShortCircuitExit::BranchExit { truthy: cut_header, falsy },
        result_reg: None,
        result_phi_id: None,
        entry_value: None,
        value_incomings: Vec::new(),
        reducible: true,
    };
    assert(r.value_incomings@ =~= Seq::empty());
    Some(r)
}

proof fn cut_stops(nodes: Seq<ShortCircuitNode>, cut: usize, m: nat, n: nat)
    requires
        m <= n,
        cut_nodes(nodes, cut, m) is None,
    ensures
        cut_nodes(nodes, cut, n) is None,
    decreases n,
{
    if m < n {
        cut_stops(nodes, cut, m, (n - 1) as nat);
    }
}

} // verus!
