//! Short-circuit expressions that yield a value: which of them hold everything that they
//! compute.

use vstd::prelude::*;

use crate::cfg::Cfg;
use crate::collapse::within;
use crate::condition_arcs::ShortModel;
use crate::condition_safety::{
    incoming_nodes, made_from, made_from_known, node_value, read_nodes, reads_value, value_node, values_known,
};
use crate::dataflow::{feeds, is_needed, row_used_outside, used_outside, DataflowFacts, DefId, PhiId, SsaValue};
use crate::dense::{adjacent, close, closes_to, flagged};
use crate::evidence::{
    GotoReason, GotoRequirement, LoopCandidate, ShortCircuitCandidate, ShortCircuitExit, ShortCircuitNode,
};
use crate::ids::{BlockRef, EdgeRef};
use crate::idset::IdSet;
use crate::lir::{LowInstr, LoweredProto};
use crate::loop_values::{loop_models, LoopModel};
use crate::tracks::range_fits;
use crate::walk::{reaches, reaches_first_step, reaches_mapped, reaches_monotone};

verus! {

/// What the choice of value decisions reads.
pub struct ValueDecisionContext<'a> {
    pub proto: &'a LoweredProto,
    pub cfg: &'a Cfg,
    pub dataflow: &'a DataflowFacts,
    pub loops: &'a Vec<LoopCandidate>,
    pub residual_transfers: &'a Vec<GotoRequirement>,
}

/// Way `k` into phi `p` comes over an edge out of the region.
pub open spec fn comes_from(cfg: &Cfg, dataflow: &DataflowFacts, s: Set<BlockRef>, p: int, k: int) -> bool {
    match dataflow.phi_candidates@[p].incoming@[k].edge {
        Some(e) => cfg.has_edge(e) && s.contains(cfg.edge(e).from),
        None => false,
    }
}

/// The phi lies in the region and takes everything from there.
pub open spec fn fed_inside(cfg: &Cfg, dataflow: &DataflowFacts, s: Set<BlockRef>, p: int) -> bool {
    s.contains(dataflow.phi_candidates@[p].block) && forall|k: int|
        0 <= k < dataflow.phi_candidates@[p].incoming@.len() ==> #[trigger] comes_from(cfg, dataflow, s, p, k)
}

/// What the value is made from counts for the region.
pub open spec fn opens_up(cfg: &Cfg, dataflow: &DataflowFacts, s: Set<BlockRef>, v: SsaValue) -> bool {
    match v {
        SsaValue::Def(d) => d.0 < dataflow.defs@.len() && s.contains(dataflow.defs@[d.0 as int].block),
        SsaValue::Phi(p) => p.0 < dataflow.phi_candidates@.len() && fed_inside(cfg, dataflow, s, p.0 as int),
        SsaValue::Entry(_) => false,
    }
}

/// `v` is made from `w` inside the region.
pub open spec fn made_inside(cfg: &Cfg, dataflow: &DataflowFacts, s: Set<BlockRef>) -> spec_fn(SsaValue, SsaValue) -> bool {
    |v: SsaValue, w: SsaValue| opens_up(cfg, dataflow, s, v) && made_from(dataflow)(v, w)
}

/// One of the roots is made, inside the region, from definition `d` there.
pub open spec fn rests_on(cfg: &Cfg, dataflow: &DataflowFacts, s: Set<BlockRef>, root: SsaValue, d: DefId) -> bool {
    d.0 < dataflow.defs@.len() && s.contains(dataflow.defs@[d.0 as int].block) && reaches(
        made_inside(cfg, dataflow, s),
        root,
        SsaValue::Def(d),
    )
}

/// One of the roots needs instruction `i` of the region.
pub open spec fn needed_for(cfg: &Cfg, dataflow: &DataflowFacts, s: Set<BlockRef>, roots: Set<SsaValue>, i: int) -> bool {
    exists|root: SsaValue, d: DefId|
        roots.contains(root) && #[trigger] rests_on(cfg, dataflow, s, root, d) && dataflow.defs@[d.0 as int].instr.0 == i
}

/// The number of a value among definitions and phis, for the values of a list.
fn number_roots(cfg: &Cfg, dataflow: &DataflowFacts, roots: &Vec<SsaValue>) -> (starts: Vec<usize>)
    requires
        values_known(cfg, dataflow),
        dataflow.defs@.len() + dataflow.phi_candidates@.len() <= usize::MAX,
        forall|k: int| 0 <= k < roots@.len() ==> within(#[trigger] roots@[k], dataflow.phi_candidates@.len(), dataflow.defs@.len()),
    ensures
        forall|b: usize| #[trigger] starts@.contains(b) <==> b < dataflow.defs@.len() + dataflow.phi_candidates@.len()
            && roots@.contains(node_value(b, dataflow.defs@.len())),
        forall|k: int| 0 <= k < starts@.len() ==> (#[trigger] starts@[k]) < dataflow.defs@.len() + dataflow.phi_candidates@.len(),
{
    let defs = dataflow.defs.len();
    let ghost phis = dataflow.phi_candidates@.len();
    let n = roots.len();
    let mut starts: Vec<usize> = Vec::new();
    let mut k: usize = 0;
    while k < n
        invariant
            defs == dataflow.defs@.len(),
            phis == dataflow.phi_candidates@.len(),
            defs + phis <= usize::MAX,
            n == roots@.len(),
            forall|q: int| 0 <= q < roots@.len() ==> within(#[trigger] roots@[q], phis, defs as nat),
            k <= n,
            forall|q: int| 0 <= q < starts@.len() ==> (#[trigger] starts@[q]) < defs + phis && roots@.contains(
                node_value(starts@[q], defs as nat),
            ),
            forall|q: int| 0 <= q < k && !((#[trigger] roots@[q]) is Entry) ==> starts@.contains(value_node(roots@[q], defs as nat)),
        decreases n - k,
    {
        let v = roots[k];
        assert(within(roots@[k as int], phis, defs as nat));
        assert(roots@.contains(v));
        let ghost had = starts@;
        match v {
            SsaValue::Entry(_) => {},
            SsaValue::Def(d) => {
                starts.push(d.0);
                assert(node_value(d.0, defs as nat) == v);
            },
            SsaValue::Phi(p) => {
                starts.push(defs + p.0);
                assert(node_value((defs + p.0) as usize, defs as nat) == v);
            },
        }
        proof {
            assert forall|q: int| 0 <= q < k + 1 && !((#[trigger] roots@[q]) is Entry) implies starts@.contains(
                value_node(roots@[q], defs as nat),
            ) by {
                let x = value_node(roots@[q], defs as nat);
                if q < k {
                    assert(had.contains(x));
                    assert(starts@[had.index_of(x)] == x);
                } else {
                    assert(starts@[starts@.len() - 1] == x);
                }
            }
        }
        k = k + 1;
    }
    proof {
        assert forall|b: usize| #[trigger] starts@.contains(b) <==> b < defs + phis && roots@.contains(node_value(b, defs as nat)) by {
            if b < defs + phis && roots@.contains(node_value(b, defs as nat)) {
                let q = roots@.index_of(node_value(b, defs as nat));
                assert(value_node(roots@[q], defs as nat) == b);
            }
        }
    }
    starts
}

fn check_fed_inside(cfg: &Cfg, dataflow: &DataflowFacts, s: &IdSet<BlockRef>, p: usize) -> (r: bool)
    requires
        p < dataflow.phi_candidates@.len(),
    ensures
        r == fed_inside(cfg, dataflow, s@, p as int),
{
    let phi = &dataflow.phi_candidates[p];
    if !s.contains(phi.block) {
        return false;
    }
    let n = phi.incoming.len();
    let mut k: usize = 0;
    while k < n
        invariant
            p < dataflow.phi_candidates@.len(),
            *phi == dataflow.phi_candidates@[p as int],
            n == phi.incoming@.len(),
            k <= n,
            forall|q: int| 0 <= q < k ==> #[trigger] comes_from(cfg, dataflow, s@, p as int, q),
        decreases n - k,
    {
        let inside = match phi.incoming[k].edge {
            Some(e) => e.0 < cfg.edges.len() && s.contains(cfg.edges[e.0].from),
            None => false,
        };
        assert(inside == comes_from(cfg, dataflow, s@, p as int, k as int));
        if !inside {
            return false;
        }
        k = k + 1;
    }
    true
}

/// From which values each value is made inside the region, by number.
fn inner_rows(cfg: &Cfg, dataflow: &DataflowFacts, s: &IdSet<BlockRef>) -> (rows: Vec<Vec<usize>>)
    requires
        values_known(cfg, dataflow),
        dataflow.defs@.len() + dataflow.phi_candidates@.len() <= usize::MAX,
    ensures
        rows@.len() == dataflow.defs@.len() + dataflow.phi_candidates@.len(),
        forall|a: int, k: int| 0 <= a < rows@.len() && 0 <= k < rows@[a]@.len() ==> (#[trigger] rows@[a]@[k]) < rows@.len(),
        forall|a: usize, b: usize|
            a < rows@.len() ==> (#[trigger] rows@[a as int]@.contains(b) <==> b < rows@.len() && made_inside(cfg, dataflow, s@)(
                node_value(a, dataflow.defs@.len()),
                node_value(b, dataflow.defs@.len()),
            )),
{
    let defs = dataflow.defs.len();
    let phis = dataflow.phi_candidates.len();
    let total = defs + phis;
    let mut rows: Vec<Vec<usize>> = Vec::new();
    let mut a: usize = 0;
    while a < total
        invariant
            values_known(cfg, dataflow),
            defs == dataflow.defs@.len(),
            phis == dataflow.phi_candidates@.len(),
            total == defs + phis,
            a <= total,
            rows@.len() == a,
            forall|x: int, k: int| 0 <= x < a && 0 <= k < rows@[x]@.len() ==> (#[trigger] rows@[x]@[k]) < total,
            forall|x: usize, y: usize|
                x < a ==> (#[trigger] rows@[x as int]@.contains(y) <==> y < total && made_inside(cfg, dataflow, s@)(
                    node_value(x, defs as nat),
                    node_value(y, defs as nat),
                )),
        decreases total - a,
    {
        let row = if a < defs {
            let at = dataflow.defs[a].instr.0;
            assert(dataflow.defs@[a as int].instr.0 < dataflow.use_values@.len());
            if s.contains(dataflow.defs[a].block) {
                read_nodes(cfg, dataflow, at)
            } else {
                Vec::new()
            }
        } else if check_fed_inside(cfg, dataflow, s, a - defs) {
            incoming_nodes(cfg, dataflow, a - defs)
        } else {
            Vec::new()
        };
        let ghost before = rows@;
        assert forall|y: usize| #[trigger] row@.contains(y) <==> y < total && made_inside(cfg, dataflow, s@)(
            node_value(a, defs as nat),
            node_value(y, defs as nat),
        ) by {}
        rows.push(row);
        proof {
            assert forall|x: usize, y: usize| x < a + 1 implies (#[trigger] rows@[x as int]@.contains(y) <==> y < total && made_inside(
                cfg,
                dataflow,
                s@,
            )(node_value(x, defs as nat), node_value(y, defs as nat))) by {
                if x < a {
                    assert(before[x as int]@.contains(y) <==> y < total && made_inside(cfg, dataflow, s@)(
                        node_value(x, defs as nat),
                        node_value(y, defs as nat),
                    ));
                }
            }
        }
        a = a + 1;
    }
    rows
}

/// Some root, of number `b`, needs a definition of number `d`.
proof fn closure_is_need(
    cfg: &Cfg,
    dataflow: &DataflowFacts,
    s: Set<BlockRef>,
    rows: Seq<Vec<usize>>,
    starts: Seq<usize>,
    roots: Set<SsaValue>,
    d: usize,
)
    requires
        values_known(cfg, dataflow),
        d < dataflow.defs@.len(),
        s.contains(dataflow.defs@[d as int].block),
        rows.len() == dataflow.defs@.len() + dataflow.phi_candidates@.len(),
        rows.len() <= usize::MAX,
        forall|a: usize, b: usize|
            a < rows.len() ==> (#[trigger] rows[a as int]@.contains(b) <==> b < rows.len() && made_inside(cfg, dataflow, s)(
                node_value(a, dataflow.defs@.len()),
                node_value(b, dataflow.defs@.len()),
            )),
        forall|b: usize| #[trigger] starts.contains(b) <==> b < rows.len() && roots.contains(node_value(b, dataflow.defs@.len())),
        forall|v: SsaValue| #[trigger] roots.contains(v) ==> within(v, dataflow.phi_candidates@.len(), dataflow.defs@.len()),
    ensures
        closes_to(rows, starts, d) <==> exists|root: SsaValue| roots.contains(root) && #[trigger] rests_on(cfg, dataflow, s, root, DefId(d)),
{
    let defs = dataflow.defs@.len();
    let step = made_inside(cfg, dataflow, s);
    let adj = adjacent(rows);
    let to_value = |n: usize| node_value(n, defs);
    let to_node = |v: SsaValue| value_node(v, defs);
    let goal = SsaValue::Def(DefId(d));
    assert forall|x: usize, y: usize| #[trigger] adj(x, y) implies step(to_value(x), to_value(y)) by {
        assert(rows[x as int]@.contains(y));
    }
    assert forall|v: SsaValue, w: SsaValue| #[trigger] step(v, w) implies adj(to_node(v), to_node(w)) by {
        made_from_known(cfg, dataflow, v, w);
        assert(node_value(to_node(v), defs) == v);
        assert(node_value(to_node(w), defs) == w);
        assert(rows[to_node(v) as int]@.contains(to_node(w)));
    }
    if closes_to(rows, starts, d) {
        let k = choose|k: int| 0 <= k < starts.len() && reaches(adj, #[trigger] starts[k], d);
        assert(starts.contains(starts[k]));
        reaches_mapped(adj, step, to_value, starts[k], d);
        assert(rests_on(cfg, dataflow, s, node_value(starts[k], defs), DefId(d)));
    }
    if exists|root: SsaValue| roots.contains(root) && #[trigger] rests_on(cfg, dataflow, s, root, DefId(d)) {
        let root = choose|root: SsaValue| roots.contains(root) && #[trigger] rests_on(cfg, dataflow, s, root, DefId(d));
        if root is Entry {
            let x = reaches_first_step(step, root, goal);
            assert(step(root, x));
        } else {
            reaches_mapped(step, adj, to_node, root, goal);
            assert(node_value(to_node(root), defs) == root);
            assert(starts.contains(to_node(root)));
            let k = starts.index_of(to_node(root));
            assert(starts[k] == to_node(root));
        }
    }
}

/// The instructions of the region that one of the roots needs.
fn mark_value_decision_dependencies(
    cfg: &Cfg,
    dataflow: &DataflowFacts,
    s: &IdSet<BlockRef>,
    rows: &Vec<Vec<usize>>,
    roots: &Vec<SsaValue>,
) -> (r: Vec<
    bool,
>)
    requires
        values_known(cfg, dataflow),
        dataflow.defs@.len() + dataflow.phi_candidates@.len() <= usize::MAX,
        rows@.len() == dataflow.defs@.len() + dataflow.phi_candidates@.len(),
        forall|a: int, k: int| 0 <= a < rows@.len() && 0 <= k < rows@[a]@.len() ==> (#[trigger] rows@[a]@[k]) < rows@.len(),
        forall|a: usize, b: usize|
            a < rows@.len() ==> (#[trigger] rows@[a as int]@.contains(b) <==> b < rows@.len() && made_inside(cfg, dataflow, s@)(
                node_value(a, dataflow.defs@.len()),
                node_value(b, dataflow.defs@.len()),
            )),
        forall|k: int| 0 <= k < roots@.len() ==> within(#[trigger] roots@[k], dataflow.phi_candidates@.len(), dataflow.defs@.len()),
    ensures
        r@.len() == dataflow.use_values@.len(),
        forall|i: int| 0 <= i < r@.len() ==> #[trigger] r@[i] == needed_for(cfg, dataflow, s@, roots@.to_set(), i),
{
    let starts = number_roots(cfg, dataflow, roots);
    let seen = close(rows, &starts);
    let total = dataflow.use_values.len();
    let n = dataflow.defs.len();
    let ghost set = roots@.to_set();
    let mut r: Vec<bool> = vec![false; total];
    proof {
        assert forall|v: SsaValue| #[trigger] set.contains(v) implies within(v, dataflow.phi_candidates@.len(), dataflow.defs@.len()) by {
            assert(roots@.contains(v));
            assert(roots@[roots@.index_of(v)] == v);
        }
        assert forall|b: usize| #[trigger] starts@.contains(b) <==> b < rows@.len() && set.contains(node_value(b, dataflow.defs@.len())) by {}
    }
    let mut d: usize = 0;
    while d < n
        invariant
            values_known(cfg, dataflow),
            dataflow.defs@.len() + dataflow.phi_candidates@.len() <= usize::MAX,
            n == dataflow.defs@.len(),
            rows@.len() == dataflow.defs@.len() + dataflow.phi_candidates@.len(),
            seen@.len() == rows@.len(),
            total == dataflow.use_values@.len(),
            r@.len() == total,
            set == roots@.to_set(),
            forall|a: usize, b: usize|
                a < rows@.len() ==> (#[trigger] rows@[a as int]@.contains(b) <==> b < rows@.len() && made_inside(cfg, dataflow, s@)(
                    node_value(a, dataflow.defs@.len()),
                    node_value(b, dataflow.defs@.len()),
                )),
            forall|b: usize| #[trigger] starts@.contains(b) <==> b < rows@.len() && set.contains(
                node_value(b, dataflow.defs@.len()),
            ),
            forall|v: SsaValue| #[trigger] set.contains(v) ==> within(v, dataflow.phi_candidates@.len(), dataflow.defs@.len()),
            forall|b: usize| #[trigger] flagged(seen@).contains(b) <==> closes_to(rows@, starts@, b),
            d <= n,
            forall|i: int| 0 <= i < total && #[trigger] r@[i] ==> needed_for(cfg, dataflow, s@, set, i),
            forall|root: SsaValue, x: DefId|
                x.0 < d && set.contains(root) && #[trigger] rests_on(cfg, dataflow, s@, root, x)
                    ==> r@[dataflow.defs@[x.0 as int].instr.0 as int],
        decreases n - d,
    {
        let at = dataflow.defs[d].instr.0;
        assert(dataflow.defs@[d as int].instr.0 < total);
        let ghost before = r@;
        assert(flagged(seen@).contains(d) == seen@[d as int]);
        if s.contains(dataflow.defs[d].block) {
            proof {
                closure_is_need(cfg, dataflow, s@, rows@, starts@, set, d);
            }
            if seen[d] {
                proof {
                    let root = choose|root: SsaValue| set.contains(root) && #[trigger] rests_on(cfg, dataflow, s@, root, DefId(d));
                    assert(rests_on(cfg, dataflow, s@, root, DefId(d)));
                    assert(needed_for(cfg, dataflow, s@, set, at as int));
                }
                r[at] = true;
            }
        }
        proof {
            assert forall|root: SsaValue, x: DefId|
                x.0 < d + 1 && set.contains(root) && #[trigger] rests_on(cfg, dataflow, s@, root, x) implies r@[dataflow.defs@[x.0 as int].instr.0 as int] by {
                assert(dataflow.defs@[x.0 as int].instr.0 < total);
                if x.0 < d {
                    assert(before[dataflow.defs@[x.0 as int].instr.0 as int]);
                } else {
                    assert(x == DefId(d));
                }
            }
        }
        d = d + 1;
    }
    proof {
        assert forall|i: int| 0 <= i < total implies #[trigger] r@[i] == needed_for(cfg, dataflow, s@, set, i) by {
            if needed_for(cfg, dataflow, s@, set, i) {
                let (root, x) = choose|root: SsaValue, x: DefId|
                    set.contains(root) && #[trigger] rests_on(cfg, dataflow, s@, root, x) && dataflow.defs@[x.0 as int].instr.0 == i;
                assert(r@[dataflow.defs@[x.0 as int].instr.0 as int]);
            }
        }
    }
    r
}

/// A loop begins at the block, or the block belongs to the control of one.
pub open spec fn controls_loop(c: LoopModel, b: BlockRef) -> bool {
    c.preheader == Some(b) || c.control.contains(b)
}

pub open spec fn repeats_loop(c: LoopModel, e: EdgeRef) -> bool {
    c.backedges.contains(e) || c.continue_edges.contains(e)
}

/// The instruction closes variables.
pub open spec fn is_cleanup(i: LowInstr) -> bool {
    i is Close || i is Tbc
}

impl<'a> ValueDecisionContext<'a> {
    pub open spec fn wf(&self) -> bool {
        &&& values_known(self.cfg, self.dataflow)
        &&& self.proto.instrs@.len() == self.cfg.instr_to_block@.len()
        &&& self.dataflow.defs@.len() + self.dataflow.phi_candidates@.len() <= usize::MAX
        &&& self.dataflow.phi_uses@.len() == self.dataflow.phi_candidates@.len()
        &&& self.dataflow.phis_closed()
        &&& forall|p: int| 0 <= p < self.dataflow.phi_candidates@.len() ==> (#[trigger] self.dataflow.phi_candidates@[p]).id.0 == p
        &&& forall|i: int, k: int|
            0 <= i < self.dataflow.instr_defs@.len() && 0 <= k < self.dataflow.instr_defs@[i]@.len() ==> (
            #[trigger] self.dataflow.instr_defs@[i]@[k]).0 < self.dataflow.defs@.len()
    }

    /// The block cannot be part of an expression.
    pub open spec fn forbidden_block(&self, b: BlockRef) -> bool {
        !self.cfg.is_reachable(b) || exists|i: int|
            0 <= i < self.loops@.len() && controls_loop(#[trigger] loop_models(self.loops@)[i], b)
    }

    /// The edge repeats or continues a loop, or has to jump.
    pub open spec fn forbidden_edge(&self, e: EdgeRef) -> bool {
        (exists|i: int|
            0 <= i < self.residual_transfers@.len() && (#[trigger] self.residual_transfers@[i]).edge == e
                && self.residual_transfers@[i].reason != GotoReason::IrreducibleFlow) || exists|i: int|
            0 <= i < self.loops@.len() && repeats_loop(#[trigger] loop_models(self.loops@)[i], e)
    }

    /// Edge `k` out of block `b` may be part of an expression that ends at `end`.
    pub open spec fn edge_allowed(&self, b: BlockRef, k: int, end: BlockRef) -> bool {
        self.cfg.edge(self.cfg.out_edges(b)[k]).to == end || !self.forbidden_edge(self.cfg.out_edges(b)[k])
    }

    /// The block may be part of an expression that begins at `start` and ends at `end`.
    pub open spec fn block_allowed(&self, b: BlockRef, start: BlockRef, end: BlockRef) -> bool {
        &&& self.cfg.has_block(b)
        &&& !self.forbidden_block(b)
        &&& forall|k: int| 0 <= k < self.cfg.out_edges(b).len() ==> #[trigger] self.edge_allowed(b, k, end)
        &&& b == start || forall|i: int|
            self.cfg.range(b).start.0 <= i < self.cfg.range(b).end_at() ==> !is_cleanup(#[trigger] self.proto.instrs@[i])
    }

    /// The node stands in a block of the graph that holds an instruction.
    pub open spec fn node_stands(&self, n: ShortCircuitNode) -> bool {
        self.cfg.has_block(n.header) && self.cfg.range(n.header).len > 0
    }

    /// The control of the expression is closed: it stays in blocks that may be part of it.
    pub open spec fn control_closed(&self, s: ShortModel) -> bool {
        match s.exit {
            ShortCircuitExit::ValueMerge(end) => (forall|b: BlockRef| #[trigger]
                s.blocks.contains(b) ==> self.block_allowed(b, s.header, end)) && forall|i: int|
                0 <= i < s.nodes.len() ==> self.node_stands(#[trigger] s.nodes[i]),
            ShortCircuitExit::BranchExit { .. } => false,
        }
    }

    /// An inner node of the expression tests the value.
    pub open spec fn tests_value(&self, s: ShortModel, i: int, v: SsaValue) -> bool {
        s.nodes[i].header != s.header && reads_value(self.dataflow, self.cfg.range(s.nodes[i].header).end_at() - 1, v)
    }

    /// What the inner nodes of the expression test.
    pub open spec fn tested(&self, s: ShortModel) -> Set<SsaValue> {
        Set::new(|v: SsaValue| exists|i: int| 0 <= i < s.nodes.len() && #[trigger] self.tests_value(s, i, v))
    }

    pub open spec fn leaf_values(s: ShortModel) -> Set<SsaValue> {
        Set::new(|v: SsaValue| exists|i: int| 0 <= i < s.value_incomings.len() && (#[trigger] s.value_incomings[i]).value == v)
    }

    /// The instruction of block `b` has an effect that no test needs, so that a result must.
    pub open spec fn must_serve_result(&self, s: ShortModel, b: BlockRef, i: int) -> bool {
        &&& s.blocks.contains(b)
        &&& b != s.header
        &&& self.cfg.range(b).start.0 <= i < self.cfg.range(b).end_at()
        &&& !(i == self.cfg.range(b).end_at() - 1 && self.proto.instrs@[i].ends_control())
        &&& self.dataflow.effect_summaries@[i].tags@.len() > 0
        &&& !needed_for(self.cfg, self.dataflow, s.blocks, self.tested(s), i)
    }

    /// Edge `e` hands a value to phi `p`.
    pub open spec fn hands_to(&self, e: EdgeRef, p: int) -> bool {
        exists|k: int|
            0 <= k < self.dataflow.phi_candidates@[p].incoming@.len() && (#[trigger] self.dataflow.phi_candidates@[p].incoming@[k]).edge
                == Some(e)
    }

    /// An edge out of the region hands a value to phi `p`, which something needs.
    pub open spec fn on_boundary(&self, s: Set<BlockRef>, p: int) -> bool {
        is_needed(self.dataflow.use_values@, self.dataflow.phi_candidates@, p as usize) && exists|e: EdgeRef| #[trigger]
            self.cfg.has_edge(e) && s.contains(self.cfg.edge(e).from) && self.hands_to(e, p)
    }

    /// Way `k` into phi `p` comes from the region to the phi's own block.
    pub open spec fn enters_own(&self, s: Set<BlockRef>, p: int, k: int) -> bool {
        match self.dataflow.phi_candidates@[p].incoming@[k].edge {
            Some(e) => self.cfg.has_edge(e) && s.contains(self.cfg.edge(e).from) && self.cfg.edge(e).to
                == self.dataflow.phi_candidates@[p].block,
            None => false,
        }
    }

    /// The phi stands at the head of a loop, and the region hands it one value only.
    pub open spec fn gets_one_value(&self, s: Set<BlockRef>, p: int) -> bool {
        let incoming = self.dataflow.phi_candidates@[p].incoming@;
        &&& exists|i: int|
            0 <= i < self.loops@.len() && (#[trigger] loop_models(self.loops@)[i]).header == self.dataflow.phi_candidates@[p].block
        &&& exists|k: int| 0 <= k < incoming.len() && #[trigger] self.enters_own(s, p, k)
        &&& forall|j: int, k: int|
            0 <= j < incoming.len() && 0 <= k < incoming.len() && #[trigger] self.enters_own(s, p, j)
                && #[trigger] self.enters_own(s, p, k) ==> incoming[j].value == incoming[k].value
    }

    /// Phi `p` feeds phi `q`, which is not the result.
    pub open spec fn feeds_but(&self, result: PhiId) -> spec_fn(usize, usize) -> bool {
        |p: usize, q: usize| feeds(self.dataflow.phi_phi_uses@)(p, q) && q != result.0
    }

    /// The phi takes everything from the region and is read only there.
    pub open spec fn stays_inside(&self, s: Set<BlockRef>, p: usize) -> bool {
        fed_inside(self.cfg, self.dataflow, s, p as int) && !used_outside(self.cfg, self.dataflow.phi_uses@, p, s)
    }

    /// The phi, and every phi that it feeds on the way to the result, stays inside.
    pub open spec fn is_internal(&self, s: Set<BlockRef>, p: usize, result: PhiId) -> bool {
        p == result.0 || forall|q: usize| #[trigger] reaches(self.feeds_but(result), p, q) ==> self.stays_inside(s, q)
    }

    /// An inner block of the expression makes the definition.
    pub open spec fn is_inner_def(&self, s: ShortModel, b: BlockRef, i: int, k: int) -> bool {
        &&& s.blocks.contains(b)
        &&& b != s.header
        &&& self.cfg.range(b).start.0 <= i < self.cfg.range(b).end_at()
        &&& 0 <= k < self.dataflow.instr_defs@[i]@.len()
    }

    /// The definition is read outside of the region, directly or through phis other than the
    /// result, or nothing is known of its uses.
    pub open spec fn def_escapes(&self, s: Set<BlockRef>, d: DefId, result: PhiId) -> bool {
        d.0 >= self.dataflow.def_uses@.len() || used_outside(self.cfg, self.dataflow.def_uses@, d.0, s) || exists|
            p: PhiId,
            q: usize,
        | #[trigger] self.escapes_past(s, d, result, p, q)
    }

    pub open spec fn escapes_past(&self, s: Set<BlockRef>, d: DefId, result: PhiId, p: PhiId, q: usize) -> bool {
        d.0 < self.dataflow.def_phi_uses@.len() && self.dataflow.def_phi_uses@[d.0 as int]@.contains(p) && p != result && reaches(
            self.feeds_but(result),
            p.0,
            q,
        ) && used_outside(self.cfg, self.dataflow.phi_uses@, q, s)
    }

    /// The leaves of the expression are values that there are.
    pub open spec fn leaves_exist(&self, s: ShortModel) -> bool {
        forall|k: int|
            0 <= k < s.value_incomings.len() ==> within(
                (#[trigger] s.value_incomings[k]).value,
                self.dataflow.phi_candidates@.len(),
                self.dataflow.defs@.len(),
            )
    }

    /// Everything that the expression computes goes into its tests and its result.
    pub open spec fn result_closed(&self, s: ShortModel, result: PhiId) -> bool {
        &&& self.leaves_exist(s)
        &&& forall|b: BlockRef, i: int| #[trigger]
            self.must_serve_result(s, b, i) ==> needed_for(self.cfg, self.dataflow, s.blocks, Self::leaf_values(s), i)
        &&& forall|p: int|
            0 <= p < self.dataflow.phi_candidates@.len() && p != result.0 && #[trigger] self.on_boundary(s.blocks, p)
                ==> self.gets_one_value(s.blocks, p) || self.is_internal(s.blocks, p as usize, result)
        &&& forall|b: BlockRef, i: int, k: int| #[trigger]
            self.is_inner_def(s, b, i, k) ==> !self.def_escapes(s.blocks, self.dataflow.instr_defs@[i]@[k], result)
    }

    fn check_forbidden_block(&self, b: BlockRef) -> (r: bool)
        ensures
            r == self.forbidden_block(b),
    {
        if !self.cfg.reachable_blocks.contains(b) {
            return true;
        }
        let n = self.loops.len();
        let ghost models = loop_models(self.loops@);
        let mut i: usize = 0;
        while i < n
            invariant
                n == self.loops@.len(),
                models == loop_models(self.loops@),
                i <= n,
                forall|k: int| 0 <= k < i ==> !controls_loop(#[trigger] models[k], b),
            decreases n - i,
        {
            let c = &self.loops[i];
            assert(models[i as int] == c@);
            let first = match c.preheader {
                Some(x) => x == b,
                None => false,
            };
            if first || c.control_blocks.contains(b) {
                assert(controls_loop(models[i as int], b));
                return true;
            }
            i = i + 1;
        }
        false
    }

    fn check_forbidden_edge(&self, e: EdgeRef) -> (r: bool)
        ensures
            r == self.forbidden_edge(e),
    {
        let m = self.residual_transfers.len();
        let mut j: usize = 0;
        while j < m
            invariant
                m == self.residual_transfers@.len(),
                j <= m,
                forall|k: int|
                    0 <= k < j ==> !((#[trigger] self.residual_transfers@[k]).edge == e && self.residual_transfers@[k].reason
                        != GotoReason::IrreducibleFlow),
            decreases m - j,
        {
            let t = self.residual_transfers[j];
            if t.edge == e && t.reason != GotoReason::IrreducibleFlow {
                assert(self.residual_transfers@[j as int] == t);
                return true;
            }
            j = j + 1;
        }
        let n = self.loops.len();
        let ghost models = loop_models(self.loops@);
        let mut i: usize = 0;
        while i < n
            invariant
                n == self.loops@.len(),
                models == loop_models(self.loops@),
                i <= n,
                forall|k: int| 0 <= k < i ==> !repeats_loop(#[trigger] models[k], e),
            decreases n - i,
        {
            let c = &self.loops[i];
            assert(models[i as int] == c@);
            if c.continue_edges.contains(e) || has_edge_in(&c.backedges, e) {
                assert(repeats_loop(models[i as int], e));
                return true;
            }
            i = i + 1;
        }
        false
    }

    fn check_block_allowed(&self, b: BlockRef, start: BlockRef, end: BlockRef) -> (r: bool)
        requires
            self.wf(),
        ensures
            r == self.block_allowed(b, start, end),
    {
        if b.0 >= self.cfg.blocks.len() || self.check_forbidden_block(b) {
            return false;
        }
        assert(self.cfg.has_block(b));
        let n = self.cfg.succs[b.0].len();
        let mut k: usize = 0;
        while k < n
            invariant
                self.wf(),
                self.cfg.has_block(b),
                n == self.cfg.out_edges(b).len(),
                k <= n,
                forall|q: int| 0 <= q < k ==> #[trigger] self.edge_allowed(b, q, end),
            decreases n - k,
        {
            let e = self.cfg.succs[b.0][k];
            assert(e == self.cfg.out_edges(b)[k as int]);
            if self.cfg.edges[e.0].to != end && self.check_forbidden_edge(e) {
                assert(!self.edge_allowed(b, k as int, end));
                return false;
            }
            assert(self.edge_allowed(b, k as int, end));
            k = k + 1;
        }
        if b == start {
            return true;
        }
        proof {
            range_fits(self.cfg, b);
        }
        let range = self.cfg.blocks[b.0].instrs;
        let last = range.end();
        let mut i: usize = range.start.0;
        while i < last
            invariant
                self.wf(),
                b != start,
                range == self.cfg.range(b),
                last == range.end_at(),
                range.len > 0 ==> last <= self.proto.instrs@.len(),
                range.start.0 <= i <= last,
                forall|q: int| range.start.0 <= q < i ==> !is_cleanup(#[trigger] self.proto.instrs@[q]),
            decreases last - i,
        {
            match self.proto.instrs[i] {
                LowInstr::Close(_) | LowInstr::Tbc(_) => {
                    assert(is_cleanup(self.proto.instrs@[i as int]));
                    return false;
                },
                _ => {},
            }
            i = i + 1;
        }
        true
    }

    /// Whether the expression stays in blocks that may be part of it.
    pub fn value_decision_control_dag_is_closed(&self, candidate: &ShortCircuitCandidate) -> (r: bool)
        requires
            self.wf(),
        ensures
            r == self.control_closed(candidate@),
    {
        let end = match candidate.exit {
            ShortCircuitExit::ValueMerge(end) => end,
            ShortCircuitExit::BranchExit { .. } => {
                return false;
            },
        };
        let n = candidate.blocks.len();
        let mut i: usize = 0;
        while i < n
            invariant
                self.wf(),
                n == candidate.blocks.seq().len(),
                candidate.exit == ShortCircuitExit::ValueMerge(end),
                i <= n,
                forall|k: int| 0 <= k < i ==> self.block_allowed(#[trigger] candidate.blocks.seq()[k], candidate.header, end),
            decreases n - i,
        {
            let b = candidate.blocks.at(i);
            if !self.check_block_allowed(b, candidate.header, end) {
                assert(candidate@.blocks.contains(b));
                return false;
            }
            i = i + 1;
        }
        proof {
            assert forall|b: BlockRef| #[trigger] candidate@.blocks.contains(b) implies self.block_allowed(b, candidate.header, end) by {
                assert(candidate.blocks.seq().contains(b));
                assert(candidate.blocks.seq()[candidate.blocks.seq().index_of(b)] == b);
            }
        }
        let m = candidate.nodes.len();
        let mut j: usize = 0;
        while j < m
            invariant
                m == candidate.nodes@.len(),
                j <= m,
                forall|k: int| 0 <= k < j ==> self.node_stands(#[trigger] candidate.nodes@[k]),
            decreases m - j,
        {
            let h = candidate.nodes[j].header;
            if h.0 >= self.cfg.blocks.len() || self.cfg.blocks[h.0].instrs.len == 0 {
                assert(!self.node_stands(candidate@.nodes[j as int]));
                return false;
            }
            assert(self.node_stands(candidate.nodes@[j as int]));
            j = j + 1;
        }
        true
    }
}

fn has_edge_in(list: &Vec<EdgeRef>, e: EdgeRef) -> (r: bool)
    ensures
        r == list@.contains(e),
{
    let n = list.len();
    let mut i: usize = 0;
    while i < n
        invariant
            n == list@.len(),
            i <= n,
            forall|k: int| 0 <= k < i ==> list@[k] != e,
        decreases n - i,
    {
        if list[i] == e {
            assert(list@[i as int] == e);
            return true;
        }
        i = i + 1;
    }
    false
}

impl<'a> ValueDecisionContext<'a> {
    /// What the inner nodes test.
    fn collect_tested(&self, candidate: &ShortCircuitCandidate) -> (r: Vec<SsaValue>)
        requires
            self.wf(),
            forall|i: int| 0 <= i < candidate.nodes@.len() ==> self.node_stands(#[trigger] candidate.nodes@[i]),
        ensures
            r@.to_set() == self.tested(candidate@),
            forall|k: int|
                0 <= k < r@.len() ==> within(#[trigger] r@[k], self.dataflow.phi_candidates@.len(), self.dataflow.defs@.len()),
    {
        let ghost s = candidate@;
        let n = candidate.nodes.len();
        let mut r: Vec<SsaValue> = Vec::new();
        let mut i: usize = 0;
        while i < n
            invariant
                self.wf(),
                forall|i: int| 0 <= i < candidate.nodes@.len() ==> self.node_stands(#[trigger] candidate.nodes@[i]),
                s == candidate@,
                n == candidate.nodes@.len(),
                i <= n,
                forall|k: int|
                    0 <= k < r@.len() ==> within(#[trigger] r@[k], self.dataflow.phi_candidates@.len(), self.dataflow.defs@.len()) && self.tested(s).contains(r@[k]),
                forall|j: int, v: SsaValue| 0 <= j < i && #[trigger] self.tests_value(s, j, v) ==> r@.contains(v),
            decreases n - i,
        {
            let h = candidate.nodes[i].header;
            assert(self.node_stands(candidate.nodes@[i as int]));
            proof {
                range_fits(self.cfg, h);
            }
            let ghost had = r@;
            if h != candidate.header {
                let at = self.cfg.blocks[h.0].instrs.end() - 1;
                let m = self.dataflow.use_values[at].fixed.len();
                let ghost reads = self.dataflow.use_values@[at as int].fixed@;
                let mut k: usize = 0;
                while k < m
                    invariant
                        self.wf(),
                        s == candidate@,
                        i < candidate.nodes@.len(),
                        h == candidate.nodes@[i as int].header,
                        h != candidate.header,
                        at < self.dataflow.use_values@.len(),
                        at == self.cfg.range(h).end_at() - 1,
                        reads == self.dataflow.use_values@[at as int].fixed@,
                        m == reads.len(),
                        k <= m,
                        forall|q: int|
                            0 <= q < r@.len() ==> within(#[trigger] r@[q], self.dataflow.phi_candidates@.len(), self.dataflow.defs@.len()) && self.tested(s).contains(r@[q]),
                        forall|v: SsaValue| had.contains(v) ==> #[trigger] r@.contains(v),
                        forall|q: int| 0 <= q < k ==> r@.contains((#[trigger] reads[q]).1),
                    decreases m - k,
                {
                    let (_, v) = self.dataflow.use_values[at].fixed.entry(k);
                    assert(within(self.dataflow.use_values@[at as int].fixed@[k as int].1, self.dataflow.phi_candidates@.len(), self.dataflow.defs@.len()));
                    assert(reads_value(self.dataflow, at as int, v));
                    assert(self.tests_value(s, i as int, v));
                    let ghost before = r@;
                    r.push(v);
                    proof {
                        assert forall|w: SsaValue| had.contains(w) implies #[trigger] r@.contains(w) by {
                            assert(before.contains(w));
                            assert(r@[before.index_of(w)] == w);
                        }
                        assert forall|q: int| 0 <= q < k + 1 implies r@.contains((#[trigger] reads[q]).1) by {
                            if q < k {
                                assert(before.contains(reads[q].1));
                                assert(r@[before.index_of(reads[q].1)] == reads[q].1);
                            } else {
                                assert(r@[before.len() as int] == v);
                            }
                        }
                    }
                    k = k + 1;
                }
                proof {
                    assert forall|v: SsaValue| #[trigger] self.tests_value(s, i as int, v) implies r@.contains(v) by {
                        let q = choose|q: int| 0 <= q < reads.len() && (#[trigger] reads[q]).1 == v;
                        assert(r@.contains(reads[q].1));
                    }
                }
            }
            proof {
                assert forall|j: int, v: SsaValue| 0 <= j < i + 1 && #[trigger] self.tests_value(s, j, v) implies r@.contains(v) by {
                    if j < i {
                        assert(had.contains(v));
                    }
                }
            }
            i = i + 1;
        }
        proof {
            assert forall|v: SsaValue| r@.to_set().contains(v) <==> self.tested(s).contains(v) by {
                if r@.contains(v) {
                    assert(self.tested(s).contains(r@[r@.index_of(v)]));
                }
                if self.tested(s).contains(v) {
                    let j = choose|j: int| 0 <= j < s.nodes.len() && #[trigger] self.tests_value(s, j, v);
                    assert(r@.contains(v));
                }
            }
            assert(r@.to_set() =~= self.tested(s));
        }
        r
    }

    fn collect_leaves(candidate: &ShortCircuitCandidate) -> (r: Vec<SsaValue>)
        ensures
            r@.to_set() == Self::leaf_values(candidate@),
            r@.len() == candidate.value_incomings@.len(),
            forall|k: int| 0 <= k < r@.len() ==> #[trigger] r@[k] == candidate.value_incomings@[k].value,
    {
        let n = candidate.value_incomings.len();
        let mut r: Vec<SsaValue> = Vec::new();
        let mut i: usize = 0;
        while i < n
            invariant
                n == candidate.value_incomings@.len(),
                i <= n,
                r@.len() == i,
                forall|k: int| 0 <= k < i ==> #[trigger] r@[k] == candidate.value_incomings@[k].value,
            decreases n - i,
        {
            r.push(candidate.value_incomings[i].value);
            i = i + 1;
        }
        proof {
            assert forall|v: SsaValue| r@.to_set().contains(v) <==> Self::leaf_values(candidate@).contains(v) by {
                if r@.contains(v) {
                    let k = r@.index_of(v);
                    assert(candidate@.value_incomings[k].value == v);
                }
                if Self::leaf_values(candidate@).contains(v) {
                    let k = choose|k: int| 0 <= k < candidate@.value_incomings.len() && (#[trigger] candidate@.value_incomings[k]).value == v;
                    assert(r@[k] == v);
                }
            }
            assert(r@.to_set() =~= Self::leaf_values(candidate@));
        }
        r
    }

    /// Whether every effect of the expression serves a test or a leaf.
    fn effects_serve(&self, candidate: &ShortCircuitCandidate) -> (r: bool)
        requires
            self.wf(),
            self.control_closed(candidate@),
            self.leaves_exist(candidate@),
        ensures
            r == (forall|b: BlockRef, i: int| #[trigger]
                self.must_serve_result(candidate@, b, i) ==> needed_for(
                    self.cfg,
                    self.dataflow,
                    candidate@.blocks,
                    Self::leaf_values(candidate@),
                    i,
                )),
    {
        let ghost s = candidate@;
        proof {
            assert forall|i: int| 0 <= i < candidate.nodes@.len() implies self.node_stands(#[trigger] candidate.nodes@[i]) by {
                assert(self.node_stands(s.nodes[i]));
            }
        }
        let tested = self.collect_tested(candidate);
        let leaves = Self::collect_leaves(candidate);
        proof {
            assert forall|k: int| 0 <= k < leaves@.len() implies within(
                #[trigger] leaves@[k],
                self.dataflow.phi_candidates@.len(),
                self.dataflow.defs@.len(),
            ) by {
                assert(leaves@[k] == s.value_incomings[k].value);
            }
        }
        let rows = inner_rows(self.cfg, self.dataflow, &candidate.blocks);
        let for_tests = mark_value_decision_dependencies(self.cfg, self.dataflow, &candidate.blocks, &rows, &tested);
        let for_leaves = mark_value_decision_dependencies(self.cfg, self.dataflow, &candidate.blocks, &rows, &leaves);
        let n = candidate.blocks.len();
        let mut j: usize = 0;
        while j < n
            invariant
                self.wf(),
                s == candidate@,
                self.control_closed(s),
                n == candidate.blocks.seq().len(),
                for_tests@.len() == self.dataflow.use_values@.len(),
                for_leaves@.len() == self.dataflow.use_values@.len(),
                forall|i: int|
                    0 <= i < for_tests@.len() ==> #[trigger] for_tests@[i] == needed_for(self.cfg, self.dataflow, s.blocks, self.tested(s), i),
                forall|i: int|
                    0 <= i < for_leaves@.len() ==> #[trigger] for_leaves@[i] == needed_for(
                        self.cfg,
                        self.dataflow,
                        s.blocks,
                        Self::leaf_values(s),
                        i,
                    ),
                j <= n,
                forall|k: int, i: int|
                    0 <= k < j && #[trigger] self.must_serve_result(s, candidate.blocks.seq()[k], i) ==> needed_for(
                        self.cfg,
                        self.dataflow,
                        s.blocks,
                        Self::leaf_values(s),
                        i,
                    ),
            decreases n - j,
        {
            let b = candidate.blocks.at(j);
            assert(s.blocks.contains(b));
            let ghost end = s.exit->ValueMerge_0;
            assert(self.block_allowed(b, s.header, end));
            if b != candidate.header {
                proof {
                    range_fits(self.cfg, b);
                }
                let range = self.cfg.blocks[b.0].instrs;
                let last = range.end();
                let mut i: usize = range.start.0;
                while i < last
                    invariant
                        self.wf(),
                        s == candidate@,
                        b == candidate.blocks.seq()[j as int],
                        s.blocks.contains(b),
                        b != candidate.header,
                        range == self.cfg.range(b),
                        last == range.end_at(),
                        range.len > 0 ==> last <= self.proto.instrs@.len(),
                        for_tests@.len() == self.dataflow.use_values@.len(),
                        for_leaves@.len() == self.dataflow.use_values@.len(),
                        forall|i: int|
                            0 <= i < for_tests@.len() ==> #[trigger] for_tests@[i] == needed_for(
                                self.cfg,
                                self.dataflow,
                                s.blocks,
                                self.tested(s),
                                i,
                            ),
                        forall|i: int|
                            0 <= i < for_leaves@.len() ==> #[trigger] for_leaves@[i] == needed_for(
                                self.cfg,
                                self.dataflow,
                                s.blocks,
                                Self::leaf_values(s),
                                i,
                            ),
                        range.start.0 <= i <= last,
                        forall|q: int|
                            q < i && #[trigger] self.must_serve_result(s, b, q) ==> needed_for(
                                self.cfg,
                                self.dataflow,
                                s.blocks,
                                Self::leaf_values(s),
                                q,
                            ),
                    decreases last - i,
                {
                    let ends = i == last - 1 && self.proto.instrs[i].is_control_terminator();
                    if !ends && self.dataflow.effect_summaries[i].tags.len() > 0 && !for_tests[i] && !for_leaves[i] {
                        assert(self.must_serve_result(s, b, i as int));
                        return false;
                    }
                    i = i + 1;
                }
            }
            j = j + 1;
        }
        proof {
            assert forall|b: BlockRef, i: int| #[trigger] self.must_serve_result(s, b, i) implies needed_for(
                self.cfg,
                self.dataflow,
                s.blocks,
                Self::leaf_values(s),
                i,
            ) by {
                assert(candidate.blocks.seq().contains(b));
                let k = candidate.blocks.seq().index_of(b);
                assert(candidate.blocks.seq()[k] == b);
                assert(self.must_serve_result(s, candidate.blocks.seq()[k], i));
            }
        }
        true
    }

    fn check_on_boundary(&self, dead: &IdSet<PhiId>, s: &IdSet<BlockRef>, p: usize) -> (r: bool)
        requires
            self.wf(),
            p < self.dataflow.phi_candidates@.len(),
            forall|x: PhiId| #[trigger] dead@.contains(x) <==> x.0 < self.dataflow.phi_candidates@.len() && !is_needed(
                self.dataflow.use_values@,
                self.dataflow.phi_candidates@,
                x.0,
            ),
        ensures
            r == self.on_boundary(s@, p as int),
    {
        if dead.contains(PhiId(p)) {
            return false;
        }
        let n = self.dataflow.phi_candidates[p].incoming.len();
        let mut k: usize = 0;
        while k < n
            invariant
                self.wf(),
                p < self.dataflow.phi_candidates@.len(),
                is_needed(self.dataflow.use_values@, self.dataflow.phi_candidates@, p),
                n == self.dataflow.phi_candidates@[p as int].incoming@.len(),
                k <= n,
                forall|q: int| 0 <= q < k ==> !#[trigger] comes_from(self.cfg, self.dataflow, s@, p as int, q),
            decreases n - k,
        {
            let item = self.dataflow.phi_candidates[p].incoming[k];
            if let Some(e) = item.edge {
                if e.0 < self.cfg.edges.len() && s.contains(self.cfg.edges[e.0].from) {
                    assert(self.dataflow.phi_candidates@[p as int].incoming@[k as int].edge == Some(e));
                    assert(self.hands_to(e, p as int));
                    assert(self.cfg.has_edge(e));
                    return true;
                }
            }
            k = k + 1;
        }
        proof {
            assert forall|e: EdgeRef| #[trigger] self.cfg.has_edge(e) && s@.contains(self.cfg.edge(e).from) implies !self.hands_to(e, p as int) by {
                if self.hands_to(e, p as int) {
                    let q = choose|q: int|
                        0 <= q < self.dataflow.phi_candidates@[p as int].incoming@.len() && (
                        #[trigger] self.dataflow.phi_candidates@[p as int].incoming@[q]).edge == Some(e);
                    assert(comes_from(self.cfg, self.dataflow, s@, p as int, q));
                }
            }
        }
        false
    }

    fn is_loop_head(&self, b: BlockRef) -> (r: bool)
        ensures
            r == exists|i: int| 0 <= i < self.loops@.len() && (#[trigger] loop_models(self.loops@)[i]).header == b,
    {
        let n = self.loops.len();
        let ghost models = loop_models(self.loops@);
        let mut i: usize = 0;
        while i < n
            invariant
                n == self.loops@.len(),
                models == loop_models(self.loops@),
                i <= n,
                forall|k: int| 0 <= k < i ==> (#[trigger] models[k]).header != b,
            decreases n - i,
        {
            assert(models[i as int] == self.loops@[i as int]@);
            if self.loops[i].header == b {
                assert(models[i as int].header == b);
                return true;
            }
            i = i + 1;
        }
        false
    }

    /// Whether a phi at the head of a loop gets one value only from the region.
    pub fn value_decision_boundary_phi_is_unchanged(&self, s: &IdSet<BlockRef>, p: usize) -> (r: bool)
        requires
            self.wf(),
            p < self.dataflow.phi_candidates@.len(),
        ensures
            r == self.gets_one_value(s@, p as int),
    {
        let phi = &self.dataflow.phi_candidates[p];
        if !self.is_loop_head(phi.block) {
            return false;
        }
        let n = phi.incoming.len();
        let ghost incoming = phi.incoming@;
        let mut seen: Option<SsaValue> = None;
        let ghost mut at: int = 0;
        let mut k: usize = 0;
        while k < n
            invariant
                p < self.dataflow.phi_candidates@.len(),
                *phi == self.dataflow.phi_candidates@[p as int],
                incoming == phi.incoming@,
                n == incoming.len(),
                k <= n,
                match seen {
                    None => forall|q: int| 0 <= q < k ==> !#[trigger] self.enters_own(s@, p as int, q),
                    Some(v) => 0 <= at < k && self.enters_own(s@, p as int, at) && incoming[at].value == v && forall|q: int|
                        0 <= q < k && #[trigger] self.enters_own(s@, p as int, q) ==> incoming[q].value == v,
                },
            decreases n - k,
        {
            let item = phi.incoming[k];
            let own = match item.edge {
                Some(e) => e.0 < self.cfg.edges.len() && s.contains(self.cfg.edges[e.0].from) && self.cfg.edges[e.0].to == phi.block,
                None => false,
            };
            assert(own == self.enters_own(s@, p as int, k as int));
            if own {
                match seen {
                    None => {
                        seen = Some(item.value);
                        proof {
                            at = k as int;
                        }
                    },
                    Some(v) => {
                        if v != item.value {
                            assert(self.enters_own(s@, p as int, at) && self.enters_own(s@, p as int, k as int));
                            assert(incoming[at].value != incoming[k as int].value);
                            return false;
                        }
                    },
                }
            }
            k = k + 1;
        }
        seen.is_some()
    }

    /// Which phis each phi feeds, without the result.
    fn feed_rows(&self, result: PhiId) -> (rows: Vec<Vec<usize>>)
        requires
            self.wf(),
        ensures
            rows@.len() == self.dataflow.phi_phi_uses@.len(),
            forall|a: int, k: int| 0 <= a < rows@.len() && 0 <= k < rows@[a]@.len() ==> (#[trigger] rows@[a]@[k]) < rows@.len(),
            forall|a: usize, b: usize| a < rows@.len() ==> (#[trigger] rows@[a as int]@.contains(b) <==> self.feeds_but(result)(a, b)),
    {
        let n = self.dataflow.phi_phi_uses.len();
        let mut rows: Vec<Vec<usize>> = Vec::new();
        let mut a: usize = 0;
        while a < n
            invariant
                self.wf(),
                n == self.dataflow.phi_phi_uses@.len(),
                a <= n,
                rows@.len() == a,
                forall|x: int, k: int| 0 <= x < a && 0 <= k < rows@[x]@.len() ==> (#[trigger] rows@[x]@[k]) < n,
                forall|x: usize, y: usize| x < a ==> (#[trigger] rows@[x as int]@.contains(y) <==> self.feeds_but(result)(x, y)),
            decreases n - a,
        {
            let row = self.feed_row(result, a);
            let ghost before = rows@;
            rows.push(row);
            proof {
                assert forall|x: usize, y: usize| x < a + 1 implies (#[trigger] rows@[x as int]@.contains(y) <==> self.feeds_but(result)(
                    x,
                    y,
                )) by {
                    if x < a {
                        assert(before[x as int]@.contains(y) <==> self.feeds_but(result)(x, y));
                    }
                }
            }
            a = a + 1;
        }
        rows
    }

    fn feed_row(&self, result: PhiId, a: usize) -> (row: Vec<usize>)
        requires
            self.wf(),
            a < self.dataflow.phi_phi_uses@.len(),
        ensures
            forall|y: usize| #[trigger] row@.contains(y) <==> self.feeds_but(result)(a, y),
            forall|k: int| 0 <= k < row@.len() ==> (#[trigger] row@[k]) < self.dataflow.phi_phi_uses@.len(),
    {
        let n = self.dataflow.phi_phi_uses[a].len();
        let ghost list = self.dataflow.phi_phi_uses@[a as int]@;
        let mut row: Vec<usize> = Vec::new();
        let mut k: usize = 0;
        while k < n
            invariant
                self.wf(),
                a < self.dataflow.phi_phi_uses@.len(),
                list == self.dataflow.phi_phi_uses@[a as int]@,
                n == list.len(),
                k <= n,
                forall|q: int|
                    0 <= q < row@.len() ==> (#[trigger] row@[q]) < self.dataflow.phi_phi_uses@.len() && self.feeds_but(result)(a, row@[q]),
                forall|q: int| 0 <= q < k && (#[trigger] list[q]) != result ==> row@.contains(list[q].0),
            decreases n - k,
        {
            let x = self.dataflow.phi_phi_uses[a][k];
            assert(x == list[k as int]);
            assert(self.dataflow.phi_phi_uses@[a as int]@[k as int].0 < self.dataflow.phi_phi_uses@.len());
            let ghost had = row@;
            if x != result {
                assert(list.contains(PhiId(x.0)));
                assert(x.0 != result.0);
                row.push(x.0);
            }
            proof {
                assert forall|q: int| 0 <= q < k + 1 && (#[trigger] list[q]) != result implies row@.contains(list[q].0) by {
                    if q < k {
                        assert(had.contains(list[q].0));
                        assert(row@[had.index_of(list[q].0)] == list[q].0);
                    } else {
                        assert(row@[row@.len() - 1] == x.0);
                    }
                }
            }
            k = k + 1;
        }
        proof {
            assert forall|y: usize| #[trigger] row@.contains(y) <==> self.feeds_but(result)(a, y) by {
                if self.feeds_but(result)(a, y) {
                    let q = list.index_of(PhiId(y));
                    assert(list[q] == PhiId(y));
                }
                if row@.contains(y) {
                    let q = row@.index_of(y);
                    assert(self.feeds_but(result)(a, row@[q]));
                }
            }
        }
        row
    }

    proof fn closure_is_feeding(&self, result: PhiId, rows: Seq<Vec<usize>>, p: usize, q: usize)
        requires
            rows.len() == self.dataflow.phi_phi_uses@.len(),
            forall|a: usize, b: usize| a < rows.len() ==> (#[trigger] rows[a as int]@.contains(b) <==> self.feeds_but(result)(a, b)),
        ensures
            reaches(adjacent(rows), p, q) <==> reaches(self.feeds_but(result), p, q),
    {
        let adj = adjacent(rows);
        let step = self.feeds_but(result);
        assert forall|x: usize, y: usize| #[trigger] adj(x, y) implies step(x, y) by {
            assert(rows[x as int]@.contains(y));
        }
        assert forall|x: usize, y: usize| #[trigger] step(x, y) implies adj(x, y) by {
            assert(rows[x as int]@.contains(y));
        }
        if reaches(adj, p, q) {
            reaches_monotone(adj, step, p, q);
        }
        if reaches(step, p, q) {
            reaches_monotone(step, adj, p, q);
        }
    }

    fn check_used_outside_phi(&self, s: &IdSet<BlockRef>, p: usize) -> (r: bool)
        requires
            self.wf(),
            p < self.dataflow.phi_uses@.len(),
        ensures
            r == used_outside(self.cfg, self.dataflow.phi_uses@, p, s@),
    {
        row_used_outside(self.cfg, &self.dataflow.phi_uses, p, s)
    }

    /// Whether a phi, and everything that it feeds on the way to the result, stays inside.
    pub fn value_decision_phi_is_internal(
        &self,
        s: &IdSet<BlockRef>,
        rows: &Vec<Vec<usize>>,
        p: usize,
        result: PhiId,
    ) -> (r: bool)
        requires
            self.wf(),
            p < self.dataflow.phi_candidates@.len(),
            rows@.len() == self.dataflow.phi_phi_uses@.len(),
            forall|a: int, k: int| 0 <= a < rows@.len() && 0 <= k < rows@[a]@.len() ==> (#[trigger] rows@[a]@[k]) < rows@.len(),
            forall|a: usize, b: usize| a < rows@.len() ==> (#[trigger] rows@[a as int]@.contains(b) <==> self.feeds_but(result)(a, b)),
        ensures
            r == self.is_internal(s@, p, result),
    {
        if p == result.0 {
            return true;
        }
        let mut starts: Vec<usize> = Vec::new();
        starts.push(p);
        let seen = close(rows, &starts);
        let ghost step = self.feeds_but(result);
        proof {
            assert(starts@[0] == p);
            assert forall|q: usize| #[trigger] flagged(seen@).contains(q) <==> reaches(step, p, q) by {
                self.closure_is_feeding(result, rows@, p, q);
                if closes_to(rows@, starts@, q) {
                    let k = choose|k: int| 0 <= k < starts@.len() && reaches(adjacent(rows@), #[trigger] starts@[k], q);
                    assert(starts@[k] == p);
                }
            }
        }
        let n = seen.len();
        let mut q: usize = 0;
        while q < n
            invariant
                self.wf(),
                p != result.0,
                step == self.feeds_but(result),
                n == seen@.len(),
                n == self.dataflow.phi_phi_uses@.len(),
                forall|q: usize| #[trigger] flagged(seen@).contains(q) <==> reaches(step, p, q),
                q <= n,
                forall|x: usize| x < q && reaches(step, p, x) ==> #[trigger] self.stays_inside(s@, x),
            decreases n - q,
        {
            assert(flagged(seen@).contains(q) == seen@[q as int]);
            if seen[q] {
                if !check_fed_inside(self.cfg, self.dataflow, s, q) || self.check_used_outside_phi(s, q) {
                    assert(reaches(step, p, q) && !self.stays_inside(s@, q));
                    return false;
                }
            }
            q = q + 1;
        }
        proof {
            assert forall|x: usize| #[trigger] reaches(step, p, x) implies self.stays_inside(s@, x) by {
                assert(flagged(seen@).contains(x));
            }
        }
        true
    }
}

impl<'a> ValueDecisionContext<'a> {
    fn check_def_escapes(&self, s: &IdSet<BlockRef>, rows: &Vec<Vec<usize>>, d: DefId, result: PhiId) -> (r: bool)
        requires
            self.wf(),
            rows@.len() == self.dataflow.phi_phi_uses@.len(),
            forall|a: int, k: int| 0 <= a < rows@.len() && 0 <= k < rows@[a]@.len() ==> (#[trigger] rows@[a]@[k]) < rows@.len(),
            forall|a: usize, b: usize| a < rows@.len() ==> (#[trigger] rows@[a as int]@.contains(b) <==> self.feeds_but(result)(a, b)),
        ensures
            r == self.def_escapes(s@, d, result),
    {
        if d.0 >= self.dataflow.def_uses.len() || row_used_outside(self.cfg, &self.dataflow.def_uses, d.0, s) {
            return true;
        }
        if d.0 >= self.dataflow.def_phi_uses.len() {
            return false;
        }
        let ghost users = self.dataflow.def_phi_uses@[d.0 as int]@;
        let m = self.dataflow.def_phi_uses[d.0].len();
        let mut starts: Vec<usize> = Vec::new();
        let mut k: usize = 0;
        while k < m
            invariant
                self.wf(),
                rows@.len() == self.dataflow.phi_phi_uses@.len(),
                d.0 < self.dataflow.def_phi_uses@.len(),
                users == self.dataflow.def_phi_uses@[d.0 as int]@,
                m == users.len(),
                k <= m,
                forall|q: int|
                    0 <= q < starts@.len() ==> (#[trigger] starts@[q]) < rows@.len() && users.contains(PhiId(starts@[q])) && starts@[q]
                        != result.0,
                forall|q: int| 0 <= q < k && (#[trigger] users[q]) != result ==> starts@.contains(users[q].0),
            decreases m - k,
        {
            let x = self.dataflow.def_phi_uses[d.0][k];
            assert(self.dataflow.def_phi_uses@[d.0 as int]@[k as int].0 < self.dataflow.phi_phi_uses@.len());
            let ghost had = starts@;
            if x != result {
                assert(users[k as int] == PhiId(x.0));
                assert(x.0 != result.0);
                starts.push(x.0);
            }
            proof {
                assert forall|q: int| 0 <= q < k + 1 && (#[trigger] users[q]) != result implies starts@.contains(users[q].0) by {
                    if q < k {
                        assert(had.contains(users[q].0));
                        assert(starts@[had.index_of(users[q].0)] == users[q].0);
                    } else {
                        assert(starts@[starts@.len() - 1] == x.0);
                    }
                }
            }
            k = k + 1;
        }
        let seen = close(rows, &starts);
        let ghost step = self.feeds_but(result);
        let n = seen.len();
        let mut q: usize = 0;
        while q < n
            invariant
                self.wf(),
                step == self.feeds_but(result),
                rows@.len() == self.dataflow.phi_phi_uses@.len(),
                n == rows@.len(),
                n == seen@.len(),
                forall|a: usize, b: usize| a < rows@.len() ==> (#[trigger] rows@[a as int]@.contains(b) <==> self.feeds_but(result)(a, b)),
                forall|b: usize| #[trigger] flagged(seen@).contains(b) <==> closes_to(rows@, starts@, b),
                d.0 < self.dataflow.def_phi_uses@.len(),
                users == self.dataflow.def_phi_uses@[d.0 as int]@,
                forall|q: int|
                    0 <= q < starts@.len() ==> (#[trigger] starts@[q]) < rows@.len() && users.contains(PhiId(starts@[q])) && starts@[q]
                        != result.0,
                q <= n,
                forall|x: int| 0 <= x < q && #[trigger] seen@[x] ==> !used_outside(self.cfg, self.dataflow.phi_uses@, x as usize, s@),
            decreases n - q,
        {
            if seen[q] && self.check_used_outside_phi(s, q) {
                proof {
                    assert(flagged(seen@).contains(q));
                    let k = choose|k: int| 0 <= k < starts@.len() && reaches(adjacent(rows@), #[trigger] starts@[k], q);
                    self.closure_is_feeding(result, rows@, starts@[k], q);
                    assert(self.escapes_past(s@, d, result, PhiId(starts@[k]), q));
                }
                return true;
            }
            q = q + 1;
        }
        proof {
            assert forall|p: PhiId, x: usize| !#[trigger] self.escapes_past(s@, d, result, p, x) by {
                if self.escapes_past(s@, d, result, p, x) {
                    let k = users.index_of(p);
                    assert(users[k] == p);
                    assert(starts@.contains(p.0));
                    let j = starts@.index_of(p.0);
                    self.closure_is_feeding(result, rows@, p.0, x);
                    assert(reaches(adjacent(rows@), starts@[j], x));
                    assert(flagged(seen@).contains(x));
                    assert(seen@[x as int]);
                }
            }
        }
        false
    }

    /// Whether a definition of an inner block is read outside of the region.
    pub fn value_decision_defs_escape(
        &self,
        candidate: &ShortCircuitCandidate,
        rows: &Vec<Vec<usize>>,
        result: PhiId,
    ) -> (r: bool)
        requires
            self.wf(),
            self.control_closed(candidate@),
            rows@.len() == self.dataflow.phi_phi_uses@.len(),
            forall|a: int, k: int| 0 <= a < rows@.len() && 0 <= k < rows@[a]@.len() ==> (#[trigger] rows@[a]@[k]) < rows@.len(),
            forall|a: usize, b: usize| a < rows@.len() ==> (#[trigger] rows@[a as int]@.contains(b) <==> self.feeds_but(result)(a, b)),
        ensures
            r == !(forall|b: BlockRef, i: int, k: int| #[trigger]
                self.is_inner_def(candidate@, b, i, k) ==> !self.def_escapes(
                    candidate@.blocks,
                    self.dataflow.instr_defs@[i]@[k],
                    result,
                )),
    {
        let ghost s = candidate@;
        let n = candidate.blocks.len();
        let mut j: usize = 0;
        while j < n
            invariant
                self.wf(),
                s == candidate@,
                self.control_closed(s),
                rows@.len() == self.dataflow.phi_phi_uses@.len(),
                forall|a: int, k: int| 0 <= a < rows@.len() && 0 <= k < rows@[a]@.len() ==> (#[trigger] rows@[a]@[k]) < rows@.len(),
                forall|a: usize, b: usize| a < rows@.len() ==> (#[trigger] rows@[a as int]@.contains(b) <==> self.feeds_but(result)(a, b)),
                n == candidate.blocks.seq().len(),
                j <= n,
                forall|q: int, i: int, k: int|
                    0 <= q < j && #[trigger] self.is_inner_def(s, candidate.blocks.seq()[q], i, k) ==> !self.def_escapes(
                        s.blocks,
                        self.dataflow.instr_defs@[i]@[k],
                        result,
                    ),
            decreases n - j,
        {
            let b = candidate.blocks.at(j);
            assert(s.blocks.contains(b));
            let ghost end = s.exit->ValueMerge_0;
            assert(self.block_allowed(b, s.header, end));
            if b != candidate.header && self.block_lets_escape(&candidate.blocks, rows, b, result) {
                proof {
                    let (i, k) = choose|i: int, k: int|
                        self.cfg.range(b).start.0 <= i < self.cfg.range(b).end_at() && #[trigger] self.lets_out(s.blocks, result, i, k);
                    assert(self.is_inner_def(s, b, i, k));
                }
                return true;
            }
            proof {
                assert forall|i: int, k: int| #[trigger] self.is_inner_def(s, b, i, k) implies !self.def_escapes(
                    s.blocks,
                    self.dataflow.instr_defs@[i]@[k],
                    result,
                ) by {
                    assert(!self.lets_out(s.blocks, result, i, k));
                }
            }
            j = j + 1;
        }
        proof {
            assert forall|b: BlockRef, i: int, k: int| #[trigger] self.is_inner_def(s, b, i, k) implies !self.def_escapes(
                s.blocks,
                self.dataflow.instr_defs@[i]@[k],
                result,
            ) by {
                assert(candidate.blocks.seq().contains(b));
                let q = candidate.blocks.seq().index_of(b);
                assert(candidate.blocks.seq()[q] == b);
                assert(self.is_inner_def(s, candidate.blocks.seq()[q], i, k));
            }
        }
        false
    }

    spec fn lets_out(&self, s: Set<BlockRef>, result: PhiId, i: int, k: int) -> bool {
        0 <= k < self.dataflow.instr_defs@[i]@.len() && self.def_escapes(s, self.dataflow.instr_defs@[i]@[k], result)
    }

    fn block_lets_escape(&self, s: &IdSet<BlockRef>, rows: &Vec<Vec<usize>>, b: BlockRef, result: PhiId) -> (r: bool)
        requires
            self.wf(),
            self.cfg.has_block(b),
            rows@.len() == self.dataflow.phi_phi_uses@.len(),
            forall|a: int, k: int| 0 <= a < rows@.len() && 0 <= k < rows@[a]@.len() ==> (#[trigger] rows@[a]@[k]) < rows@.len(),
            forall|a: usize, b: usize| a < rows@.len() ==> (#[trigger] rows@[a as int]@.contains(b) <==> self.feeds_but(result)(a, b)),
        ensures
            r == exists|i: int, k: int|
                self.cfg.range(b).start.0 <= i < self.cfg.range(b).end_at() && #[trigger] self.lets_out(s@, result, i, k),
    {
        proof {
            range_fits(self.cfg, b);
        }
        let range = self.cfg.blocks[b.0].instrs;
        let end = range.end();
        let mut i: usize = range.start.0;
        while i < end
            invariant
                self.wf(),
                rows@.len() == self.dataflow.phi_phi_uses@.len(),
                forall|a: int, k: int| 0 <= a < rows@.len() && 0 <= k < rows@[a]@.len() ==> (#[trigger] rows@[a]@[k]) < rows@.len(),
                forall|a: usize, b: usize| a < rows@.len() ==> (#[trigger] rows@[a as int]@.contains(b) <==> self.feeds_but(result)(a, b)),
                range == self.cfg.range(b),
                end == range.end_at(),
                range.len > 0 ==> end <= self.dataflow.instr_defs@.len(),
                range.start.0 <= i <= end,
                forall|q: int, k: int| range.start.0 <= q < i ==> !#[trigger] self.lets_out(s@, result, q, k),
            decreases end - i,
        {
            let n = self.dataflow.instr_defs[i].len();
            let mut k: usize = 0;
            while k < n
                invariant
                    self.wf(),
                    rows@.len() == self.dataflow.phi_phi_uses@.len(),
                    forall|a: int, k: int| 0 <= a < rows@.len() && 0 <= k < rows@[a]@.len() ==> (#[trigger] rows@[a]@[k]) < rows@.len(),
                    forall|a: usize, b: usize|
                        a < rows@.len() ==> (#[trigger] rows@[a as int]@.contains(b) <==> self.feeds_but(result)(a, b)),
                    i < self.dataflow.instr_defs@.len(),
                    range == self.cfg.range(b),
                    range.start.0 <= i < range.end_at(),
                    n == self.dataflow.instr_defs@[i as int]@.len(),
                    k <= n,
                    forall|q: int| 0 <= q < k ==> !#[trigger] self.lets_out(s@, result, i as int, q),
                decreases n - k,
            {
                if self.check_def_escapes(s, rows, self.dataflow.instr_defs[i][k], result) {
                    assert(self.lets_out(s@, result, i as int, k as int));
                    return true;
                }
                k = k + 1;
            }
            i = i + 1;
        }
        false
    }

    fn check_leaves(&self, candidate: &ShortCircuitCandidate) -> (r: bool)
        ensures
            r == self.leaves_exist(candidate@),
    {
        let n = candidate.value_incomings.len();
        let mut k: usize = 0;
        while k < n
            invariant
                n == candidate.value_incomings@.len(),
                k <= n,
                forall|j: int|
                    0 <= j < k ==> within(
                        (#[trigger] candidate.value_incomings@[j]).value,
                        self.dataflow.phi_candidates@.len(),
                        self.dataflow.defs@.len(),
                    ),
            decreases n - k,
        {
            let there = match candidate.value_incomings[k].value {
                SsaValue::Entry(_) => true,
                SsaValue::Def(d) => d.0 < self.dataflow.defs.len(),
                SsaValue::Phi(p) => p.0 < self.dataflow.phi_candidates.len(),
            };
            if !there {
                assert(!within(candidate@.value_incomings[k as int].value, self.dataflow.phi_candidates@.len(), self.dataflow.defs@.len()));
                return false;
            }
            k = k + 1;
        }
        true
    }

    /// Whether everything that the expression computes goes into its tests and its result.
    pub fn value_decision_result_is_closed(
        &self,
        dead: &IdSet<PhiId>,
        candidate: &ShortCircuitCandidate,
        result: PhiId,
    ) -> (r: bool)
        requires
            self.wf(),
            self.control_closed(candidate@),
            forall|x: PhiId| #[trigger] dead@.contains(x) <==> x.0 < self.dataflow.phi_candidates@.len() && !is_needed(
                self.dataflow.use_values@,
                self.dataflow.phi_candidates@,
                x.0,
            ),
        ensures
            r == self.result_closed(candidate@, result),
    {
        let ghost s = candidate@;
        if !self.check_leaves(candidate) || !self.effects_serve(candidate) {
            return false;
        }
        let rows = self.feed_rows(result);
        let n = self.dataflow.phi_candidates.len();
        let mut p: usize = 0;
        while p < n
            invariant
                self.wf(),
                s == candidate@,
                forall|x: PhiId| #[trigger] dead@.contains(x) <==> x.0 < self.dataflow.phi_candidates@.len() && !is_needed(
                    self.dataflow.use_values@,
                    self.dataflow.phi_candidates@,
                    x.0,
                ),
                rows@.len() == self.dataflow.phi_phi_uses@.len(),
                forall|a: int, k: int| 0 <= a < rows@.len() && 0 <= k < rows@[a]@.len() ==> (#[trigger] rows@[a]@[k]) < rows@.len(),
                forall|a: usize, b: usize| a < rows@.len() ==> (#[trigger] rows@[a as int]@.contains(b) <==> self.feeds_but(result)(a, b)),
                n == self.dataflow.phi_candidates@.len(),
                p <= n,
                forall|x: int|
                    0 <= x < p && x != result.0 && #[trigger] self.on_boundary(s.blocks, x) ==> self.gets_one_value(s.blocks, x)
                        || self.is_internal(s.blocks, x as usize, result),
            decreases n - p,
        {
            if p != result.0 && self.check_on_boundary(dead, &candidate.blocks, p) && !self.value_decision_boundary_phi_is_unchanged(
                &candidate.blocks,
                p,
            ) && !self.value_decision_phi_is_internal(&candidate.blocks, &rows, p, result) {
                assert(self.on_boundary(s.blocks, p as int));
                return false;
            }
            p = p + 1;
        }
        !self.value_decision_defs_escape(candidate, &rows, result)
    }
}

} // verus!
